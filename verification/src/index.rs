//! Versioned index-file names: a backup run writes `<name>.NNN.idx`, and
//! the latest run is the one with the highest three-digit number. The
//! parsing and the maximum are decided here; listing the directory stays
//! outside the library.

use vstd::prelude::*;
use vstd::string::StrSliceExecFns;

verus! {

/// Whether no character of `s` is a dot. A name with a dot can never match
/// the `<name>.NNN.idx` shape, whose first dot ends the name part.
pub open spec fn no_dot(s: Seq<char>) -> bool {
    forall|i: int| 0 <= i < s.len() ==> s[i] != '.'
}

/// The value of one decimal digit character, or -1 for any other character.
pub open spec fn dec_char_val(c: char) -> int {
    if c == '0' {
        0
    } else if c == '1' {
        1
    } else if c == '2' {
        2
    } else if c == '3' {
        3
    } else if c == '4' {
        4
    } else if c == '5' {
        5
    } else if c == '6' {
        6
    } else if c == '7' {
        7
    } else if c == '8' {
        8
    } else if c == '9' {
        9
    } else {
        -1
    }
}

/// The version a file name spells, when it has exactly the shape
/// `<base>.NNN.idx` with `base` dot-free and `NNN` three decimal digits.
pub open spec fn index_version_of(s: Seq<char>, base: Seq<char>) -> Option<u16> {
    if no_dot(base) && s.len() == base.len() + 8 && s.subrange(0, base.len() as int) == base
        && s[base.len() as int] == '.' && dec_char_val(s[base.len() + 1 as int]) >= 0 && dec_char_val(
        s[base.len() + 2 as int],
    ) >= 0 && dec_char_val(s[base.len() + 3 as int]) >= 0 && s[base.len() + 4 as int] == '.' && s[base.len() + 5 as int] == 'i' && s[base.len() + 6 as int] == 'd' && s[base.len() + 7 as int] == 'x' {
        Some(
            (dec_char_val(s[base.len() + 1 as int]) * 100 + dec_char_val(s[base.len() + 2 as int]) * 10
                + dec_char_val(s[base.len() + 3 as int])) as u16,
        )
    } else {
        None
    }
}

/// The larger of two optional versions.
pub open spec fn version_max(a: Option<u16>, b: Option<u16>) -> Option<u16> {
    match b {
        None => a,
        Some(vb) => match a {
            None => Some(vb),
            Some(va) => if vb > va {
                Some(vb)
            } else {
                Some(va)
            },
        },
    }
}

/// The highest version among the file names that match `<base>.NNN.idx`.
pub open spec fn spec_last_version(names: Seq<Seq<char>>, base: Seq<char>) -> Option<u16>
    decreases names.len(),
{
    if names.len() == 0 {
        None
    } else {
        version_max(
            spec_last_version(names.drop_last(), base),
            index_version_of(names.last(), base),
        )
    }
}

/// The value of one decimal digit character.
fn dec_digit_value(c: char) -> (r: Option<u8>)
    ensures
        match r {
            Some(v) => v <= 9 && dec_char_val(c) == v as int,
            None => dec_char_val(c) < 0,
        },
{
    match c {
        '0' => Some(0),
        '1' => Some(1),
        '2' => Some(2),
        '3' => Some(3),
        '4' => Some(4),
        '5' => Some(5),
        '6' => Some(6),
        '7' => Some(7),
        '8' => Some(8),
        '9' => Some(9),
        _ => None,
    }
}

/// Parses one file name against the `<base>.NNN.idx` shape.
fn parse_index_name(s: &str, base: &str) -> (r: Option<u16>)
    ensures
        r == index_version_of(s@, base@),
{
    let base_len = base.unicode_len();
    let mut i: usize = 0;
    while i < base_len
        invariant
            0 <= i <= base@.len(),
            base_len == base@.len(),
            forall|k: int| 0 <= k < i ==> base@[k] != '.',
        decreases base@.len() - i,
    {
        if base.get_char(i) == '.' {
            proof {
                assert(base@[i as int] == '.');
            }
            return None;
        }
        i = i + 1;
    }
    proof {
        assert(no_dot(base@));
    }
    let s_len = s.unicode_len();
    if base_len > usize::MAX - 8 || s_len != base_len + 8 {
        return None;
    }
    let mut i: usize = 0;
    while i < base_len
        invariant
            0 <= i <= base@.len(),
            base_len == base@.len(),
            s_len == s@.len(),
            s@.len() == base@.len() + 8,
            forall|k: int| 0 <= k < i ==> s@[k] == base@[k],
        decreases base@.len() - i,
    {
        if s.get_char(i) != base.get_char(i) {
            proof {
                assert(s@.subrange(0, base@.len() as int) != base@) by {
                    assert(s@.subrange(0, base@.len() as int)[i as int] != base@[i as int]);
                }
            }
            return None;
        }
        i = i + 1;
    }
    proof {
        assert(s@.subrange(0, base@.len() as int) =~= base@);
    }
    if s.get_char(base_len) != '.' {
        return None;
    }
    let d1 = match dec_digit_value(s.get_char(base_len + 1)) {
        Some(v) => v,
        None => {
            return None;
        },
    };
    let d2 = match dec_digit_value(s.get_char(base_len + 2)) {
        Some(v) => v,
        None => {
            return None;
        },
    };
    let d3 = match dec_digit_value(s.get_char(base_len + 3)) {
        Some(v) => v,
        None => {
            return None;
        },
    };
    if s.get_char(base_len + 4) != '.' {
        return None;
    }
    if s.get_char(base_len + 5) != 'i' {
        return None;
    }
    if s.get_char(base_len + 6) != 'd' {
        return None;
    }
    if s.get_char(base_len + 7) != 'x' {
        return None;
    }
    Some((d1 as u16) * 100 + (d2 as u16) * 10 + (d3 as u16))
}

/// The highest version among the given file names that match
/// `<base>.NNN.idx`, or nothing when none does.
pub fn last_version(names: &Vec<String>, base: &str) -> (r: Option<u16>)
    ensures
        r == spec_last_version(Seq::new(names@.len(), |i: int| names@[i]@), base@),
{
    let ghost nv = Seq::new(names@.len(), |i: int| names@[i]@);
    let mut best: Option<u16> = None;
    let mut i: usize = 0;
    while i < names.len()
        invariant
            0 <= i <= names@.len(),
            nv == Seq::new(names@.len(), |j: int| names@[j]@),
            best == spec_last_version(nv.take(i as int), base@),
        decreases names@.len() - i,
    {
        let here = parse_index_name(names[i].as_str(), base);
        proof {
            assert(nv.take(i as int + 1).drop_last() =~= nv.take(i as int));
            assert(nv.take(i as int + 1).last() == nv[i as int]);
        }
        best = match (best, here) {
            (None, v) => v,
            (Some(b), None) => Some(b),
            (Some(b), Some(v)) => if v > b {
                Some(v)
            } else {
                Some(b)
            },
        };
        i = i + 1;
    }
    proof {
        assert(nv.take(names@.len() as int) =~= nv);
    }
    best
}

} // verus!
