//! The append-only blob store and its key codec.
//!
//! A blob store is one growing byte string. A `put` appends the payload and
//! returns a key; a `get` resolves a key back to the exact payload bytes.
//! The key is the framing: it spells the payload's offset and length as two
//! fixed-width hexadecimal fields, so writer and reader agree on a bijective
//! encoding and the store itself needs no headers.

use vstd::arithmetic::div_mod::lemma_breakdown;
use vstd::arithmetic::power::lemma_pow_increases;
use vstd::arithmetic::power::pow;
use vstd::prelude::*;
use vstd::slice::slice_subrange;
use vstd::slice::slice_to_vec;
use vstd::string::StrSliceExecFns;
use vstd::string::StringExecFns;

use crate::error::Error;

verus! {

/// The character that spells one hexadecimal digit.
pub open spec fn hex_digit_char(d: u8) -> char {
    if d == 0 {
        '0'
    } else if d == 1 {
        '1'
    } else if d == 2 {
        '2'
    } else if d == 3 {
        '3'
    } else if d == 4 {
        '4'
    } else if d == 5 {
        '5'
    } else if d == 6 {
        '6'
    } else if d == 7 {
        '7'
    } else if d == 8 {
        '8'
    } else if d == 9 {
        '9'
    } else if d == 10 {
        'a'
    } else if d == 11 {
        'b'
    } else if d == 12 {
        'c'
    } else if d == 13 {
        'd'
    } else if d == 14 {
        'e'
    } else {
        'f'
    }
}

/// The value of one hexadecimal digit character, or -1 for any other
/// character. Only lower-case digits are part of the canonical key form.
pub open spec fn hex_char_val(c: char) -> int {
    if c == '0' {
        0
    } else if c == '1' {
        1
    } else if c == '2' {
        2
    } else if c == '3' {
        3
    } else if c == '4' {
        4
    } else if c == '5' {
        5
    } else if c == '6' {
        6
    } else if c == '7' {
        7
    } else if c == '8' {
        8
    } else if c == '9' {
        9
    } else if c == 'a' {
        10
    } else if c == 'b' {
        11
    } else if c == 'c' {
        12
    } else if c == 'd' {
        13
    } else if c == 'e' {
        14
    } else if c == 'f' {
        15
    } else {
        -1
    }
}

/// The `n` low hexadecimal digits of `v`, most significant first.
pub open spec fn hexn(v: int, n: nat) -> Seq<char>
    decreases n,
{
    if n == 0 {
        Seq::empty()
    } else {
        hexn(v / 16, (n - 1) as nat).push(hex_digit_char((v % 16) as u8))
    }
}

/// Whether every character of `s` is a lower-case hexadecimal digit.
pub open spec fn all_hex(s: Seq<char>) -> bool {
    forall|i: int| 0 <= i < s.len() ==> hex_char_val(#[trigger] s[i]) >= 0
}

/// The number a sequence of hexadecimal digits spells, most significant
/// digit first.
pub open spec fn hex_seq_val(s: Seq<char>) -> int
    decreases s.len(),
{
    if s.len() == 0 {
        0
    } else {
        hex_seq_val(s.drop_last()) * 16 + hex_char_val(s.last())
    }
}

/// The canonical key text for the payload at `offset` with length `length`:
/// sixteen hexadecimal digits of the offset, then sixteen of the length.
pub open spec fn spec_encode_key(offset: u64, length: u64) -> Seq<char> {
    hexn(offset as int, 16) + hexn(length as int, 16)
}

/// What a key text means: `Some((offset, length))` exactly when the text is
/// 32 lower-case hexadecimal digits, and `None` for every other string.
pub open spec fn spec_parse_key(s: Seq<char>) -> Option<(u64, u64)> {
    if s.len() == 32 && all_hex(s) {
        Some(
            (
                hex_seq_val(s.subrange(0, 16)) as u64,
                hex_seq_val(s.subrange(16, 32)) as u64,
            ),
        )
    } else {
        None
    }
}

proof fn lemma_pow16_unfold(n: nat)
    requires
        n >= 1,
    ensures
        pow(16, n) == 16 * pow(16, (n - 1) as nat),
{
    vstd::arithmetic::power::lemma_pow1(16);
    vstd::arithmetic::power::lemma_pow_adds(16, (n - 1) as nat, 1);
}

proof fn lemma_pow16_vals()
    ensures
        pow(16, 15) == 0x1000000000000000,
        pow(16, 16) == 0x10000000000000000,
{
    reveal_with_fuel(pow, 17);
}

proof fn lemma_hexn_len(v: int, n: nat)
    ensures
        hexn(v, n).len() == n,
    decreases n,
{
    if n > 0 {
        lemma_hexn_len(v / 16, (n - 1) as nat);
    }
}

proof fn lemma_hexn_all_hex(v: int, n: nat)
    requires
        v >= 0,
    ensures
        all_hex(hexn(v, n)),
    decreases n,
{
    if n > 0 {
        lemma_hexn_all_hex(v / 16, (n - 1) as nat);
        let s = hexn(v, n);
        let prefix = hexn(v / 16, (n - 1) as nat);
        assert forall|i: int| 0 <= i < s.len() implies hex_char_val(#[trigger] s[i]) >= 0 by {
            if i < prefix.len() {
                assert(s[i] == prefix[i]);
            } else {
                assert(s[i] == hex_digit_char((v % 16) as u8));
            }
        }
    }
}

proof fn lemma_hexn_val(v: int, n: nat)
    requires
        v >= 0,
    ensures
        hex_seq_val(hexn(v, n)) == v % pow(16, n),
    decreases n,
{
    if n == 0 {
        vstd::arithmetic::power::lemma_pow0(16);
        assert(v % 1 == 0) by (nonlinear_arith)
            requires
                v >= 0,
        ;
    } else {
        let prefix = hexn(v / 16, (n - 1) as nat);
        let s = hexn(v, n);
        lemma_hexn_val(v / 16, (n - 1) as nat);
        assert(s.drop_last() =~= prefix);
        assert(s.last() == hex_digit_char((v % 16) as u8));
        assert(hex_char_val(hex_digit_char((v % 16) as u8)) == v % 16);
        vstd::arithmetic::power::lemma_pow_positive(16, (n - 1) as nat);
        lemma_breakdown(v, 16, pow(16, (n - 1) as nat));
        lemma_pow16_unfold(n);
    }
}

proof fn lemma_hex_seq_val_bound(s: Seq<char>)
    requires
        all_hex(s),
    ensures
        0 <= hex_seq_val(s) < pow(16, s.len()),
    decreases s.len(),
{
    if s.len() > 0 {
        assert(all_hex(s.drop_last())) by {
            assert(forall|i: int|
                0 <= i < s.len() - 1 ==> s.drop_last()[i] == #[trigger] s[i]);
        }
        lemma_hex_seq_val_bound(s.drop_last());
        assert(hex_char_val(s.last()) >= 0);
        assert(hex_char_val(s.last()) <= 15);
        lemma_pow16_unfold(s.len());
    } else {
        vstd::arithmetic::power::lemma_pow0(16);
    }
}

/// The key codec is bijective on its canonical form: parsing the text that
/// encodes `(offset, length)` yields `(offset, length)` back.
pub proof fn lemma_key_roundtrip(offset: u64, length: u64)
    ensures
        spec_parse_key(spec_encode_key(offset, length)) == Some((offset, length)),
{
    let a = hexn(offset as int, 16);
    let b = hexn(length as int, 16);
    let s = spec_encode_key(offset, length);
    lemma_hexn_len(offset as int, 16);
    lemma_hexn_len(length as int, 16);
    lemma_hexn_all_hex(offset as int, 16);
    lemma_hexn_all_hex(length as int, 16);
    assert(s.len() == 32);
    assert(s.subrange(0, 16) =~= a);
    assert(s.subrange(16, 32) =~= b);
    assert(all_hex(s)) by {
        assert(forall|i: int| 0 <= i < 16 ==> #[trigger] s[i] == a[i]);
        assert(forall|i: int| 16 <= i < 32 ==> #[trigger] s[i] == b[i - 16]);
    }
    lemma_hexn_val(offset as int, 16);
    lemma_hexn_val(length as int, 16);
    lemma_pow16_vals();
    vstd::arithmetic::div_mod::lemma_small_mod(offset as nat, pow(16, 16) as nat);
    vstd::arithmetic::div_mod::lemma_small_mod(length as nat, pow(16, 16) as nat);
}

/// The text of one hexadecimal digit.
fn hex_digit_str(d: u8) -> (r: &'static str)
    requires
        d < 16,
    ensures
        r@ =~= seq![hex_digit_char(d)],
{
    proof {
        reveal_strlit("0");
        reveal_strlit("1");
        reveal_strlit("2");
        reveal_strlit("3");
        reveal_strlit("4");
        reveal_strlit("5");
        reveal_strlit("6");
        reveal_strlit("7");
        reveal_strlit("8");
        reveal_strlit("9");
        reveal_strlit("a");
        reveal_strlit("b");
        reveal_strlit("c");
        reveal_strlit("d");
        reveal_strlit("e");
        reveal_strlit("f");
    }
    match d {
        0 => "0",
        1 => "1",
        2 => "2",
        3 => "3",
        4 => "4",
        5 => "5",
        6 => "6",
        7 => "7",
        8 => "8",
        9 => "9",
        10 => "a",
        11 => "b",
        12 => "c",
        13 => "d",
        14 => "e",
        _ => "f",
    }
}

/// The `n` low hexadecimal digits of `v`, most significant first.
fn hex_u64(v: u64, n: u8) -> (r: String)
    requires
        n <= 16,
    ensures
        r@ == hexn(v as int, n as nat),
    decreases n,
{
    if n == 0 {
        let r = String::new();
        proof {
            assert(r@ =~= hexn(v as int, 0));
        }
        r
    } else {
        let mut r = hex_u64(v / 16, n - 1);
        let d = (v % 16) as u8;
        r.append(hex_digit_str(d));
        proof {
            assert((v as int) / 16 == (v / 16) as int);
            assert((v as int) % 16 == (v % 16) as int);
            assert(r@ =~= hexn(v as int, n as nat));
        }
        r
    }
}

/// The key text for the payload at `offset` with length `length`.
pub fn encode_key(offset: u64, length: u64) -> (r: String)
    ensures
        r@ == spec_encode_key(offset, length),
{
    let mut r = hex_u64(offset, 16);
    let tail = hex_u64(length, 16);
    r.append(tail.as_str());
    r
}

/// The value of one hexadecimal digit character.
fn hex_char_value(c: char) -> (r: Option<u8>)
    ensures
        match r {
            Some(v) => v < 16 && hex_char_val(c) == v as int,
            None => hex_char_val(c) < 0,
        },
{
    match c {
        '0' => Some(0),
        '1' => Some(1),
        '2' => Some(2),
        '3' => Some(3),
        '4' => Some(4),
        '5' => Some(5),
        '6' => Some(6),
        '7' => Some(7),
        '8' => Some(8),
        '9' => Some(9),
        'a' => Some(10),
        'b' => Some(11),
        'c' => Some(12),
        'd' => Some(13),
        'e' => Some(14),
        'f' => Some(15),
        _ => None,
    }
}

/// Sixteen hexadecimal digits of `s` starting at `start`, as a number.
fn parse_hex16(s: &str, start: usize) -> (r: Option<u64>)
    requires
        start + 16 <= s@.len(),
        start + 16 <= usize::MAX,
    ensures
        match r {
            Some(v) => {
                &&& forall|i: int|
                    start <= i < start + 16 ==> hex_char_val(#[trigger] s@[i]) >= 0
                &&& v as int == hex_seq_val(s@.subrange(start as int, start + 16))
            },
            None => exists|i: int|
                start <= i < start + 16 && hex_char_val(#[trigger] s@[i]) < 0,
        },
{
    let mut acc: u64 = 0;
    let mut i: usize = 0;
    proof {
        vstd::arithmetic::power::lemma_pow0(16);
    }
    while i < 16
        invariant
            0 <= i <= 16,
            start + 16 <= s@.len(),
            start + 16 <= usize::MAX,
            forall|j: int| start <= j < start + i ==> hex_char_val(#[trigger] s@[j]) >= 0,
            acc as int == hex_seq_val(s@.subrange(start as int, start + i)),
            acc as int >= 0,
            (acc as int) < pow(16, i as nat),
        decreases 16 - i,
    {
        let c = s.get_char(start + i);
        match hex_char_value(c) {
            None => {
                return None;
            },
            Some(d) => {
                proof {
                    lemma_pow_increases(16, i as nat, 15);
                    lemma_pow16_vals();
                    let prefix = s@.subrange(start as int, start + i);
                    let longer = s@.subrange(start as int, start + i + 1);
                    assert(longer.drop_last() =~= prefix);
                    assert(longer.last() == s@[start + i]);
                    lemma_pow16_unfold((i + 1) as nat);
                }
                acc = acc * 16 + (d as u64);
                i = i + 1;
            },
        }
    }
    Some(acc)
}

/// Parses a key text back into `(offset, length)`, accepting exactly the
/// canonical form that `encode_key` produces.
pub fn decode_key(s: &str) -> (r: Option<(u64, u64)>)
    ensures
        r == spec_parse_key(s@),
{
    let n = s.unicode_len();
    if n != 32 {
        return None;
    }
    let offset = match parse_hex16(s, 0) {
        Some(v) => v,
        None => {
            return None;
        },
    };
    let length = match parse_hex16(s, 16) {
        Some(v) => v,
        None => {
            return None;
        },
    };
    proof {
        assert(all_hex(s@));
    }
    Some((offset, length))
}

/// An append-only byte container. Writes only ever extend the backing
/// bytes; a key returned by `put` names its payload for ever after.
pub struct BlobStore {
    data: Vec<u8>,
}

impl View for BlobStore {
    type V = Seq<u8>;

    closed spec fn view(&self) -> Seq<u8> {
        self.data@
    }
}

impl BlobStore {
    /// An empty store.
    pub fn new() -> (s: Self)
        ensures
            s@ =~= Seq::<u8>::empty(),
    {
        BlobStore { data: Vec::new() }
    }

    /// A store over bytes read back from an existing blob file.
    pub fn from_bytes(data: Vec<u8>) -> (s: Self)
        ensures
            s@ == data@,
    {
        BlobStore { data }
    }

    /// The store's full backing bytes, for writing them out as one blob
    /// file.
    pub fn bytes(&self) -> (r: &Vec<u8>)
        ensures
            r@ == self@,
    {
        &self.data
    }

    /// How many bytes the store holds.
    pub fn len(&self) -> (n: usize)
        ensures
            n == self@.len(),
    {
        self.data.len()
    }

    /// Appends `bytes` and returns the key under which they can be read
    /// back. The store grows by exactly the payload.
    pub fn put(&mut self, bytes: &Vec<u8>) -> (key: String)
        ensures
            final(self)@ == old(self)@ + bytes@,
            key@ == spec_encode_key(old(self)@.len() as u64, bytes@.len() as u64),
    {
        let offset = self.data.len() as u64;
        let length = bytes.len() as u64;
        let mut tail = slice_to_vec(bytes.as_slice());
        self.data.append(&mut tail);
        proof {
            assert(self.data@ =~= old(self)@ + bytes@);
        }
        encode_key(offset, length)
    }

    /// Resolves a key to the payload bytes it names. Fails with
    /// `Error::InvalidInput` exactly when the key is not canonical or names
    /// a range that lies outside the store.
    pub fn get(&self, key: &String) -> (r: Result<Vec<u8>, Error>)
        ensures
            match spec_parse_key(key@) {
                Some(ol) => {
                    if ol.0 + ol.1 <= self@.len() {
                        &&& r is Ok
                        &&& r->Ok_0@ == self@.subrange(ol.0 as int, ol.0 + ol.1)
                    } else {
                        r == Err::<Vec<u8>, Error>(Error::InvalidInput)
                    }
                },
                None => r == Err::<Vec<u8>, Error>(Error::InvalidInput),
            },
    {
        let parsed = decode_key(key.as_str());
        match parsed {
            None => Err(Error::InvalidInput),
            Some((offset, length)) => {
                let n = self.data.len();
                if length > n as u64 || offset > n as u64 - length {
                    Err(Error::InvalidInput)
                } else {
                    let piece = slice_subrange(
                        self.data.as_slice(),
                        offset as usize,
                        (offset + length) as usize,
                    );
                    Ok(slice_to_vec(piece))
                }
            },
        }
    }
}

} // verus!
