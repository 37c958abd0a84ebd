//! Text, number and randomness helpers that the game's logic builds on.

use rand::Rng;
use vstd::prelude::*;
use vstd::utf8::*;

verus! {

/// The characters that `str::to_uppercase` returns for a string with the
/// given characters.
pub uninterp spec fn uppercase(s: Seq<char>) -> Seq<char>;

/// Number of bytes of the UTF-8 encoding of `s` (what `str::len` returns).
pub open spec fn byte_len(s: Seq<char>) -> nat {
    encode_utf8(s).len()
}

/// What `str::len` returns for a string with the characters `s`: its byte
/// length, as a `usize`.
pub open spec fn str_len(s: Seq<char>) -> usize {
    byte_len(s) as usize
}

/// Index of the first occurrence of `c` in `s`, if any.
pub open spec fn first_index_of(s: Seq<char>, c: char) -> Option<nat>
    decreases s.len(),
{
    if s.len() == 0 {
        None
    } else if s[0] == c {
        Some(0)
    } else {
        match first_index_of(s.drop_first(), c) {
            Some(k) => Some(k + 1),
            None => None,
        }
    }
}

/// Byte offset of the first occurrence of `c` in `s`, if any (what
/// `str::find` returns for a `char` pattern).
pub open spec fn byte_offset_of(s: Seq<char>, c: char) -> Option<nat> {
    match first_index_of(s, c) {
        Some(k) => Some(byte_len(s.take(k as int))),
        None => None,
    }
}

/// The decimal digits of `n`, most significant first, without sign or padding.
pub open spec fn decimal(n: u64) -> Seq<char>
    decreases n,
{
    if n < 10 {
        seq![digit_char(n)]
    } else {
        decimal(n / 10).push(digit_char(n % 10))
    }
}

/// The character of the decimal digit `d` (`d < 10`).
pub open spec fn digit_char(d: u64) -> char {
    if d == 0 { '0' }
    else if d == 1 { '1' }
    else if d == 2 { '2' }
    else if d == 3 { '3' }
    else if d == 4 { '4' }
    else if d == 5 { '5' }
    else if d == 6 { '6' }
    else if d == 7 { '7' }
    else if d == 8 { '8' }
    else { '9' }
}

/// `str::to_uppercase`: the result's characters are named by `uppercase`.
#[verifier::external_body]
pub(crate) fn to_uppercase(s: &str) -> (res: String)
    ensures
        res@ == uppercase(s@),
{
    s.to_uppercase()
}

/// `str::find` with a `char` pattern: the byte index of the first character
/// of `s` equal to `c`, or `None` where `c` does not occur in `s`.
#[verifier::external_body]
pub(crate) fn find_char(s: &str, c: char) -> (res: Option<usize>)
    ensures
        res is Some <==> byte_offset_of(s@, c) is Some,
        res matches Some(b) ==> b as nat == byte_offset_of(s@, c)->0,
{
    s.find(c)
}

/// `char::to_string`: a string that holds exactly `c`.
#[verifier::external_body]
pub(crate) fn char_to_string(c: char) -> (res: String)
    ensures
        res@ == seq![c],
{
    c.to_string()
}

/// `u64::to_string`: the decimal digits of `n`.
#[verifier::external_body]
pub(crate) fn u64_to_string(n: u64) -> (res: String)
    ensures
        res@ == decimal(n),
{
    n.to_string()
}

/// `rand::Rng::gen_range` on the inclusive range `lo..=hi` of the thread's
/// generator: some number of that range. Which one is left to chance.
#[verifier::external_body]
pub(crate) fn random_in_range(lo: usize, hi: usize) -> (res: usize)
    requires
        lo <= hi,
    ensures
        lo <= res <= hi,
{
    rand::thread_rng().gen_range(lo..=hi)
}

/// Every character takes between one and four bytes in UTF-8.
pub proof fn lemma_scalar_len(c: char)
    ensures
        1 <= encode_scalar(c as u32).len() <= 4,
{
}

/// The encoding of a concatenation is the concatenation of the encodings.
pub proof fn lemma_byte_len_concat(a: Seq<char>, b: Seq<char>)
    ensures
        encode_utf8(a + b) == encode_utf8(a) + encode_utf8(b),
    decreases a.len(),
{
    if a.len() == 0 {
        assert(a + b =~= b);
    } else {
        lemma_byte_len_concat(a.drop_first(), b);
        assert((a + b).drop_first() =~= a.drop_first() + b);
        assert((a + b)[0] == a[0]);
    }
}

/// A string has no more characters than bytes.
pub proof fn lemma_chars_le_bytes(s: Seq<char>)
    ensures
        s.len() <= byte_len(s),
    decreases s.len(),
{
    if s.len() > 0 {
        lemma_scalar_len(s[0]);
        lemma_chars_le_bytes(s.drop_first());
    }
}

/// The bytes before the character at index `k` are fewer than the bytes of
/// the whole string.
pub proof fn lemma_prefix_bytes_lt(s: Seq<char>, k: int)
    requires
        0 <= k < s.len(),
    ensures
        k <= byte_len(s.take(k)) < byte_len(s),
{
    lemma_byte_len_concat(s.take(k), s.skip(k));
    assert(s.take(k) + s.skip(k) =~= s);
    lemma_scalar_len(s.skip(k)[0]);
    lemma_chars_le_bytes(s.take(k));
}

/// The found index holds the searched character and comes before every
/// other occurrence.
pub proof fn lemma_first_index_of(s: Seq<char>, c: char)
    ensures
        first_index_of(s, c) matches Some(k) ==> k < s.len() && s[k as int] == c
            && forall|j: int| 0 <= j < k ==> s[j] != c,
        first_index_of(s, c) is None ==> forall|j: int| 0 <= j < s.len() ==> s[j] != c,
    decreases s.len(),
{
    if s.len() > 0 {
        lemma_first_index_of(s.drop_first(), c);
        if s[0] != c {
            assert forall|j: int| 1 <= j < s.len() implies s[j] == s.drop_first()[j - 1] by {}
        }
    }
}

/// Every character of `s` is ASCII.
pub open spec fn all_ascii(s: Seq<char>) -> bool {
    forall|i: int| 0 <= i < s.len() ==> (#[trigger] s[i] as u32) < 128
}

/// An ASCII string has one byte per character.
pub proof fn lemma_ascii_byte_len(s: Seq<char>)
    requires
        all_ascii(s),
    ensures
        byte_len(s) == s.len(),
    decreases s.len(),
{
    if s.len() > 0 {
        assert((s[0] as u32) < 128);
        assert(s.drop_first().len() == s.len() - 1);
        assert forall|i: int| 0 <= i < s.drop_first().len() implies (#[trigger] s.drop_first()[i] as u32) < 128 by {
            assert(s.drop_first()[i] == s[i + 1]);
        }
        lemma_ascii_byte_len(s.drop_first());
    }
}

/// The value that `as i8` gives for the integer `v`.
pub open spec fn wrap_i8(v: int) -> int {
    let m = v % 256;
    if m < 128 { m } else { m - 256 }
}

/// `v` lies in the range of `i8`.
pub open spec fn fits_i8(v: int) -> bool {
    -128 <= v <= 127
}

pub proof fn lemma_u8_as_i8(v: u8)
    ensures
        (v as i8) as int == wrap_i8(v as int),
{
    assert((v as i8) as int == (if v < 128 { v as int } else { v as int - 256 })) by (bit_vector);
}

pub proof fn lemma_usize_as_i8(v: usize)
    ensures
        (v as i8) as int == wrap_i8(v as int),
{
    assert(((v as i8) as int == (if v % 256 < 128 { (v % 256) as int } else { (v % 256) as int
        - 256 }))) by (bit_vector);
}

pub proof fn lemma_i32_as_i8(v: i32)
    requires
        v >= 0,
    ensures
        (v as i8) as int == wrap_i8(v as int),
{
    assert(v >= 0 ==> ((v as i8) as int == (if v % 256 < 128 { (v % 256) as int } else { (v % 256)
        as int - 256 }))) by (bit_vector);
}

} // verus!
