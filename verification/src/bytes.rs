//! Small verified helpers on byte vectors and slices, and the decimal
//! notation of sizes.

use vstd::prelude::*;
use vstd::string::StringSliceAdditionalSpecFns;
use vstd::utf8::{encode_utf8, is_ascii_chars, valid_utf8};

verus! {

/// The bytes of a string.
pub open spec fn lit(s: &str) -> Seq<u8> {
    s.spec_bytes()
}

/// The bytes of an ASCII string are its characters, one for one.
pub proof fn lemma_lit_ascii(s: &str)
    requires
        is_ascii_chars(s@),
    ensures
        lit(s).len() == s@.len(),
        forall|i: int| 0 <= i < s@.len() ==> #[trigger] lit(s)[i] == s@[i] as u8,
{
    vstd::utf8::is_ascii_chars_encode_utf8(s@);
}

/// Bytes below 128 are valid UTF-8.
pub proof fn lemma_ascii_valid_utf8(bytes: Seq<u8>)
    requires
        forall|i: int| 0 <= i < bytes.len() ==> bytes[i] < 128,
    ensures
        valid_utf8(bytes),
{
    let chars = Seq::new(bytes.len(), |i: int| bytes[i] as char);
    assert(is_ascii_chars(chars));
    vstd::utf8::is_ascii_chars_encode_utf8(chars);
    assert(encode_utf8(chars) =~= bytes);
    vstd::utf8::encode_utf8_valid_utf8(chars);
}

/// Makes a string of UTF-8 bytes with `String::from_utf8`, which succeeds
/// exactly on valid UTF-8 and then gives the string with those bytes.
#[verifier::external_body]
pub(crate) fn string_from_utf8(bytes: Vec<u8>) -> (r: Option<String>)
    ensures
        r is Some <==> valid_utf8(bytes@),
        r matches Some(s) ==> encode_utf8(s@) == bytes@,
{
    String::from_utf8(bytes).ok()
}

/// Appends `src` to `out`.
pub fn append(out: &mut Vec<u8>, src: &[u8])
    ensures
        final(out)@ == old(out)@ + src@,
{
    let ghost before = out@;
    let mut i: usize = 0;
    while i < src.len()
        invariant
            i <= src.len(),
            out@ == before + src@.subrange(0, i as int),
        decreases src.len() - i,
    {
        out.push(src[i]);
        i = i + 1;
    }
    assert(src@.subrange(0, src.len() as int) == src@);
}

/// Appends the bytes of `s` to `out`.
pub fn append_str(out: &mut Vec<u8>, s: &str)
    ensures
        final(out)@ == old(out)@ + lit(s),
{
    append(out, s.as_bytes());
}

/// A copy of `src[from..to]`.
pub fn slice_to_vec(src: &[u8], from: usize, to: usize) -> (out: Vec<u8>)
    requires
        from <= to <= src.len(),
    ensures
        out@ == src@.subrange(from as int, to as int),
{
    let mut out: Vec<u8> = Vec::new();
    let mut i: usize = from;
    while i < to
        invariant
            from <= i <= to <= src.len(),
            out@ == src@.subrange(from as int, i as int),
        decreases to - i,
    {
        out.push(src[i]);
        i = i + 1;
    }
    out
}

/// Whether two byte slices hold the same bytes.
pub fn equal(a: &[u8], b: &[u8]) -> (r: bool)
    ensures
        r == (a@ == b@),
{
    if a.len() != b.len() {
        return false;
    }
    let mut i: usize = 0;
    while i < a.len()
        invariant
            i <= a.len(),
            a.len() == b.len(),
            a@.subrange(0, i as int) == b@.subrange(0, i as int),
        decreases a.len() - i,
    {
        if a[i] != b[i] {
            return false;
        }
        assert(a@.subrange(0, i + 1) == a@.subrange(0, i as int).push(a@[i as int]));
        assert(b@.subrange(0, i + 1) == b@.subrange(0, i as int).push(b@[i as int]));
        i = i + 1;
    }
    assert(a@.subrange(0, a.len() as int) == a@);
    assert(b@.subrange(0, b.len() as int) == b@);
    true
}

/// Whether `a` holds the bytes of the string `s`.
pub fn equal_str(a: &[u8], s: &str) -> (r: bool)
    ensures
        r == (a@ == lit(s)),
{
    equal(a, s.as_bytes())
}

/// The index of the first `delim` in `s`, or the length of `s` if there is
/// none.
pub open spec fn first_index(s: Seq<u8>, delim: u8) -> int
    decreases s.len(),
{
    if s.len() == 0 {
        0
    } else if s[0] == delim {
        0
    } else {
        1 + first_index(s.skip(1), delim)
    }
}

/// What `first_index` returns: a position within bounds, with no `delim`
/// before it and, unless it is the length, `delim` at it.
pub proof fn lemma_first_index(s: Seq<u8>, delim: u8)
    ensures
        0 <= first_index(s, delim) <= s.len(),
        forall|i: int| 0 <= i < first_index(s, delim) ==> s[i] != delim,
        first_index(s, delim) < s.len() ==> s[first_index(s, delim)] == delim,
    decreases s.len(),
{
    if s.len() > 0 && s[0] != delim {
        let t = s.skip(1);
        lemma_first_index(t, delim);
        assert forall|i: int| 0 <= i < first_index(s, delim) implies s[i] != delim by {
            if i > 0 {
                assert(s[i] == t[i - 1]);
            }
        }
    }
}

/// A position with the properties of `first_index` is `first_index`.
pub proof fn lemma_first_index_is(s: Seq<u8>, delim: u8, k: int)
    requires
        0 <= k <= s.len(),
        forall|i: int| 0 <= i < k ==> s[i] != delim,
        k < s.len() ==> s[k] == delim,
    ensures
        first_index(s, delim) == k,
{
    lemma_first_index(s, delim);
    let f = first_index(s, delim);
    if f < k {
        assert(s[f] == delim);
    } else if k < f {
        assert(s[k] == delim);
    }
}

/// Whether `b` is one of `0-9`.
pub open spec fn is_digit(b: u8) -> bool {
    48 <= b <= 57
}

/// Whether every byte of `s` is a decimal digit.
pub open spec fn all_digits(s: Seq<u8>) -> bool {
    forall|i: int| 0 <= i < s.len() ==> is_digit(#[trigger] s[i])
}

/// The decimal notation of `n`, without leading zeros.
pub open spec fn decimal(n: nat) -> Seq<u8>
    decreases n,
{
    if n < 10 {
        seq![(48 + n) as u8]
    } else {
        decimal(n / 10).push((48 + n % 10) as u8)
    }
}

/// The number that a sequence of decimal digits denotes.
pub open spec fn digits_value(s: Seq<u8>) -> nat
    decreases s.len(),
{
    if s.len() == 0 {
        0
    } else {
        (digits_value(s.drop_last()) * 10 + (s.last() - 48)) as nat
    }
}

/// The number that `s` denotes: one or more decimal digits, and nothing
/// else. Leading zeros are allowed.
pub open spec fn parse_decimal(s: Seq<u8>) -> Option<nat> {
    if s.len() > 0 && all_digits(s) {
        Some(digits_value(s))
    } else {
        None
    }
}

/// The decimal notation is a nonempty run of digits that denotes the number.
pub proof fn lemma_decimal(n: nat)
    ensures
        decimal(n).len() > 0,
        all_digits(decimal(n)),
        digits_value(decimal(n)) == n,
        parse_decimal(decimal(n)) == Some(n),
    decreases n,
{
    if n < 10 {
        let s = decimal(n);
        assert(s.drop_last().len() == 0);
        assert(digits_value(s.drop_last()) == 0);
    } else {
        lemma_decimal(n / 10);
        let s = decimal(n);
        assert(s.drop_last() == decimal(n / 10));
    }
}

/// The decimal notation holds no NUL and no space.
pub proof fn lemma_decimal_no_delim(n: nat)
    ensures
        first_index(decimal(n), 0) == decimal(n).len(),
        first_index(decimal(n), 32) == decimal(n).len(),
{
    lemma_decimal(n);
    let s = decimal(n);
    assert forall|i: int| 0 <= i < s.len() implies s[i] != 0 && s[i] != 32 by {
        assert(is_digit(s[i]));
    }
    lemma_first_index_is(s, 0, s.len() as int);
    lemma_first_index_is(s, 32, s.len() as int);
}

/// A longer run of digits denotes no smaller a number.
pub proof fn lemma_digits_value_prefix(s: Seq<u8>, k: int)
    requires
        0 <= k <= s.len(),
        all_digits(s),
    ensures
        digits_value(s.subrange(0, k)) <= digits_value(s),
    decreases s.len(),
{
    if k < s.len() {
        let t = s.drop_last();
        assert(is_digit(s.last()));
        assert(all_digits(t));
        lemma_digits_value_prefix(t, k);
        assert(t.subrange(0, k) == s.subrange(0, k));
    } else {
        assert(s.subrange(0, k) == s);
    }
}

/// Appends the decimal notation of `n` to `out`.
pub fn append_decimal(out: &mut Vec<u8>, n: u64)
    ensures
        final(out)@ == old(out)@ + decimal(n as nat),
    decreases n,
{
    if n >= 10 {
        append_decimal(out, n / 10);
    }
    let digit: u8 = (n % 10) as u8;
    out.push(48 + digit);
    proof {
        if n >= 10 {
            assert(final(out)@ == old(out)@ + decimal(n as nat));
        } else {
            assert(final(out)@ == old(out)@ + decimal(n as nat));
        }
    }
}

/// Reads a decimal number that fits in `usize`: one or more digits.
pub fn read_decimal(s: &[u8]) -> (r: Option<usize>)
    ensures
        r == match parse_decimal(s@) {
            Some(v) => if v <= usize::MAX {
                Some(v as usize)
            } else {
                None
            },
            None => None,
        },
{
    if s.len() == 0 {
        return None;
    }
    let mut value: usize = 0;
    let mut i: usize = 0;
    while i < s.len()
        invariant
            i <= s.len(),
            all_digits(s@.subrange(0, i as int)),
            value == digits_value(s@.subrange(0, i as int)),
        decreases s.len() - i,
    {
        let b: u8 = s[i];
        if b < 48 || b > 57 {
            assert(!is_digit(s@[i as int]));
            return None;
        }
        let digit: usize = (b - 48) as usize;
        let ghost next = s@.subrange(0, i + 1);
        assert(next.drop_last() == s@.subrange(0, i as int));
        assert(next.last() == b);
        assert(all_digits(next)) by {
            assert forall|j: int| 0 <= j < next.len() implies is_digit(#[trigger] next[j]) by {
                if j < i {
                    assert(next[j] == s@.subrange(0, i as int)[j]);
                }
            }
        }
        if value > (usize::MAX - digit) / 10 {
            proof {
                assert(digits_value(next) == value * 10 + digit);
                assert(digits_value(next) > usize::MAX);
                if all_digits(s@) {
                    lemma_digits_value_prefix(s@, i + 1);
                }
            }
            return None;
        }
        value = value * 10 + digit;
        i = i + 1;
    }
    assert(s@.subrange(0, i as int) == s@);
    Some(value)
}

} // verus!
