//! The IPv4 address type and the verified parse of a dotted-quad numeral.

use vstd::prelude::*;

verus! {

/// An IPv4 address held as four plain octets.
#[derive(Clone, Copy, Debug, PartialEq, Eq, Structural, Hash)]
pub struct Ipv4 {
    pub a: u8,
    pub b: u8,
    pub c: u8,
    pub d: u8,
}

/// An ASCII decimal digit.
pub open spec fn is_digit(b: u8) -> bool {
    48 <= b <= 57
}

/// An ASCII letter, digit or underscore: the bytes that count as part of a
/// word for the word-boundary rule of the extraction scan.
pub open spec fn is_word_byte(b: u8) -> bool {
    is_digit(b) || (65 <= b <= 90) || (97 <= b <= 122) || b == 95
}

/// The byte is an ASCII dot and lies inside `s`.
pub open spec fn dot_at(s: Seq<u8>, j: int) -> bool {
    0 <= j < s.len() && s[j] == 46
}

/// Numeric value of an ASCII digit.
pub open spec fn digit_val(b: u8) -> int {
    b - 48
}

/// Length of the run of ASCII digits in `s` that starts at `i`; zero when `i`
/// lies outside `s` or `s[i]` is no digit.
pub open spec fn digit_run(s: Seq<u8>, i: int) -> int
    decreases s.len() - i,
{
    if 0 <= i < s.len() && is_digit(s[i]) {
        1 + digit_run(s, i + 1)
    } else {
        0
    }
}

/// Value of the decimal numeral written by the `l` bytes of `s` starting at `i`.
pub open spec fn dec_value(s: Seq<u8>, i: int, l: int) -> int
    decreases l,
{
    if l <= 0 {
        0
    } else {
        dec_value(s, i, l - 1) * 10 + digit_val(s[i + l - 1])
    }
}

/// The `l` bytes of `s` at `i` write a valid IPv4 octet: the run of one to
/// three digits there, with no leading zero unless the octet is exactly "0",
/// and a value of at most 255.
pub open spec fn octet_ok(s: Seq<u8>, i: int, l: int) -> bool {
    &&& 1 <= l <= 3
    &&& l == 1 || s[i] != 48
    &&& dec_value(s, i, l) <= 255
}

/// The whole of `s` is a dotted-quad numeral with four valid octets; the
/// parsed address when it is.
pub open spec fn spec_parse_quad(s: Seq<u8>) -> Option<Ipv4> {
    let l1 = digit_run(s, 0);
    let l2 = digit_run(s, l1 + 1);
    let l3 = digit_run(s, l1 + l2 + 2);
    let l4 = digit_run(s, l1 + l2 + l3 + 3);
    if s.len() == l1 + l2 + l3 + l4 + 3 && dot_at(s, l1) && dot_at(s, l1 + l2 + 1) && dot_at(
        s,
        l1 + l2 + l3 + 2,
    ) && octet_ok(s, 0, l1) && octet_ok(s, l1 + 1, l2) && octet_ok(s, l1 + l2 + 2, l3) && octet_ok(
        s,
        l1 + l2 + l3 + 3,
        l4,
    ) {
        Some(
            Ipv4 {
                a: dec_value(s, 0, l1) as u8,
                b: dec_value(s, l1 + 1, l2) as u8,
                c: dec_value(s, l1 + l2 + 2, l3) as u8,
                d: dec_value(s, l1 + l2 + l3 + 3, l4) as u8,
            },
        )
    } else {
        None
    }
}

/// The digit run starting at `i` stays inside `s`, consists of digits, and is
/// maximal.
pub proof fn lemma_digit_run(s: Seq<u8>, i: int)
    requires
        0 <= i <= s.len(),
    ensures
        0 <= digit_run(s, i),
        i + digit_run(s, i) <= s.len(),
        forall|k: int| i <= k < i + digit_run(s, i) ==> is_digit(s[k]),
        i + digit_run(s, i) < s.len() ==> !is_digit(s[i + digit_run(s, i)]),
    decreases s.len() - i,
{
    if 0 <= i < s.len() && is_digit(s[i]) {
        lemma_digit_run(s, i + 1);
    }
}

/// A digit run that stays inside the window `[i, e)` of `s` reads the same
/// from the window as from `s` itself.
pub(crate) proof fn lemma_digit_run_subrange(s: Seq<u8>, i: int, e: int, k: int)
    requires
        0 <= i,
        0 <= k,
        i + k <= e <= s.len(),
        digit_run(s, i + k) <= e - (i + k),
    ensures
        digit_run(s.subrange(i, e), k) == digit_run(s, i + k),
    decreases e - (i + k),
{
    let sub = s.subrange(i, e);
    lemma_digit_run(s, i + k);
    if i + k < e {
        assert(sub[k] == s[i + k]);
        if is_digit(s[i + k]) {
            lemma_digit_run_subrange(s, i, e, k + 1);
        }
    }
}

/// A numeral that stays inside the window `[i, e)` of `s` has the same value
/// read from the window as from `s` itself.
pub(crate) proof fn lemma_dec_value_subrange(s: Seq<u8>, i: int, e: int, p: int, l: int)
    requires
        0 <= i,
        0 <= p,
        0 <= l,
        i + p + l <= e <= s.len(),
    ensures
        dec_value(s.subrange(i, e), p, l) == dec_value(s, i + p, l),
    decreases l,
{
    if l > 0 {
        lemma_dec_value_subrange(s, i, e, p, l - 1);
        assert(s.subrange(i, e)[p + l - 1] == s[i + p + l - 1]);
    }
}

/// Exec test for an ASCII digit.
#[verifier::when_used_as_spec(is_digit)]
pub fn is_digit_byte(b: u8) -> (r: bool)
    ensures
        r == is_digit(b),
{
    48 <= b && b <= 57
}

/// Exec test for a word byte.
#[verifier::when_used_as_spec(is_word_byte)]
pub fn is_word_byte_exec(b: u8) -> (r: bool)
    ensures
        r == is_word_byte(b),
{
    (48 <= b && b <= 57) || (65 <= b && b <= 90) || (97 <= b && b <= 122) || b == 95
}

/// Length of the digit run of `s` starting at `i`.
pub fn run_len(s: &[u8], i: usize) -> (l: usize)
    requires
        i <= s@.len(),
    ensures
        l == digit_run(s@, i as int),
        i + l <= s@.len(),
        forall|k: int| i <= k < i + l ==> is_digit(s@[k]),
{
    let mut j: usize = i;
    while j < s.len() && is_digit_byte(s[j])
        invariant
            i <= j <= s@.len(),
            digit_run(s@, i as int) == (j - i) + digit_run(s@, j as int),
            forall|k: int| i <= k < j ==> is_digit(s@[k]),
        decreases s@.len() - j,
    {
        j = j + 1;
    }
    proof {
        lemma_digit_run(s@, j as int);
    }
    j - i
}

/// Value of the `l`-digit numeral at `i`; the caller has checked that the
/// bytes are digits and that the run is no longer than three.
pub(crate) fn numeral_value(s: &[u8], i: usize, l: usize) -> (v: u16)
    requires
        i + l <= s@.len(),
        1 <= l <= 3,
        forall|k: int| i <= k < i + l ==> is_digit(s@[k]),
    ensures
        v == dec_value(s@, i as int, l as int),
        v <= 999,
{
    proof {
        assert(dec_value(s@, i as int, 0) == 0);
    }
    let mut v: u16 = (s[i] - 48) as u16;
    assert(v == dec_value(s@, i as int, 1));
    if l >= 2 {
        v = v * 10 + (s[i + 1] - 48) as u16;
        assert(v == dec_value(s@, i as int, 2));
    }
    if l == 3 {
        v = v * 10 + (s[i + 2] - 48) as u16;
        assert(v == dec_value(s@, i as int, 3));
    }
    v
}

/// Parse the whole of `s` as a dotted-quad IPv4 numeral, exactly when
/// `spec_parse_quad` accepts it.
pub fn parse_ipv4(s: &[u8]) -> (r: Option<Ipv4>)
    ensures
        r == spec_parse_quad(s@),
{
    let l1 = run_len(s, 0);
    if l1 < 1 || l1 > 3 {
        return None;
    }
    if l1 >= s.len() || s[l1] != 46 {
        return None;
    }
    let i2 = l1 + 1;
    let l2 = run_len(s, i2);
    if l2 < 1 || l2 > 3 {
        return None;
    }
    if i2 + l2 >= s.len() || s[i2 + l2] != 46 {
        return None;
    }
    let i3 = i2 + l2 + 1;
    let l3 = run_len(s, i3);
    if l3 < 1 || l3 > 3 {
        return None;
    }
    if i3 + l3 >= s.len() || s[i3 + l3] != 46 {
        return None;
    }
    let i4 = i3 + l3 + 1;
    let l4 = run_len(s, i4);
    if l4 < 1 || l4 > 3 {
        return None;
    }
    if i4 + l4 != s.len() {
        return None;
    }
    let v1 = numeral_value(s, 0, l1);
    let v2 = numeral_value(s, i2, l2);
    let v3 = numeral_value(s, i3, l3);
    let v4 = numeral_value(s, i4, l4);
    if (l1 > 1 && s[0] == 48) || v1 > 255 {
        return None;
    }
    if (l2 > 1 && s[i2] == 48) || v2 > 255 {
        return None;
    }
    if (l3 > 1 && s[i3] == 48) || v3 > 255 {
        return None;
    }
    if (l4 > 1 && s[i4] == 48) || v4 > 255 {
        return None;
    }
    Some(Ipv4 { a: v1 as u8, b: v2 as u8, c: v3 as u8, d: v4 as u8 })
}

} // verus!
