//! Extraction of the first dotted-quad candidate from a response body.
//!
//! A source's response is opaque text; the candidate is the first substring
//! that has the shape of an unsigned dotted quad (one to three digits, a dot,
//! repeated three more times) and stands on word boundaries. Only that first
//! match is considered: when its octets are out of range or carry leading
//! zeros, the body yields no candidate at all.

use vstd::prelude::*;

use crate::ip::{
    digit_run, dec_value, dot_at, is_word_byte, is_word_byte_exec, lemma_dec_value_subrange,
    lemma_digit_run, lemma_digit_run_subrange, numeral_value, octet_ok, run_len, spec_parse_quad,
    Ipv4,
};

verus! {

/// A word boundary precedes position `i`: `i` opens `s` or follows a
/// non-word byte.
pub open spec fn boundary_before(s: Seq<u8>, i: int) -> bool {
    i == 0 || !is_word_byte(s[i - 1])
}

/// Position `j` holds a word byte of `s`.
pub open spec fn word_at(s: Seq<u8>, j: int) -> bool {
    0 <= j < s.len() && is_word_byte(s[j])
}

/// End position of a dotted-quad shape starting at `i`: four runs of one to
/// three digits separated by dots, with no word byte just after. `None` when
/// no such shape starts at `i`.
pub open spec fn match_end_at(s: Seq<u8>, i: int) -> Option<int> {
    let l1 = digit_run(s, i);
    let l2 = digit_run(s, i + l1 + 1);
    let l3 = digit_run(s, i + l1 + l2 + 2);
    let l4 = digit_run(s, i + l1 + l2 + l3 + 3);
    if 1 <= l1 <= 3 && dot_at(s, i + l1) && 1 <= l2 <= 3 && dot_at(s, i + l1 + l2 + 1) && 1 <= l3
        <= 3 && dot_at(s, i + l1 + l2 + l3 + 2) && 1 <= l4 <= 3 && !word_at(
        s,
        i + l1 + l2 + l3 + l4 + 3,
    ) {
        Some(i + l1 + l2 + l3 + l4 + 3)
    } else {
        None
    }
}

/// A word-bounded dotted-quad shape starts at `i`.
pub open spec fn match_at(s: Seq<u8>, i: int) -> Option<int> {
    if boundary_before(s, i) {
        match_end_at(s, i)
    } else {
        None
    }
}

/// Start of the leftmost match at or after position `i`.
pub open spec fn first_match_from(s: Seq<u8>, i: int) -> Option<int>
    decreases s.len() - i when 0 <= i <= s.len()
{
    if i >= s.len() {
        None
    } else if match_at(s, i) is Some {
        Some(i)
    } else {
        first_match_from(s, i + 1)
    }
}

/// The candidate written at position `i`: the four octet values of the match
/// there, provided every octet is valid (no leading zero, value at most 255).
pub open spec fn candidate_at(s: Seq<u8>, i: int) -> Option<Ipv4> {
    let l1 = digit_run(s, i);
    let l2 = digit_run(s, i + l1 + 1);
    let l3 = digit_run(s, i + l1 + l2 + 2);
    let l4 = digit_run(s, i + l1 + l2 + l3 + 3);
    if octet_ok(s, i, l1) && octet_ok(s, i + l1 + 1, l2) && octet_ok(s, i + l1 + l2 + 2, l3)
        && octet_ok(s, i + l1 + l2 + l3 + 3, l4) {
        Some(
            Ipv4 {
                a: dec_value(s, i, l1) as u8,
                b: dec_value(s, i + l1 + 1, l2) as u8,
                c: dec_value(s, i + l1 + l2 + 2, l3) as u8,
                d: dec_value(s, i + l1 + l2 + l3 + 3, l4) as u8,
            },
        )
    } else {
        None
    }
}

/// The candidate a whole response body yields: the parse of the leftmost
/// word-bounded dotted-quad shape, or nothing when there is no such shape or
/// its octets are invalid.
pub open spec fn body_candidate(s: Seq<u8>) -> Option<Ipv4> {
    match first_match_from(s, 0) {
        Some(i) => candidate_at(s, i),
        None => None,
    }
}

/// Whether a word-bounded dotted-quad shape starts at `i`, and where it ends.
fn try_match_at(s: &[u8], i: usize) -> (r: Option<usize>)
    requires
        i <= s@.len(),
    ensures
        r is None <==> match_at(s@, i as int) is None,
        r matches Some(e) ==> match_at(s@, i as int) == Some(e as int),
{
    if i > 0 && is_word_byte_exec(s[i - 1]) {
        return None;
    }
    let l1 = run_len(s, i);
    if l1 < 1 || l1 > 3 {
        return None;
    }
    if i + l1 >= s.len() || s[i + l1] != 46 {
        return None;
    }
    let p2 = i + l1 + 1;
    let l2 = run_len(s, p2);
    if l2 < 1 || l2 > 3 {
        return None;
    }
    if p2 + l2 >= s.len() || s[p2 + l2] != 46 {
        return None;
    }
    let p3 = p2 + l2 + 1;
    let l3 = run_len(s, p3);
    if l3 < 1 || l3 > 3 {
        return None;
    }
    if p3 + l3 >= s.len() || s[p3 + l3] != 46 {
        return None;
    }
    let p4 = p3 + l3 + 1;
    let l4 = run_len(s, p4);
    if l4 < 1 || l4 > 3 {
        return None;
    }
    let end = p4 + l4;
    if end < s.len() && is_word_byte_exec(s[end]) {
        return None;
    }
    Some(end)
}

/// The candidate of the match that starts at `i`.
fn parse_at(s: &[u8], i: usize) -> (r: Option<Ipv4>)
    requires
        i <= s@.len(),
        match_at(s@, i as int) is Some,
    ensures
        r == candidate_at(s@, i as int),
{
    let n = s.len();
    let l1 = run_len(s, i);
    proof {
        assert(match_end_at(s@, i as int) is Some);
        assert(dot_at(s@, i + l1));
    }
    let p2 = i + l1 + 1;
    let l2 = run_len(s, p2);
    proof {
        assert(dot_at(s@, p2 + l2));
    }
    let p3 = p2 + l2 + 1;
    let l3 = run_len(s, p3);
    proof {
        assert(dot_at(s@, p3 + l3));
    }
    let p4 = p3 + l3 + 1;
    let l4 = run_len(s, p4);
    let v1 = numeral_value(s, i, l1);
    if (l1 > 1 && s[i] == 48) || v1 > 255 {
        return None;
    }
    let v2 = numeral_value(s, p2, l2);
    if (l2 > 1 && s[p2] == 48) || v2 > 255 {
        return None;
    }
    let v3 = numeral_value(s, p3, l3);
    if (l3 > 1 && s[p3] == 48) || v3 > 255 {
        return None;
    }
    let v4 = numeral_value(s, p4, l4);
    if (l4 > 1 && s[p4] == 48) || v4 > 255 {
        return None;
    }
    Some(Ipv4 { a: v1 as u8, b: v2 as u8, c: v3 as u8, d: v4 as u8 })
}

/// Scan a response body for its candidate address: the parse of the first
/// word-bounded dotted-quad substring, if any.
pub fn extract_candidate(s: &[u8]) -> (r: Option<Ipv4>)
    ensures
        r == body_candidate(s@),
{
    let mut i: usize = 0;
    while i < s.len()
        invariant
            i <= s@.len(),
            first_match_from(s@, 0) == first_match_from(s@, i as int),
        decreases s@.len() - i,
    {
        match try_match_at(s, i) {
            Some(_end) => {
                return parse_at(s, i);
            },
            None => {
                i = i + 1;
            },
        }
    }
    None
}

/// The candidate at a match is exactly the dotted-quad parse of the matched
/// substring: scanning and then parsing in place agrees with cutting the
/// match out and parsing it whole.
pub proof fn lemma_candidate_is_parse_of_match(s: Seq<u8>, i: int)
    requires
        0 <= i,
        match_at(s, i) is Some,
    ensures
        candidate_at(s, i) == spec_parse_quad(s.subrange(i, match_at(s, i)->Some_0)),
{
    let e = match_at(s, i)->Some_0;
    let sub = s.subrange(i, e);
    let l1 = digit_run(s, i);
    let l2 = digit_run(s, i + l1 + 1);
    let l3 = digit_run(s, i + l1 + l2 + 2);
    let l4 = digit_run(s, i + l1 + l2 + l3 + 3);
    assert(e == i + l1 + l2 + l3 + l4 + 3);
    lemma_digit_run(s, i + l1 + l2 + l3 + 3);
    lemma_digit_run_subrange(s, i, e, 0);
    lemma_digit_run_subrange(s, i, e, l1 + 1);
    lemma_digit_run_subrange(s, i, e, l1 + l2 + 2);
    lemma_digit_run_subrange(s, i, e, l1 + l2 + l3 + 3);
    assert(sub[l1] == s[i + l1]);
    assert(sub[l1 + l2 + 1] == s[i + l1 + l2 + 1]);
    assert(sub[l1 + l2 + l3 + 2] == s[i + l1 + l2 + l3 + 2]);
    assert(sub[0] == s[i]);
    assert(sub[l1 + 1] == s[i + l1 + 1]);
    assert(sub[l1 + l2 + 2] == s[i + l1 + l2 + 2]);
    assert(sub[l1 + l2 + l3 + 3] == s[i + l1 + l2 + l3 + 3]);
    lemma_dec_value_subrange(s, i, e, 0, l1);
    lemma_dec_value_subrange(s, i, e, l1 + 1, l2);
    lemma_dec_value_subrange(s, i, e, l1 + l2 + 2, l3);
    lemma_dec_value_subrange(s, i, e, l1 + l2 + l3 + 3, l4);
}

/// Extraction is a pure function of the body: equal bodies always yield
/// equal candidates.
pub proof fn lemma_extraction_deterministic(b1: Seq<u8>, b2: Seq<u8>)
    requires
        b1 == b2,
    ensures
        body_candidate(b1) == body_candidate(b2),
{
}

} // verus!
