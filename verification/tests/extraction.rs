use dyndns::extract::extract_candidate;
use dyndns::ip::{parse_ipv4, Ipv4};

fn ip(a: u8, b: u8, c: u8, d: u8) -> Ipv4 {
    Ipv4 { a, b, c, d }
}

#[test]
fn extracts_bare_dotted_quad() {
    assert_eq!(extract_candidate(b"93.184.216.34\n"), Some(ip(93, 184, 216, 34)));
}

#[test]
fn extracts_from_surrounding_text() {
    let body = b"<html><body>Current IP Address: 93.184.216.34</body></html>";
    assert_eq!(extract_candidate(body), Some(ip(93, 184, 216, 34)));
}

#[test]
fn extracts_from_json_body() {
    let body = b"{\"origin\": \"198.51.100.3\"}";
    assert_eq!(extract_candidate(body), Some(ip(198, 51, 100, 3)));
}

#[test]
fn no_candidate_in_plain_text() {
    assert_eq!(extract_candidate(b"no address here"), None);
}

#[test]
fn no_candidate_in_empty_body() {
    assert_eq!(extract_candidate(b""), None);
}

#[test]
fn word_prefix_blocks_match() {
    // The quad must start on a word boundary, as under a regex \b.
    assert_eq!(extract_candidate(b"x1.2.3.4"), None);
}

#[test]
fn word_suffix_blocks_match() {
    assert_eq!(extract_candidate(b"1.2.3.4a"), None);
}

#[test]
fn long_run_is_skipped_but_later_match_found() {
    // "1234" cannot open a group, yet "5.6.7.8" stands on a boundary after the dot.
    assert_eq!(extract_candidate(b"1234.5.6.7.8"), Some(ip(5, 6, 7, 8)));
}

#[test]
fn first_match_wins() {
    assert_eq!(extract_candidate(b"1.2.3.4 or 5.6.7.8"), Some(ip(1, 2, 3, 4)));
}

#[test]
fn invalid_first_match_yields_nothing() {
    // Only the first matching substring counts; its octet 300 is out of range.
    assert_eq!(extract_candidate(b"300.1.2.3 then 9.8.7.6"), None);
}

#[test]
fn leading_zero_octet_rejected() {
    assert_eq!(extract_candidate(b"01.2.3.4"), None);
}

#[test]
fn octet_over_255_rejected() {
    assert_eq!(extract_candidate(b"999.1.2.3"), None);
}

#[test]
fn extracts_highest_octets() {
    assert_eq!(extract_candidate(b"255.255.255.255"), Some(ip(255, 255, 255, 255)));
}

#[test]
fn extracts_all_zero_address() {
    assert_eq!(extract_candidate(b"0.0.0.0"), Some(ip(0, 0, 0, 0)));
}

#[test]
fn extraction_is_idempotent_on_same_body() {
    let body: &[u8] = b"fetched 198.51.100.3 at noon";
    let first = extract_candidate(body);
    let second = extract_candidate(body);
    assert_eq!(first, second);
    assert_eq!(first, Some(ip(198, 51, 100, 3)));
}

#[test]
fn parses_exact_quad() {
    assert_eq!(parse_ipv4(b"1.2.3.4"), Some(ip(1, 2, 3, 4)));
}

#[test]
fn parse_rejects_surrounding_text() {
    assert_eq!(parse_ipv4(b"1.2.3.4 "), None);
    assert_eq!(parse_ipv4(b" 1.2.3.4"), None);
}

#[test]
fn parse_rejects_leading_zero() {
    assert_eq!(parse_ipv4(b"01.1.1.1"), None);
    assert_eq!(parse_ipv4(b"0.1.1.1"), Some(ip(0, 1, 1, 1)));
}

#[test]
fn parse_rejects_out_of_range_octet() {
    assert_eq!(parse_ipv4(b"256.1.1.1"), None);
    assert_eq!(parse_ipv4(b"255.1.1.1"), Some(ip(255, 1, 1, 1)));
}

#[test]
fn parse_rejects_short_quads() {
    assert_eq!(parse_ipv4(b"1.2.3"), None);
    assert_eq!(parse_ipv4(b""), None);
    assert_eq!(parse_ipv4(b"1.2.3."), None);
}
