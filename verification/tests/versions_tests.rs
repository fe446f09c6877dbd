use droidsdk::numbers::parse_i32;
use droidsdk::versions::{
    comp_versions, extract_leading_version_chunk, sort_versions, text_cmp, try_cmp_as_ints,
    SdkManCandidateVersion,
};
use std::cmp::Ordering;

fn s(x: &str) -> String {
    x.to_string()
}

fn entry(version: &str, identifier: &str) -> SdkManCandidateVersion {
    SdkManCandidateVersion {
        version: s(version),
        identifier: s(identifier),
        installed: false,
        local_only: false,
        selected: false,
    }
}

#[test]
fn reading_i32_like_std() {
    for t in ["0", "+5", "-5", "2147483647", "-2147483648", "007"] {
        assert_eq!(parse_i32(t), t.parse::<i32>().ok());
    }
    for t in ["", "+", "-", "2147483648", "-2147483649", "1a", " 1", "1.0", "99999999999"] {
        assert_eq!(parse_i32(t), None);
        assert!(t.parse::<i32>().is_err());
    }
}

#[test]
fn texts_compare_like_string_cmp() {
    for (a, b) in [("a", "b"), ("ab", "a"), ("", ""), ("é", "e"), ("10", "9"), ("", "x")] {
        assert_eq!(text_cmp(a, b), a.cmp(b));
    }
}

#[test]
fn leading_chunks() {
    assert_eq!(extract_leading_version_chunk("1.2.3"), (s("1"), s("2.3")));
    assert_eq!(extract_leading_version_chunk("abc"), (s("abc"), s("")));
    assert_eq!(extract_leading_version_chunk(""), (s(""), s("")));
    assert_eq!(extract_leading_version_chunk(".5"), (s(""), s("5")));
    // the dot is found by its byte offset: two bytes for 'é'
    assert_eq!(extract_leading_version_chunk("é.1"), (s("é."), s("")));
}

#[test]
fn chunks_compare_as_numbers_when_both_are() {
    assert_eq!(try_cmp_as_ints(s("10"), s("9")), Ordering::Greater);
    assert_eq!(try_cmp_as_ints(s("+5"), s("5")), Ordering::Equal);
    assert_eq!(try_cmp_as_ints(s("-1"), s("1")), Ordering::Less);
    assert_eq!(try_cmp_as_ints(s("10a"), s("9")), Ordering::Less);
    assert_eq!(try_cmp_as_ints(s("2147483648"), s("1")), Ordering::Greater);
}

#[test]
fn versions_compare_chunk_by_chunk() {
    assert_eq!(comp_versions(s("1.10"), s("1.9")), Ordering::Greater);
    assert_eq!(comp_versions(s("11.0.2"), s("11.0.10")), Ordering::Less);
    assert_eq!(comp_versions(s("8.0.265-zulu"), s("8.0.265-open")), Ordering::Greater);
    assert_eq!(comp_versions(s(""), s("1")), Ordering::Less);
    assert_eq!(comp_versions(s("1.0"), s("1.0")), Ordering::Equal);
    assert_eq!(comp_versions(s("1"), s("1.0")), Ordering::Less);
}

#[test]
fn swapping_versions_reverses_their_order() {
    let xs = ["1.10", "1.9", "11.0.2", "", "8.0.265-zulu", "1.a", "+1", "01.2"];
    for a in xs {
        for b in xs {
            assert_eq!(comp_versions(s(a), s(b)), comp_versions(s(b), s(a)).reverse());
        }
    }
}

#[test]
fn sorting_by_text_is_stable() {
    let v = vec![entry("6.8", "a"), entry("6.10", "b"), entry("6.8", "c"), entry("5", "d")];
    let r = sort_versions(v, false);
    let ids: Vec<&str> = r.iter().map(|e| e.identifier.as_str()).collect();
    assert_eq!(ids, vec!["d", "b", "a", "c"]);
}

#[test]
fn sorting_numerically() {
    let v = vec![entry("17.0.9", "x"), entry("11.0.21", "y"), entry("8", "z"), entry("17.0.10", "w")];
    let r = sort_versions(v, true);
    let ids: Vec<&str> = r.iter().map(|e| e.identifier.as_str()).collect();
    assert_eq!(ids, vec!["z", "y", "x", "w"]);
}

#[test]
fn showing_a_version() {
    let mut e = entry("7.0", "7.0");
    e.installed = true;
    e.selected = true;
    assert_eq!(e.to_display_string(), "[7.0] -> v7.0 installed  selected");
}

#[test]
fn every_version_equals_itself() {
    for v in ["", "1", "1.2.3", "11.0.2-open", "8.0.265.j9-adpt", "x..y", "2147483648.1"] {
        assert_eq!(comp_versions(s(v), s(v)), Ordering::Equal);
    }
}

#[test]
fn sorting_numerically_keeps_level_versions_in_order() {
    // "1.0", "1.00" and "01.0" compare level: they keep the order they came in
    let v = vec![entry("1.00", "a"), entry("2", "b"), entry("1.0", "c"), entry("01.0", "d")];
    let r = sort_versions(v, true);
    let ids: Vec<&str> = r.iter().map(|e| e.identifier.as_str()).collect();
    assert_eq!(ids, vec!["a", "c", "d", "b"]);
    let v = vec![entry("01.0", "d"), entry("1.0", "c"), entry("1.00", "a")];
    let r = sort_versions(v, true);
    let ids: Vec<&str> = r.iter().map(|e| e.identifier.as_str()).collect();
    assert_eq!(ids, vec!["d", "c", "a"]);
}
