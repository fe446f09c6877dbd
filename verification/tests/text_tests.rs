use droidsdk::text::{ends_with, join_strs, split_str, starts_with, str_eq, trim, trim_start};

fn strings(v: &[&str]) -> Vec<String> {
    v.iter().map(|s| s.to_string()).collect()
}

#[test]
fn split_keeps_empty_pieces() {
    assert_eq!(split_str("a::b:", ':'), strings(&["a", "", "b", ""]));
    assert_eq!(split_str("", ':'), strings(&[""]));
    assert_eq!(split_str("abc", ':'), strings(&["abc"]));
}

#[test]
fn join_then_split_round_trip() {
    let parts = strings(&["/usr/bin", "", "/bin"]);
    let joined = join_strs(&parts, ':');
    assert_eq!(joined, "/usr/bin::/bin");
    assert_eq!(split_str(&joined, ':'), parts);
    assert_eq!(join_strs(&Vec::new(), ':'), "");
}

#[test]
fn prefixes_and_suffixes() {
    assert!(starts_with("/home/u/.droidsdk/x", "/home/u/.droidsdk"));
    assert!(starts_with("abc", ""));
    assert!(!starts_with("ab", "abc"));
    assert!(ends_with("jdk.tar.gz", ".tar.gz"));
    assert!(!ends_with("jdk.zip", ".tar.gz"));
    assert!(str_eq("é", "é"));
    assert!(!str_eq("a", "b"));
}

#[test]
fn trimming_white_space() {
    assert_eq!(trim_start("  \t// x "), "// x ");
    assert_eq!(trim("\u{a0} local only \n"), "local only");
    assert_eq!(trim("   "), "");
    assert_eq!(trim("x"), "x");
}
