use droidsdk::matching::RegexMatches;
use droidsdk::sdkman_api::{
    candidates_from_matches, parse_candidates, parse_versions, parse_versions_java, versions_from_matches,
    versions_url,
};

const CANDIDATES: &str = "--------------------------------------------------------------------------------
Ant (1.10.8)                                              https://ant.apache.org/

Apache Ant is a Java library and command-line tool whose mission is to drive
processes described in build files as targets.

                                                              $ sdk install ant
--------------------------------------------------------------------------------
Gradle (7.0)                                                  https://gradle.org/

Gradle is a build tool.

                                                           $ sdk install gradle
--------------------------------------------------------------------------------
";

const JAVA: &str = "================================================================================
Available Java Versions
================================================================================
 Vendor        | Use | Version      | Dist    | Status     | Identifier
--------------------------------------------------------------------------------
 Corretto      |     | 21.0.1       | amzn    |            | 21.0.1-amzn
               |     | 17.0.9       | amzn    | installed  | 17.0.9-amzn
 Zulu          | >>> | 11.0.21      | zulu    | local only | 11.0.21-zulu
================================================================================
Omit Identifier to install default version 17.0.9-tem:
    $ sdk install java
Use TAB completion to discover available versions
    $ sdk install java 11.0.3.hs-adpt
================================================================================";

#[test]
fn reading_candidates() {
    let c = parse_candidates(CANDIDATES).unwrap();
    assert_eq!(c.len(), 2);
    assert_eq!(c[0].candidate_name, "ant");
    assert_eq!(c[0].readable_name, "Ant ");
    assert_eq!(c[0].version, "1.10.8");
    assert_eq!(c[0].homepage, "https://ant.apache.org/");
    assert_eq!(
        c[0].description,
        "Apache Ant is a Java library and command-line tool whose mission is to drive\nprocesses described in build files as targets."
    );
    assert_eq!(c[1].candidate_name, "gradle");
    assert_eq!(
        c[1].to_display_string(),
        "gradle -> Gradle  7.0 (https://gradle.org/)\nGradle is a build tool."
    );
    assert!(parse_candidates("nothing here").unwrap().is_empty());
}

#[test]
fn reading_versions() {
    let body = "================\n > * 7.0    6.8.3    6.5.1 \n   + 6.9    6.8 \n";
    let v = parse_versions(body).unwrap();
    let seen: Vec<(&str, bool, bool, bool)> =
        v.iter().map(|e| (e.version.as_str(), e.selected, e.installed, e.local_only)).collect();
    assert_eq!(
        seen,
        vec![
            ("6.5.1", false, false, false),
            ("6.8", false, false, false),
            ("6.8.3", false, false, false),
            ("6.9", false, false, true),
            ("7.0", true, true, false),
        ]
    );
    assert!(v.iter().all(|e| e.identifier == e.version));
}

#[test]
fn reading_java_versions() {
    let v = parse_versions_java(JAVA).unwrap();
    let seen: Vec<(&str, &str, bool, bool, bool)> = v
        .iter()
        .map(|e| (e.version.as_str(), e.identifier.as_str(), e.selected, e.installed, e.local_only))
        .collect();
    assert_eq!(
        seen,
        vec![
            ("11.0.21", "11.0.21-zulu", true, false, true),
            ("17.0.9", "17.0.9-amzn", false, true, false),
            ("21.0.1", "21.0.1-amzn", false, false, false),
        ]
    );
}

#[test]
fn java_tables_that_are_too_short() {
    assert!(parse_versions_java("a\nb\nc").is_none());
    assert!(parse_versions_java("1\n2\n3\n4\n5\n6\n7\n8").unwrap().is_empty());
    assert!(parse_versions_java("1\n2\n3\n4\n5\nrow | without\n7\n8\n9\n10\n11\n12").is_none());
}

#[test]
fn the_versions_address() {
    let installed = vec!["1.0".to_string(), "2.0".to_string()];
    assert_eq!(
        versions_url("gradle", "Linux64", "1.0", &installed),
        "https://api.sdkman.io/2/candidates/gradle/Linux64/versions/list?current=1.0&installed=1.0,2.0"
    );
}

fn group(x: &str) -> Option<String> {
    Some(x.to_string())
}

#[test]
fn candidates_from_given_matches() {
    let names = vec![
        None,
        group("readable_name"),
        group("version"),
        group("homepage"),
        group("desc"),
        group("name"),
    ];
    let whole = RegexMatches {
        group_names: names.clone(),
        matches: vec![vec![
            group("all of it"),
            group("Ant "),
            group("1.10"),
            group("https://ant.apache.org/"),
            group("A build tool."),
            group("ant"),
        ]],
    };
    let c = candidates_from_matches(&whole).unwrap();
    assert_eq!(c.len(), 1);
    assert_eq!(c[0].readable_name, "Ant ");
    assert_eq!(c[0].version, "1.10");
    assert_eq!(c[0].homepage, "https://ant.apache.org/");
    assert_eq!(c[0].description, "A build tool.");
    assert_eq!(c[0].candidate_name, "ant");

    let lacking = RegexMatches {
        group_names: names,
        matches: vec![vec![group("x"), None, group("1"), group("h"), group("d"), group("n")]],
    };
    assert!(candidates_from_matches(&lacking).is_none());
}

#[test]
fn versions_from_given_matches() {
    let names = vec![None, group("selected"), group("installed"), group("local"), group("version")];
    let m = RegexMatches {
        group_names: names.clone(),
        matches: vec![
            vec![group(" > * 7.0"), group(">"), group("*"), None, group("7.0")],
            vec![group("   + 6.9"), None, None, group("+"), group("6.9")],
        ],
    };
    let v = versions_from_matches(&m).unwrap();
    let seen: Vec<(&str, &str, bool, bool, bool)> = v
        .iter()
        .map(|e| (e.version.as_str(), e.identifier.as_str(), e.selected, e.installed, e.local_only))
        .collect();
    assert_eq!(seen, vec![("7.0", "7.0", true, true, false), ("6.9", "6.9", false, false, true)]);

    let lacking = RegexMatches {
        group_names: names,
        matches: vec![vec![group(" > "), group(">"), None, None, None]],
    };
    assert!(versions_from_matches(&lacking).is_none());
}
