use droidsdk::activity::{
    add_activities, filter_comments, get_global_activities, get_project_conf,
    is_activity_config_file, parse_env_dep_list, project_from_json, ConfigError,
};
use droidsdk::json::{has_long_fraction, JsonData};

const PROJECT: &str = r#"{
    // by the way, we support comments.
    "projectId": "API gateway",
    "activities": {
        "java7": {
            "kotlin": "1.3.60",
            "java": "11"
        },
        "java8": {
            "kotlin": "1.4.10",
            "java": "11"
        }
    }
}"#;

const GLOBAL: &str = r#"{
    "java7": {
        "projectDeps": {
            "API gateway": {
              "kotlin": "1.3.60",
              "java": "11"
            },
            "payment system": {
              "java": "7"
            }
        }
    },
    "java8": {
        "projectDeps": {
            "payment system": {
              "java": "8"
            }
        }
    }
}"#;

fn deps(d: &Vec<droidsdk::activity::EnvDependency>) -> Vec<(String, String)> {
    d.iter().map(|e| (e.candidate.clone(), e.version.clone())).collect()
}

fn pair(a: &str, b: &str) -> (String, String) {
    (a.to_string(), b.to_string())
}

#[test]
fn comment_lines_are_dropped() {
    let text = "{\n  // a comment\n\t//another\n  \"x\": 1 // not a comment line\n}".to_string();
    assert_eq!(filter_comments(text), "{\n  \"x\": 1 // not a comment line\n}");
    assert_eq!(filter_comments("no comments\nhere".to_string()), "no comments\nhere");
    assert_eq!(filter_comments("// only".to_string()), "");
}

#[test]
fn reading_a_project_configuration() {
    let p = get_project_conf(Some(PROJECT.to_string())).unwrap().unwrap();
    assert_eq!(p.id, "API gateway");
    assert_eq!(p.per_activity.len(), 2);
    assert_eq!(p.per_activity[0].0, "java7");
    assert_eq!(deps(&p.per_activity[0].1), vec![pair("kotlin", "1.3.60"), pair("java", "11")]);
    assert_eq!(p.per_activity[1].0, "java8");
    assert_eq!(deps(&p.per_activity[1].1), vec![pair("kotlin", "1.4.10"), pair("java", "11")]);
}

#[test]
fn project_configuration_errors() {
    assert!(matches!(get_project_conf(None), Ok(None)));
    assert!(matches!(get_project_conf(Some("{ nope".to_string())), Err(ConfigError::NotJson)));
    assert!(matches!(
        get_project_conf(Some("{\"activities\": {}}".to_string())),
        Err(ConfigError::MissingProjectId)
    ));
    assert!(matches!(
        get_project_conf(Some("{\"projectId\": 3}".to_string())),
        Err(ConfigError::MissingProjectId)
    ));
    assert!(matches!(
        get_project_conf(Some("{\"projectId\": \"p\", \"activities\": {\"a\": {\"java\": 11}}}".to_string())),
        Err(ConfigError::VersionNotText)
    ));
    // a missing id is reported before a bad version
    assert!(matches!(
        get_project_conf(Some("{\"activities\": {\"a\": {\"java\": 11}}}".to_string())),
        Err(ConfigError::MissingProjectId)
    ));
    let p = get_project_conf(Some("{\"projectId\": \"p\"}".to_string())).unwrap().unwrap();
    assert!(p.per_activity.is_empty());
}

#[test]
fn reading_global_activities() {
    let a = get_global_activities(&vec![GLOBAL.to_string()]).unwrap();
    assert_eq!(a.len(), 2);
    assert_eq!(a[0].0, "java7");
    assert_eq!(a[0].1.id, "java7");
    assert_eq!(a[0].1.per_project.len(), 2);
    assert_eq!(a[0].1.per_project[1].0, "payment system");
    assert_eq!(deps(&a[0].1.per_project[1].1), vec![pair("java", "7")]);
    assert_eq!(a[1].0, "java8");
}

#[test]
fn a_later_file_replaces_an_activity() {
    let later = "{\"java7\": {\"projectDeps\": {\"x\": {\"ant\": \"1\"}}}}".to_string();
    let a = get_global_activities(&vec![GLOBAL.to_string(), later]).unwrap();
    assert_eq!(a.len(), 2);
    assert_eq!(a[0].0, "java7");
    assert_eq!(a[0].1.per_project.len(), 1);
    assert_eq!(a[0].1.per_project[0].0, "x");
}

#[test]
fn global_activity_errors() {
    assert!(matches!(get_global_activities(&vec![GLOBAL.to_string(), "[".to_string()]), Err(ConfigError::NotJson)));
    let bad = "{\"a\": {\"projectDeps\": {\"p\": {\"java\": null}}}}".to_string();
    assert!(matches!(get_global_activities(&vec![bad]), Err(ConfigError::VersionNotText)));
    assert!(get_global_activities(&Vec::new()).unwrap().is_empty());
}

#[test]
fn dependency_lists() {
    let j = JsonData::Object(vec![
        ("java".to_string(), JsonData::Str("11".to_string())),
        ("ant".to_string(), JsonData::Str("1.10".to_string())),
    ]);
    assert_eq!(deps(&parse_env_dep_list(&j)), vec![pair("java", "11"), pair("ant", "1.10")]);
    assert!(parse_env_dep_list(&JsonData::Null).is_empty());
}

#[test]
fn configuration_file_names() {
    assert!(is_activity_config_file("work.jsonc"));
    assert!(is_activity_config_file("a.b.jsonc"));
    assert!(is_activity_config_file("work.json"));
    assert!(is_activity_config_file("a.json"));
    assert!(!is_activity_config_file(".json"));
    assert!(!is_activity_config_file("work.jsonl"));
    assert!(!is_activity_config_file(".jsonc"));
    assert!(!is_activity_config_file("jsonc"));
    assert!(!is_activity_config_file("work.jsonc.bak"));
}

#[test]
fn dropping_comments_twice_changes_nothing() {
    for t in [
        "",
        "// only a comment",
        "{\n  // id\n  \"projectId\": \"p\"\n}",
        "a\n\n   // b\nc\n",
        "//\n//\n",
    ] {
        let once = filter_comments(t.to_string());
        assert_eq!(filter_comments(once.clone()), once);
    }
}

fn text(x: &str) -> JsonData {
    JsonData::Str(x.to_string())
}

fn object(entries: Vec<(&str, JsonData)>) -> JsonData {
    JsonData::Object(entries.into_iter().map(|(k, v)| (k.to_string(), v)).collect())
}

#[test]
fn a_project_from_a_given_document() {
    let j = object(vec![
        ("projectId", text("shop")),
        ("activities", object(vec![("dev", object(vec![("java", text("17"))]))])),
    ]);
    let p = project_from_json(&j).unwrap();
    assert_eq!(p.id, "shop");
    assert_eq!(p.per_activity.len(), 1);
    assert_eq!(p.per_activity[0].0, "dev");
    assert_eq!(deps(&p.per_activity[0].1), vec![pair("java", "17")]);

    let no_id = object(vec![("activities", object(vec![]))]);
    assert!(matches!(project_from_json(&no_id), Err(ConfigError::MissingProjectId)));
    let bad_version = object(vec![
        ("projectId", text("shop")),
        ("activities", object(vec![("dev", object(vec![("java", JsonData::Number(true, 11, 0))]))])),
    ]);
    assert!(matches!(project_from_json(&bad_version), Err(ConfigError::VersionNotText)));
}

#[test]
fn activities_from_a_given_document() {
    let first = object(vec![(
        "dev",
        object(vec![("projectDeps", object(vec![("global", object(vec![("java", text("11"))]))]))]),
    )]);
    let mut acts = Vec::new();
    assert!(add_activities(&mut acts, &first).is_ok());
    assert_eq!(acts.len(), 1);
    assert_eq!(acts[0].0, "dev");
    assert_eq!(acts[0].1.id, "dev");
    assert_eq!(deps(&acts[0].1.per_project[0].1), vec![pair("java", "11")]);

    let replacing = object(vec![(
        "dev",
        object(vec![("projectDeps", object(vec![("global", object(vec![("java", text("17"))]))]))]),
    )]);
    assert!(add_activities(&mut acts, &replacing).is_ok());
    assert_eq!(acts.len(), 1);
    assert_eq!(deps(&acts[0].1.per_project[0].1), vec![pair("java", "17")]);

    let bad = object(vec![(
        "test",
        object(vec![("projectDeps", object(vec![("global", object(vec![("java", JsonData::Null)]))]))]),
    )]);
    assert!(matches!(add_activities(&mut acts, &bad), Err(ConfigError::VersionNotText)));
    assert_eq!(acts.len(), 1);
}

fn with_fraction(digits: usize) -> String {
    format!("{{\"projectId\": \"p\", \"x\": 0.{}}}", "0".repeat(digits))
}

#[test]
fn fractions_longer_than_the_parser_counts_are_refused() {
    assert!(!has_long_fraction("1.5"));
    assert!(has_long_fraction(&format!("0.{}", "0".repeat(32769))));
    assert!(!has_long_fraction(&format!("0.{}", "0".repeat(32768))));
    assert!(!has_long_fraction(&format!("0.{}x{}", "0".repeat(20000), "0".repeat(20000))));
    let p = get_project_conf(Some(with_fraction(32768))).unwrap().unwrap();
    assert_eq!(p.id, "p");
    assert!(matches!(get_project_conf(Some(with_fraction(32769))), Err(ConfigError::FractionTooLong)));
    let commented = format!("{{\"projectId\": \"p\"\n// 0.{}\n}}", "0".repeat(40000));
    assert!(get_project_conf(Some(commented)).unwrap().is_some());
    // a fraction whose digits stop fitting the mantissa is counted only in part
    assert!(!has_long_fraction(&format!("0.{}", "5".repeat(40000))));
    let fives = format!("{{\"a\": {{\"n\": 1.{}}}}}", "5".repeat(33000));
    assert!(get_global_activities(&vec![fives]).is_ok());
    let zeros = format!("{{\"a\": {{\"n\": 0.{}1}}}}", "0".repeat(33000));
    assert!(matches!(get_global_activities(&vec![zeros]), Err(ConfigError::FractionTooLong)));
}

#[test]
fn only_numbers_the_parser_would_overflow_on_are_refused() {
    let zeros = "0".repeat(32769);
    // inside a string the digits are text: the missing id is the error
    let in_string = format!("{{\"note\": \"0.{}\"}}", zeros);
    assert!(!has_long_fraction(&in_string));
    assert!(matches!(get_project_conf(Some(in_string)), Err(ConfigError::MissingProjectId)));
    let escaped_quote = format!("{{\"note\": \"a\\\" 0.{}\"}}", zeros);
    assert!(!has_long_fraction(&escaped_quote));
    // a non-zero integer part fills the mantissa after a few digits
    assert!(!has_long_fraction(&format!("[1.{}]", zeros)));
    assert!(has_long_fraction(&format!("[-0.{}]", zeros)));
    assert!(has_long_fraction(&format!("{{\"a\":\n\t0.{}}}", zeros)));
    // 32749 zeros, then 19 nines fit the mantissa and the twentieth does not
    let just_fits = format!("[0.{}{}]", "0".repeat(32749), "9".repeat(20));
    assert!(!has_long_fraction(&just_fits));
    // a twentieth significant digit is counted while the value fits: 10^19 does
    let counted = format!("[0.{}1{}]", "0".repeat(32749), "0".repeat(19));
    assert!(has_long_fraction(&counted));
}
