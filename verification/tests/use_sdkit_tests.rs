use droidsdk::filesystem::{get_workdir_subpath, join_path, Layout};
use droidsdk::use_sdkit::{
    append_to_env_path, clear_path, partial_sdkit_resolve, partial_sdkit_version_resolve,
    remove_entries_with_prefix, remove_sdkit_from_path, sdkit_dir, set_sdkit_as_current,
    undo_set_sdkit_as_current, Installed, ResolveTarget,
};

fn layout() -> Layout {
    Layout { workdir: "/home/u/.droidsdk".to_string(), dir_separator: '/', path_separator: ':' }
}

fn installed() -> Installed {
    let mut i = Installed::new();
    i.add("java".to_string(), vec!["11.0.2-zulu".to_string(), "8.0.265-open".to_string()]);
    i.add("kotlin".to_string(), vec!["1.3.60".to_string(), "1.4.10".to_string()]);
    i.add("javafx".to_string(), vec!["17".to_string()]);
    i
}

#[test]
fn paths_are_joined_like_path_join() {
    assert_eq!(join_path("/a", "b", '/'), "/a/b");
    assert_eq!(join_path("/a/", "b", '/'), "/a/b");
    assert_eq!(join_path("", "b", '/'), "b");
    assert_eq!(join_path("/a", "/b", '/'), "/b");
    assert_eq!(join_path("/a", "", '/'), "/a/");
    assert_eq!(get_workdir_subpath(&layout(), "archives"), "/home/u/.droidsdk/archives");
    assert_eq!(sdkit_dir(&layout(), "java"), "/home/u/.droidsdk/candidates/java");
}

#[test]
fn removing_an_sdkit_from_path() {
    let path = "/home/u/.droidsdk/candidates/java/11/bin:/usr/bin:/home/u/.droidsdk/candidates/kotlin/1/bin";
    let (p, n) = remove_sdkit_from_path(&layout(), "java", path);
    assert_eq!(p, "/usr/bin:/home/u/.droidsdk/candidates/kotlin/1/bin");
    assert_eq!(n, 1);
    let (q, m) = remove_sdkit_from_path(&layout(), "java", &p);
    assert_eq!(q, p);
    assert_eq!(m, 0);
}

#[test]
fn removing_entries_counts_them() {
    let (p, n) = remove_entries_with_prefix("/x/1:/y:/x/2", "/x", ':');
    assert_eq!(p, "/y");
    assert_eq!(n, 2);
    let (p, n) = remove_entries_with_prefix("/x/1", "/x", ':');
    assert_eq!(p, "");
    assert_eq!(n, 1);
}

#[test]
fn appending_puts_the_entry_first() {
    assert_eq!(append_to_env_path("/new/bin", "/usr/bin", ':'), "/new/bin:/usr/bin");
    assert_eq!(append_to_env_path("/new/bin", "", ':'), "/new/bin:");
}

#[test]
fn clearing_removes_every_workdir_entry() {
    let c = clear_path(&layout(), "/home/u/.droidsdk/selected/x/bin:/usr/bin:/home/u/.droidsdk/candidates/j/bin");
    assert_eq!(c.backup, "/home/u/.droidsdk/selected/x/bin:/usr/bin:/home/u/.droidsdk/candidates/j/bin");
    assert_eq!(c.new_path, "/usr/bin");
    assert_eq!(c.removed, 2);
}

#[test]
fn partial_names_resolve_to_the_only_match() {
    let i = installed();
    assert_eq!(partial_sdkit_resolve(&i, "kot").ok(), Some("kotlin".to_string()));
    let e = partial_sdkit_resolve(&i, "ja").err().unwrap();
    assert_eq!(e.target, ResolveTarget::Candidate);
    assert_eq!(e.partial, "ja");
    assert_eq!(e.matches, vec!["java".to_string(), "javafx".to_string()]);
    // the full name is ambiguous as well, since "javafx" starts with it
    assert!(partial_sdkit_resolve(&i, "java").is_err());
    let e = partial_sdkit_resolve(&i, "scala").err().unwrap();
    assert!(e.matches.is_empty());
    assert_eq!(partial_sdkit_version_resolve(&i, "java", "8").ok(), Some("8.0.265-open".to_string()));
    let e = partial_sdkit_version_resolve(&i, "java", "9").err().unwrap();
    assert_eq!(e.target, ResolveTarget::Version);
    assert!(partial_sdkit_version_resolve(&i, "groovy", "1").is_err());
}

#[test]
fn resolving_a_resolved_name_gives_it_again() {
    let i = installed();
    let v = partial_sdkit_resolve(&i, "k").ok().unwrap();
    assert_eq!(partial_sdkit_resolve(&i, &v).ok(), Some(v));
}

#[test]
fn using_then_reverting_an_sdkit() {
    let i = installed();
    let start = "/home/u/.droidsdk/candidates/kotlin/1.3.60/bin:/usr/bin";
    let plan = set_sdkit_as_current(&layout(), &i, start, "kot", "1.4").ok().unwrap();
    assert_eq!(plan.sdkit, "kotlin");
    assert_eq!(plan.version, "1.4.10");
    assert_eq!(plan.install_dir, "/home/u/.droidsdk/candidates/kotlin/1.4.10");
    assert_eq!(plan.change.backup, "/usr/bin");
    assert_eq!(plan.change.removed, 1);
    assert_eq!(plan.change.new_path, "/home/u/.droidsdk/candidates/kotlin/1.4.10/bin:/usr/bin");
    let (s, undo) = undo_set_sdkit_as_current(&layout(), &i, &plan.change.new_path, "kotlin").ok().unwrap();
    assert_eq!(s, "kotlin");
    assert_eq!(undo.backup, plan.change.new_path);
    assert_eq!(undo.new_path, plan.change.backup);
    assert_eq!(undo.removed, 1);
}

#[test]
fn using_an_unknown_version_fails() {
    let e = set_sdkit_as_current(&layout(), &installed(), "/usr/bin", "kotlin", "2").err().unwrap();
    assert_eq!(e.target, ResolveTarget::Version);
    assert_eq!(e.partial, "2");
    let e = set_sdkit_as_current(&layout(), &installed(), "/usr/bin", "scala", "2").err().unwrap();
    assert_eq!(e.target, ResolveTarget::Candidate);
}

#[test]
fn reverting_a_use_restores_a_path_without_the_sdkit() {
    let i = installed();
    let path = "/usr/local/bin:/usr/bin:/home/u/.droidsdk/candidates/java/8.0.265-open/bin";
    let plan = set_sdkit_as_current(&layout(), &i, path, "kot", "1.4").ok().unwrap();
    assert_eq!(
        plan.change.new_path,
        "/home/u/.droidsdk/candidates/kotlin/1.4.10/bin:/usr/local/bin:/usr/bin:/home/u/.droidsdk/candidates/java/8.0.265-open/bin"
    );
    let (_, undo) = undo_set_sdkit_as_current(&layout(), &i, &plan.change.new_path, "kotlin").ok().unwrap();
    assert_eq!(undo.new_path, path);
}
