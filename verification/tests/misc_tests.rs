use droidsdk::cli::{filter_mine, find_candidate, interactive_command};
use droidsdk::environment_for_project::{
    global_dependencies, setup_environment_for_project, symlink_candidate, update_candidates_in_path,
};
use droidsdk::activity::{get_global_activities, get_project_conf};
use droidsdk::filesystem::{components_of, is_watched, traverse_step, watched_projects, write_new_env_var_value, Layout, TraverseStep};
use droidsdk::install_sdkit::{archive_file_name, archive_kind, plan_install, ArchiveKind};
use droidsdk::operating_system::{get_current_os_and_arch, get_sdkit_version_in_use};
use droidsdk::sdkman_api::SdkManCandidate;
use droidsdk::setup::{bash_source_line, cmd_init_script, setup_variant, SetupVariant};
use droidsdk::use_sdkit::{Installed, ResolveTarget};
use droidsdk::versions::SdkManCandidateVersion;

fn layout() -> Layout {
    Layout { workdir: "/home/u/.droidsdk".to_string(), dir_separator: '/', path_separator: ':' }
}

fn installed() -> Installed {
    let mut i = Installed::new();
    i.add("java".to_string(), vec!["11.0.2".to_string(), "8.0.1".to_string()]);
    i.add("kotlin".to_string(), vec!["1.3.60".to_string(), "1.4.10".to_string()]);
    i
}

#[test]
fn platform_names() {
    assert_eq!(get_current_os_and_arch("linux", "x86_64"), "Linux64");
    assert_eq!(get_current_os_and_arch("windows", "x86"), "cygwin32");
    assert_eq!(get_current_os_and_arch("macos", "aarch64"), "OTHER_ARM64");
}

#[test]
fn version_in_use() {
    let path = "/usr/bin:/home/u/.droidsdk/candidates/java/11.0.2/bin:/bin";
    assert_eq!(get_sdkit_version_in_use("java", "/", path, ':'), Some(Some("11.0.2".to_string())));
    assert_eq!(get_sdkit_version_in_use("kotlin", "/", path, ':'), Some(None));
    assert_eq!(get_sdkit_version_in_use("(", "/", path, ':'), None);
}

#[test]
fn installing_places() {
    let p = plan_install(&layout(), "java", "11.0.2", "Linux64");
    assert_eq!(p.install_path, "/home/u/.droidsdk/candidates/java/11.0.2");
    assert_eq!(p.broker_url, "https://api.sdkman.io/2/broker/download/java/11.0.2/Linux64");
    assert_eq!(p.archives_dir, "/home/u/.droidsdk/archives");
    assert_eq!(p.tmp_dir, "/home/u/.droidsdk/tmp");
    assert_eq!(p.unpack_path, "/home/u/.droidsdk/tmp/java_11.0.2");
}

#[test]
fn archive_names_and_kinds() {
    assert_eq!(archive_file_name("https://cdn.example.com/dl/jdk-11.tar.gz?token=x&y=z"), "jdk-11.tar.gz");
    assert_eq!(archive_file_name("gradle-7.0.zip"), "gradle-7.0.zip");
    assert_eq!(archive_file_name("https://x/"), "");
    assert_eq!(archive_kind("jdk-11.tar.gz"), Some(ArchiveKind::TarGz));
    assert_eq!(archive_kind("gradle-7.0.zip"), Some(ArchiveKind::Zip));
    assert_eq!(archive_kind("setup.exe"), None);
}

#[test]
fn setup_choices() {
    assert_eq!(setup_variant(None, "linux"), Ok(SetupVariant::Linux));
    assert_eq!(setup_variant(Some("windows".to_string()), "linux"), Ok(SetupVariant::Windows));
    assert_eq!(setup_variant(None, "macos"), Err("macos".to_string()));
    assert_eq!(
        bash_source_line("/opt/dsdk"),
        "[[ -s \"/opt/dsdk/dsdk-init.sh\" ]] && source \"/opt/dsdk/dsdk-init.sh\""
    );
    assert_eq!(cmd_init_script("C:\\dsdk"), "doskey dsdk=C:\\dsdk\\dsdk.bat $*");
}

#[test]
fn interactive_lines() {
    assert_eq!(interactive_command("exit"), None);
    assert_eq!(interactive_command("exit now"), None);
    assert_eq!(
        interactive_command("use java 11"),
        Some(vec!["cmd".to_string(), "use".to_string(), "java".to_string(), "11".to_string()])
    );
    assert_eq!(interactive_command(""), Some(vec!["cmd".to_string(), "".to_string()]));
}

#[test]
fn only_my_versions() {
    let mk = |v: &str, i: bool, l: bool, s: bool| SdkManCandidateVersion {
        version: v.to_string(),
        identifier: v.to_string(),
        installed: i,
        local_only: l,
        selected: s,
    };
    let r = filter_mine(vec![mk("1", false, false, false), mk("2", true, false, false), mk("3", false, true, false), mk("4", false, false, true)]);
    let kept: Vec<&str> = r.iter().map(|e| e.version.as_str()).collect();
    assert_eq!(kept, vec!["2", "3", "4"]);
}

#[test]
fn finding_a_candidate() {
    let mk = |n: &str| SdkManCandidate {
        readable_name: n.to_string(),
        version: "1".to_string(),
        homepage: "h".to_string(),
        description: "d".to_string(),
        candidate_name: n.to_string(),
    };
    let c = vec![mk("ant"), mk("gradle"), mk("ant")];
    assert_eq!(find_candidate(&c, "ant"), Some(0));
    assert_eq!(find_candidate(&c, "gradle"), Some(1));
    assert_eq!(find_candidate(&c, "maven"), None);
}

#[test]
fn traversing_unpacked_directories() {
    assert_eq!(traverse_step(0, 0), TraverseStep::Empty);
    assert_eq!(traverse_step(0, 1), TraverseStep::Descend);
    assert_eq!(traverse_step(0, 2), TraverseStep::Found);
    assert_eq!(traverse_step(3, 1), TraverseStep::Found);
}

#[test]
fn watched_project_list() {
    assert_eq!(watched_projects("/a\n\n/b\n"), vec!["/a".to_string(), "/b".to_string()]);
    assert!(watched_projects("").is_empty());
}

#[test]
fn export_lines() {
    let mut s = String::new();
    write_new_env_var_value(&mut s, "PATH", "/a:/b");
    write_new_env_var_value(&mut s, "X", "1");
    assert_eq!(s, "export PATH=/a:/b\nexport X=1\n");
}

#[test]
fn links_for_a_project() {
    let t = symlink_candidate(&layout(), &installed(), "kot", "1.3", "API gateway").ok().unwrap();
    assert_eq!(t.candidate, "kotlin");
    assert_eq!(t.version, "1.3.60");
    assert_eq!(t.selected_dir, "/home/u/.droidsdk/selected");
    assert_eq!(t.link, "/home/u/.droidsdk/selected/current.API gateway.kotlin");
    assert_eq!(t.target, "/home/u/.droidsdk/candidates/kotlin/1.3.60");
}

#[test]
fn setting_up_a_project() {
    let text = "{\"projectId\": \"gw\", \"activities\": {\"dev\": {\"kotlin\": \"1.4\", \"java\": \"8\"}, \"old\": {\"java\": \"7\", \"kotlin\": \"1.3\"}}}";
    let p = get_project_conf(Some(text.to_string())).unwrap().unwrap();
    let env = setup_environment_for_project(&layout(), &installed(), "dev", &p);
    assert!(env.configured);
    assert!(env.error.is_none());
    assert_eq!(env.tasks.len(), 2);
    assert_eq!(env.tasks[0].target, "/home/u/.droidsdk/candidates/kotlin/1.4.10");
    assert_eq!(env.tasks[1].target, "/home/u/.droidsdk/candidates/java/8.0.1");
    assert_eq!(env.paths[1], ("java".to_string(), "/home/u/.droidsdk/selected/current.gw.java".to_string()));
    let env = setup_environment_for_project(&layout(), &installed(), "old", &p);
    assert_eq!(env.tasks.len(), 0);
    let e = env.error.unwrap();
    assert_eq!(e.target, ResolveTarget::Version);
    assert_eq!(e.partial, "7");
    let env = setup_environment_for_project(&layout(), &installed(), "none", &p);
    assert!(!env.configured);
}

#[test]
fn updating_path_with_links() {
    let links = vec![("java".to_string(), "/home/u/.droidsdk/selected/current.global.java".to_string())];
    let p = update_candidates_in_path(&layout(), "/home/u/.droidsdk/candidates/java/8/bin:/usr/bin", &links);
    assert_eq!(p, "/home/u/.droidsdk/selected/current.global.java/bin:/usr/bin");
}

#[test]
fn global_project_dependencies() {
    let text = "{\"work\": {\"projectDeps\": {\"global\": {\"java\": \"11\"}}}, \"other\": {\"projectDeps\": {}}}";
    let a = get_global_activities(&vec![text.to_string()]).unwrap();
    let d = global_dependencies(&a, "work").unwrap();
    assert_eq!(d.len(), 1);
    assert_eq!(d[0].candidate, "java");
    assert!(global_dependencies(&a, "other").is_none());
    assert!(global_dependencies(&a, "missing").is_none());
}

#[test]
fn watched_projects_cover_their_subdirectories() {
    let lines = vec!["/home/u/work".to_string(), "/srv/app/".to_string()];
    assert!(is_watched(&lines, "/home/u/work", '/'));
    assert!(is_watched(&lines, "/home/u/work/shop/api", '/'));
    assert!(is_watched(&lines, "/srv//app/./x", '/'));
    assert!(!is_watched(&lines, "/home/u/workshop", '/'));
    assert!(!is_watched(&lines, "/home/u", '/'));
    assert!(!is_watched(&vec!["home/u".to_string()], "/home/u/work", '/'));
    assert!(!is_watched(&Vec::new(), "/home/u", '/'));
    assert_eq!(components_of("/a//b/./c/", '/'), vec!["/", "a", "b", "c"]);
    assert_eq!(components_of("a/b", '/'), vec!["a", "b"]);
    // a leading `.` is a component of its own, as `Path::components` keeps it
    assert_eq!(components_of("./a/./b", '/'), vec![".", "a", "b"]);
    assert_eq!(components_of("/./a", '/'), vec!["/", "a"]);
    assert!(!is_watched(&vec![".".to_string()], "/home/u/p", '/'));
    assert!(!is_watched(&vec!["./".to_string()], "/home/u/p", '/'));
    assert!(is_watched(&vec!["./a".to_string()], "./a/b", '/'));
    assert!(!is_watched(&vec!["./a".to_string()], "a/b", '/'));
}
