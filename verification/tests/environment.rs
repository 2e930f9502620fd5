//! Env files, leased ports and copied files.

use wt::config::{Config, FileText};
use wt::environment::{
    complete, direnv_allowed, discover_ports, envrc_loads_process_env, fingerprint, ignored_files, is_local_file,
    is_pattern, paths_to_check, plan_copies, points_outside, prepare, process_env_text, reject_tracked_path,
    replace_local_ports, replace_value, requests, rewrite, same_envrc, selected_by, set_value, value,
    will_load_process_env, writes_process_env, CopyPlan, Entry, Kind, Prepared, Search, Selection, Source,
};
use wt::ports::{Assignment, Leasing, Request};
use wt::process::Output;

fn strings(list: &[&str]) -> Vec<String> {
    list.iter().map(|s| s.to_string()).collect()
}

fn assignment(key: &str, original: u16, assigned: u16, process: bool) -> Assignment {
    Assignment { key: key.to_owned(), original, assigned, process }
}

fn request(key: &str, original: u16, process: bool) -> Request {
    Request { key: key.to_owned(), original, process }
}

/// Leases ports, with some of them taken by other programs.
fn lease(requests: Vec<Request>, used: &[u16], taken: &[u16]) -> Result<Vec<Assignment>, String> {
    let mut leasing = Leasing::start(requests, used.to_vec())?;
    while let Some(port) = leasing.candidate {
        leasing = leasing.answer(!taken.contains(&port))?;
    }
    Ok(leasing.assignments)
}

#[test]
fn values_are_read_from_the_first_line_with_the_key() {
    assert_eq!(value("A=1\nA=2\n", "A").as_deref(), Some("1"));
    assert_eq!(value("  export A = 1\nexport A=2\n", "A").as_deref(), Some("2"));
    assert_eq!(value("AB=1\n", "A"), None);
    assert_eq!(value("A= 1 \r\n", "A").as_deref(), Some("1"));
}

#[test]
fn a_value_that_was_set_reads_back_and_others_stay() {
    let contents = "A=1\nB=2";
    let changed = set_value(contents, "A", "7");
    assert_eq!(changed, "A=7\nB=2");
    assert_eq!(value(&changed, "B").as_deref(), Some("2"));
    let added = set_value(contents, "C", "3");
    assert_eq!(added, "A=1\nB=2\nC=3\n");
    assert_eq!(value(&added, "C").as_deref(), Some("3"));
    assert_eq!(set_value("", "C", "3"), "C=3\n");
}

#[test]
fn an_exported_value_is_replaced_behind_its_export() {
    let changed = set_value("export A=1\n  B=2\n\t export C=3\n", "A", "7");
    assert_eq!(changed, "export A=7\n  B=2\n\t export C=3\n");
    assert_eq!(value(&changed, "A").as_deref(), Some("7"));
    assert_eq!(replace_value(&changed, "B", "8"), "export A=7\n  B=8\n\t export C=3\n");
    assert_eq!(replace_value(&changed, "C", "9"), "export A=7\n  B=2\n\t export C=9\n");
    assert_eq!(replace_value("export AB=1\n", "A", "7"), "export AB=1\n");
    let assignments = vec![assignment("APP_PORT", 3000, 3100, false)];
    assert_eq!(rewrite("export APP_PORT=3000\n", &assignments).unwrap(), "export APP_PORT=3100\n");
}

#[test]
fn every_line_with_the_key_is_replaced() {
    assert_eq!(replace_value("A=1\nB=2\nA=3\n", "A", "9"), "A=9\nB=2\nA=9\n");
    assert_eq!(replace_value("B=2", "A", "9"), "B=2");
}

#[test]
fn port_variables_are_discovered() {
    assert_eq!(discover_ports("API_PORT=8080\nNAME=x\nWEB_PORT=no\nPORT=3000\n"), ["API_PORT", "PORT"]);
}

#[test]
fn port_rewrites_do_not_cascade_between_adjacent_ports() {
    let first: u16 = 4000;
    let second: u16 = first + 1;
    let contents = format!(
        "API_PORT={first}\nWEB_PORT={second}\nAPI_URL=http://localhost:{first}\nWEB_URL=http://localhost:{second}\n"
    );
    let assignments =
        lease(vec![request("API_PORT", first, false), request("WEB_PORT", second, false)], &[], &[first]).unwrap();
    let contents = rewrite(&contents, &assignments).unwrap();
    let api = value(&contents, "API_PORT").unwrap();
    let web = value(&contents, "WEB_PORT").unwrap();
    assert_eq!(contents.matches(&format!("localhost:{api}")).count(), 1);
    assert_eq!(contents.matches(&format!("localhost:{web}")).count(), 1);
    assert_ne!(api, web);
}

#[test]
fn exchanged_ports_do_not_cascade() {
    let assignments = vec![assignment("A", 3000, 4000, false), assignment("B", 4000, 3000, false)];
    assert_eq!(
        replace_local_ports("http://localhost:3000 http://127.0.0.1:4000", &assignments).unwrap(),
        "http://localhost:4000 http://127.0.0.1:3000"
    );
}

#[test]
fn texts_without_references_are_left_alone() {
    let assignments = vec![assignment("A", 3000, 4000, false)];
    assert_eq!(replace_local_ports("http://example.com:3000", &assignments).unwrap(), "http://example.com:3000");
}

#[test]
fn references_are_rewritten_at_once() {
    let assignments = vec![
        assignment("A", 3000, 4000, false),
        assignment("B", 4000, 5000, false),
        assignment("C", 80, 3000, true),
        assignment("A2", 3000, 4000, false),
    ];
    assert_eq!(
        replace_local_ports("localhost:3000,127.0.0.1:4000;localhost:80/127.0.0.1:3000 localhost:30000 127.0.0.1:8", &assignments)
            .unwrap(),
        "localhost:4000,127.0.0.1:5000;localhost:3000/127.0.0.1:4000 localhost:30000 127.0.0.1:8"
    );
    assert_eq!(replace_local_ports("localhost:localhost:80", &assignments).unwrap(), "localhost:localhost:3000");
}

#[test]
fn references_to_longer_ports_are_left_alone() {
    let assignments = vec![assignment("A", 3000, 3100, false)];
    for contents in ["http://localhost:30001", "http://127.0.0.1:30009/", "localhost:30000 127.0.0.1:30000"] {
        assert_eq!(replace_local_ports(contents, &assignments).unwrap(), contents);
    }
    assert_eq!(
        replace_local_ports("localhost:30001 localhost:3000/x localhost:3000", &assignments).unwrap(),
        "localhost:30001 localhost:3100/x localhost:3100"
    );
}

#[test]
fn reserved_markers_are_refused() {
    let assignments = vec![assignment("A", 3000, 4000, false)];
    assert_eq!(
        replace_local_ports("__WT_ASSIGNED_PORT_0__", &assignments).err().unwrap(),
        "env file contains reserved marker __WT_ASSIGNED_PORT_0__"
    );
}

#[test]
fn add_copies_allowed_env_files_and_rewrites_reserved_ports() {
    let original: u16 = 45123;
    let config = Config {
        env: Some(".env".to_owned()),
        copies: strings(&["web/.env.local"]),
        compose: true,
        ports: strings(&["APP_PORT"]),
        ..Config::default()
    };
    let env = format!("APP_PORT={original}\nAPP_URL=http://localhost:{original}\nSECRET=keep-me\n");
    let web = format!("PUBLIC_URL=http://app.localhost:{original}\n");
    let requests = requests(&config, Some(&env)).ok().unwrap();
    let assignments = lease(requests, &[], &[original]).unwrap();
    let assigned = assignments[0].assigned;
    assert_ne!(assigned, original);
    let files = vec![
        FileText { path: ".env".to_owned(), contents: env },
        FileText { path: "web/.env.local".to_owned(), contents: web },
    ];
    let prepared = prepare(&config, &files, &assignments, "wt-42-acme-example", false).ok().unwrap();
    let contents = |path: &str| {
        prepared.iter().find(|file| file.path == path).map(|file| file.contents.clone()).unwrap()
    };
    let root_env = contents(".env");
    assert_eq!(value(&root_env, "APP_PORT").unwrap(), assigned.to_string());
    assert!(root_env.contains(&format!("APP_URL=http://localhost:{assigned}")));
    assert!(root_env.contains("SECRET=keep-me"));
    assert!(root_env.contains("COMPOSE_PROJECT_NAME=wt-42-acme-example"));
    assert_eq!(contents("web/.env.local"), format!("PUBLIC_URL=http://app.localhost:{assigned}\n"));
}

#[test]
fn process_port_creates_managed_wt_env_without_a_primary_env_file() {
    let port: u16 = 45200;
    let config = Config { ports: vec![format!("PORT:{port}")], ..Config::default() };
    let requests = requests(&config, None).ok().unwrap();
    let assignments = lease(requests, &[], &[]).unwrap();
    let contents = process_env_text(&assignments, false, None).unwrap();
    assert_eq!(value(&contents, "PORT").unwrap(), port.to_string());
}

#[test]
fn env_and_process_variables_for_the_same_service_share_one_lease() {
    let port: u16 = 45300;
    let config = Config {
        env: Some(".env".to_owned()),
        ports: vec!["WEB_PORT".to_owned(), format!("PORT:{port}")],
        ..Config::default()
    };
    let env = format!("WEB_PORT={port}\n");
    let assignments = lease(requests(&config, Some(&env)).ok().unwrap(), &[], &[port]).unwrap();
    let env = rewrite(&env, &assignments).unwrap();
    let process = process_env_text(&assignments, false, None).unwrap();
    assert_eq!(value(&env, "WEB_PORT"), value(&process, "PORT"));
}

#[test]
fn leased_ports_are_unused_and_distinct() {
    let assignments = lease(
        vec![request("A", 3000, false), request("B", 3001, false), request("C", 3002, true)],
        &[3000, 3003],
        &[3001],
    )
    .unwrap();
    let ports: Vec<u16> = assignments.iter().map(|assignment| assignment.assigned).collect();
    assert_eq!(ports, [3002, 3004, 3005]);
}

#[test]
fn no_port_is_left_at_the_end_of_the_range() {
    assert!(lease(vec![request("A", 65535, false)], &[65535], &[]).is_err());
}

#[test]
fn the_process_file_lists_every_port_where_it_is_loaded() {
    let assignments = vec![assignment("API_PORT", 8080, 8081, false), assignment("PORT", 3000, 3001, true)];
    assert_eq!(
        process_env_text(&assignments, true, Some("wt-42")).as_deref(),
        Some("# Generated by wt. Do not edit.\nAPI_PORT=8081\nPORT=3001\nCOMPOSE_PROJECT_NAME=wt-42\n")
    );
    assert_eq!(
        process_env_text(&assignments, false, Some("wt-42")).as_deref(),
        Some("# Generated by wt. Do not edit.\nPORT=3001\n")
    );
    assert_eq!(process_env_text(&Vec::new(), false, None), None);
    assert!(envrc_loads_process_env(Some("dotenv_if_exists .wt.env\n")));
    assert!(!envrc_loads_process_env(None));
}

#[test]
fn ports_need_a_value_to_start_from() {
    let config = Config { env: Some(".env".to_owned()), ports: strings(&["API_PORT"]), ..Config::default() };
    assert!(requests(&config, Some("OTHER=1\n")).is_err());
    assert!(requests(&config, Some("API_PORT=x\n")).is_err());
    assert!(requests(&config, Some("API_PORT=8080\n")).is_ok());
}

#[test]
fn prepared_ports_are_sorted_by_name() {
    let prepared = Prepared {
        assignments: vec![assignment("WEB", 1, 2, false), assignment("API", 3, 4, false), assignment("WEB", 1, 9, false)],
        pending: Vec::new(),
        copied_files: Vec::new(),
    };
    assert_eq!(prepared.ports(), [("API".to_owned(), 4), ("WEB".to_owned(), 9)]);
}

#[test]
fn disposable_directory_cannot_contain_tracked_files() {
    let config = Config { disposable: strings(&["generated"]), ..Config::default() };
    assert_eq!(paths_to_check(&config, true), ["generated"]);
    let listing =
        Output { code: Some(0), stdout: b"generated/tracked.txt\0generated/z\0".to_vec(), stderr: Vec::new() };
    let error = reject_tracked_path("generated", &listing).err().unwrap();
    assert!(error.contains("generated/tracked.txt"), "{error}");
    let unreadable = Output { code: Some(0), stdout: b"generated/\xff\0".to_vec(), stderr: Vec::new() };
    let error = reject_tracked_path("generated", &unreadable).err().unwrap();
    assert!(error.ends_with(": generated"), "{error}");
}

#[test]
fn the_process_file_is_checked_where_it_is_written() {
    let ports = |list: &[&str], compose| Config {
        env: Some(".env".to_owned()),
        ports: strings(list),
        compose,
        ..Config::default()
    };
    for (config, every, written) in [
        (ports(&["API_PORT"], false), false, false),
        (ports(&["API_PORT"], false), true, true),
        (ports(&["PORT:3000"], false), false, true),
        (ports(&[], true), true, true),
        (ports(&[], true), false, false),
        (ports(&[], false), true, false),
    ] {
        assert_eq!(writes_process_env(&config, every), written);
        assert_eq!(paths_to_check(&config, every).contains(&".wt.env".to_owned()), written);
        let requests = requests(&config, Some("API_PORT=8080\n")).ok().unwrap();
        let assignments = lease(requests, &[], &[]).unwrap();
        let files = prepare(&config, &Vec::new(), &assignments, "wt-42", every).ok().unwrap();
        assert_eq!(files.iter().any(|file| file.path == ".wt.env"), written);
    }
}

#[test]
fn the_envrc_of_a_new_worktree_is_its_own_or_the_copied_one() {
    let plan = |paths: &[&str]| CopyPlan {
        copies: paths.iter().map(|path| wt::environment::Copy { path: path.to_string(), link: None }).collect(),
        pending: Vec::new(),
    };
    let loads = Some("dotenv .wt.env\n");
    assert!(will_load_process_env(loads, None, &plan(&[])));
    assert!(!will_load_process_env(Some("use nix\n"), loads, &plan(&[".envrc"])));
    assert!(will_load_process_env(None, loads, &plan(&["a", ".envrc"])));
    assert!(!will_load_process_env(None, loads, &plan(&["a/.envrc"])));
    assert!(!will_load_process_env(None, None, &plan(&[".envrc"])));
}

#[test]
fn links_that_leave_the_repository_point_outside() {
    assert!(!points_outside(None, None, None));
    assert!(!points_outside(Some("b"), Some("/repo/b"), Some("/repo")));
    assert!(points_outside(Some("../x"), Some("/repository/b"), Some("/repo")));
    assert!(points_outside(Some("gone"), None, Some("/repo")));
    assert!(points_outside(Some("b"), Some("/repo/b"), None));
}

#[test]
fn settings_select_files_directories_and_patterns() {
    assert!(matches!(selected_by("a", Entry::Directory), Search::Untracked(spec) if spec == ":(literal)a"));
    assert!(matches!(selected_by("a*", Entry::File), Search::Itself));
    assert!(matches!(selected_by("a*", Entry::Missing), Search::Untracked(spec) if spec == ":(glob)a*"));
    assert!(matches!(selected_by("a*", Entry::Unreadable), Search::Untracked(_)));
    assert!(matches!(selected_by("a", Entry::Missing), Search::Nothing));
    assert!(matches!(selected_by("a", Entry::Unreadable), Search::Failed));
}

#[test]
fn wholly_ignored_directories_are_left_out() {
    let listing = Output { code: Some(0), stdout: b".env\0dist/\0a/.env\0".to_vec(), stderr: Vec::new() };
    assert_eq!(ignored_files(&listing).unwrap(), [".env", "a/.env"]);
    let failed = Output { code: Some(128), stdout: Vec::new(), stderr: b"no repository".to_vec() };
    assert_eq!(ignored_files(&failed).err().unwrap(), "git failed: no repository");
}

#[test]
fn only_the_same_envrc_may_be_allowed() {
    assert!(same_envrc(&b"dotenv\n".to_vec(), &b"dotenv\n".to_vec()).is_ok());
    for other in [&b"dotenv\n "[..], b"dotenv", b"Dotenv\n", b""] {
        let error = same_envrc(&b"dotenv\n".to_vec(), &other.to_vec()).err().unwrap();
        assert_eq!(error, ".envrc differs from the checkout's");
    }
}

#[test]
fn tracked_paths_cannot_be_copied_or_marked_disposable() {
    for config in [
        Config { copies: strings(&["README.md"]), ..Config::default() },
        Config { disposable: strings(&["README.md"]), ..Config::default() },
    ] {
        assert_eq!(paths_to_check(&config, false), ["README.md"]);
        let output = Output { code: Some(0), stdout: b"README.md\0".to_vec(), stderr: Vec::new() };
        let error = reject_tracked_path("README.md", &output).err().unwrap();
        assert!(error.contains("tracked by Git"), "{error}");
        let output = Output { code: Some(0), stdout: Vec::new(), stderr: Vec::new() };
        assert!(reject_tracked_path("README.md", &output).is_ok());
    }
}

fn source(path: &str, link: Option<&str>, outside: bool, present: bool) -> Source {
    Source { path: path.to_owned(), link: link.map(str::to_owned), outside, present }
}

#[test]
fn copies_follow_the_selection() {
    let selections = vec![
        Selection { path: ".env".to_owned(), files: vec![source(".env", None, false, false)] },
        Selection {
            path: "certs".to_owned(),
            files: vec![source("certs/a.pem", None, false, false), source("certs/b.pem", None, false, true)],
        },
        Selection { path: "missing".to_owned(), files: Vec::new() },
    ];
    let ignored = vec![
        source("NOTES.local.md", Some("/dotfiles/notes"), true, false),
        source("other.md", None, false, false),
    ];
    let plan = plan_copies(&selections, &ignored);
    let copies: Vec<(String, Option<String>)> =
        plan.copies.into_iter().map(|copy| (copy.path, copy.link)).collect();
    assert!(copies.contains(&(".env".to_owned(), None)));
    assert!(copies.contains(&("certs/a.pem".to_owned(), None)));
    assert!(!copies.iter().any(|copy| copy.0 == "certs/b.pem"));
    assert!(copies.contains(&("NOTES.local.md".to_owned(), Some("/dotfiles/notes".to_owned()))));
    assert!(!copies.iter().any(|copy| copy.0 == "other.md"));
    assert_eq!(plan.pending, ["missing"]);
    assert_eq!(complete(&selections), ["missing"]);
    assert!(is_local_file(".editor/settings.local.json"));
    assert!(is_local_file("NOTES.local.md"));
    assert!(!is_local_file("local.md"));
    assert!(is_pattern("**/*.pem"));
    assert!(!is_pattern("certs"));
}

#[test]
fn managed_files_are_known_by_their_fingerprints() {
    let output = Output { code: Some(0), stdout: b"abc\n".to_vec(), stderr: Vec::new() };
    assert_eq!(fingerprint(".env", &Kind::File, &output).unwrap(), "abc");
    assert_eq!(fingerprint("notes", &Kind::Link("/a".to_owned()), &output).unwrap(), "link:/a");
    assert_eq!(fingerprint("dir", &Kind::Other, &output).err().unwrap(), "changed managed file: dir");
}

#[test]
fn direnv_tells_whether_the_environment_is_allowed() {
    let status = |stdout: &str| Output { code: Some(0), stdout: stdout.as_bytes().to_vec(), stderr: Vec::new() };
    assert_eq!(direnv_allowed(&status("Found RC allowed true\n")), Some(true));
    assert_eq!(direnv_allowed(&status("Found RC allowed false\n")), Some(false));
    assert_eq!(direnv_allowed(&status("Found RC allowed 0\n")), Some(true));
    assert_eq!(direnv_allowed(&status("Found RC allowed 1\n")), Some(false));
    assert_eq!(direnv_allowed(&status("No .envrc\n")), None);
}

#[test]
fn references_leave_leased_variables_alone() {
    let contents = "# localhost:3000\nURL=http://localhost:3000/a\nPORT=3000\nAPI_PORT=3001\n";
    let assignments = vec![assignment("PORT", 3000, 4000, false), assignment("API_PORT", 3001, 3000, false)];
    let new = rewrite(contents, &assignments).ok().unwrap();
    assert_eq!(value(&new, "PORT").as_deref(), Some("4000"));
    assert_eq!(value(&new, "API_PORT").as_deref(), Some("3000"));
    assert_eq!(value(&new, "URL").as_deref(), Some("http://localhost:4000/a"));
}
