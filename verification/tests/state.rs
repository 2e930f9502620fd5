//! Records of worktrees, and the commands that are trusted.

use wt::app::{
    add_plan, bootstrap_command, ensure_trusted_commands, find_record, find_removable, new_record, reusable,
    AddTarget, Trust,
};
use wt::clean::recorded_teardown;
use wt::config::Config;
use wt::ports::{Leasing, Request};
use wt::state::{branch_key, state_root, Entry, Record, Store};

fn record(repository: &str, issue: Option<u64>, branch: &str) -> Record {
    Record {
        repository: repository.to_owned(),
        issue,
        branch: branch.to_owned(),
        path: format!("/worktrees/{branch}"),
        ports: Vec::new(),
        copied_files: Vec::new(),
        teardown: None,
        disposable: Vec::new(),
        config_hash: None,
    }
}

fn store() -> Store {
    Store::open_readonly(Some("/state"), None, None, Vec::new(), Vec::new()).ok().unwrap()
}

#[test]
fn state_is_kept_in_the_first_directory_that_is_set() {
    assert_eq!(state_root(Some("/a"), Some("/b"), Some("/c")).unwrap(), "/a");
    assert_eq!(state_root(None, Some("/b"), Some("/c")).unwrap(), "/b/wt");
    assert_eq!(state_root(None, None, Some("/c")).unwrap(), "/c/.local/state/wt");
    assert_eq!(state_root(None, None, None).err().unwrap(), "HOME is not set");
    assert_eq!(
        Store::open_readonly(None, None, None, Vec::new(), Vec::new()).err().unwrap(),
        "HOME is not set"
    );
}

#[test]
fn a_saved_record_is_found_again() {
    let mut store = store();
    let file = store.save(&record("acme/example", Some(42), "fix/42-a"));
    assert_eq!(file, "acme--example--42.json");
    let branch = store.save(&record("acme/example", None, "feat/local"));
    assert!(branch.starts_with("acme--example--branch-"));
    assert_eq!(store.find_issue("acme/example", 42).ok().unwrap().unwrap().branch, "fix/42-a");
    assert!(store.find_issue("acme/example", 43).ok().unwrap().is_none());
    assert_eq!(store.find_branch("acme/example", "feat/local").ok().unwrap().unwrap().branch, "feat/local");
    assert_eq!(store.records().ok().unwrap().len(), 2);
}

#[test]
fn existing_state_matches_repository_names_case_insensitively() {
    let mut store = store();
    store.save(&record("Acme/Example", Some(42), "fix/42-a"));
    assert!(store.find_issue("acme/example", 42).ok().unwrap().is_some());
    let file = store.save(&record("acme/example", Some(42), "fix/42-b"));
    assert_eq!(file, "Acme--Example--42.json");
    assert_eq!(store.records().ok().unwrap().len(), 1);
}

#[test]
fn a_deleted_record_is_gone_and_others_stay() {
    let mut store = store();
    store.save(&record("acme/example", Some(42), "a"));
    store.save(&record("acme/example", Some(43), "b"));
    assert_eq!(store.delete(&record("acme/example", Some(42), "a")).unwrap(), "acme--example--42.json");
    assert!(store.find_issue("acme/example", 42).ok().unwrap().is_none());
    assert!(store.find_issue("acme/example", 43).ok().unwrap().is_some());
}

#[test]
fn broken_records_are_reported() {
    let entries = vec![Entry { name: "acme--example--42.json".to_owned(), record: None }];
    let store = Store::open_readonly(Some("/state"), None, None, entries, Vec::new()).ok().unwrap();
    assert!(store.find_issue("acme/example", 42).is_err());
    assert!(store.records().is_err());
    assert!(store.used_ports().is_err());
}

#[test]
fn used_ports_are_those_of_every_record() {
    let mut store = store();
    let mut first = record("acme/example", Some(1), "a");
    first.ports = vec![("A".to_owned(), 3000), ("B".to_owned(), 3001)];
    let mut second = record("other/repo", None, "b");
    second.ports = vec![("A".to_owned(), 4000)];
    store.save(&first);
    store.save(&second);
    let mut ports = store.used_ports().ok().unwrap();
    ports.sort();
    assert_eq!(ports, [3000, 3001, 4000]);
}

#[test]
fn command_trust_matches_repository_names_case_insensitively() {
    let mut store = store();
    let (name, contents) = store.trust("Acme/Example", "[\"make\",null]").unwrap();
    assert_eq!(name, "Acme--Example");
    assert_eq!(contents, "[\"make\",null]\n");
    assert!(store.is_trusted("acme/example", "[\"make\",null]"));
    assert!(!store.is_trusted("acme/example", "[\"other\",null]"));
    assert!(!store.is_trusted("acme/other", "[\"make\",null]"));
    assert!(store.trust("acme/example", "[\"make\",null]").is_none());
}

#[test]
fn changed_config_command_is_blocked_before_worktree_creation() {
    let mut store = store();
    let mut config = Config { bootstrap: Some("make".to_owned()), ..Config::default() };
    let hash = config.command_fingerprint().unwrap();
    store.trust("acme/example", hash.as_deref().unwrap());
    let decide = |config: &Config, no_bootstrap: bool, terminal: bool| {
        let hash = config.command_fingerprint().unwrap();
        ensure_trusted_commands(&store, "acme/example", config, hash.as_deref(), no_bootstrap, terminal)
    };
    assert!(matches!(decide(&config, false, false), Trust::Given));
    config.bootstrap = Some("make other".to_owned());
    assert!(matches!(
        decide(&config, false, false),
        Trust::Refused { message }
            if message == ".wtconfig commands are not trusted; review them and run wt trust --yes"
    ));
    assert!(matches!(decide(&config, false, true), Trust::Ask));
    assert!(matches!(
        ensure_trusted_commands(&store, "acme/example", &config, None, false, true),
        Trust::Refused { message } if message == "configuration commands require a fingerprint"
    ));
}

#[test]
fn no_bootstrap_explicitly_skips_an_untrusted_command() {
    let config = Config { bootstrap: Some("make".to_owned()), ..Config::default() };
    let hash = config.command_fingerprint().unwrap();
    assert!(matches!(
        ensure_trusted_commands(&store(), "acme/example", &config, hash.as_deref(), true, false),
        Trust::Given
    ));
    assert_eq!(bootstrap_command(&config, true), None);
    assert_eq!(bootstrap_command(&config, false).as_deref(), Some("make"));
}

#[test]
fn only_trusted_teardown_commands_run() {
    let mut store = store();
    let mut known = record("acme/example", Some(42), "a");
    assert_eq!(recorded_teardown(&store, &known).unwrap(), None);
    known.teardown = Some("make down".to_owned());
    assert_eq!(recorded_teardown(&store, &known).err().unwrap(), "teardown command has no trust record");
    known.config_hash = Some("[null,\"make down\"]".to_owned());
    assert_eq!(
        recorded_teardown(&store, &known).err().unwrap(),
        "teardown command is not trusted; use --skip-teardown to leave it running"
    );
    store.trust("acme/example", "[null,\"make down\"]");
    assert_eq!(recorded_teardown(&store, &known).unwrap().as_deref(), Some("make down"));
}

#[test]
fn worktrees_are_found_by_issue_or_branch() {
    let mut store = store();
    store.save(&record("acme/example", Some(42), "fix/42-a"));
    store.save(&record("acme/example", None, "feat/local"));
    assert!(find_record(&store, "acme/example", &AddTarget::Issue(42)).ok().unwrap().is_some());
    assert!(find_record(&store, "acme/example", &AddTarget::Branch("feat/local".to_owned()))
        .ok()
        .unwrap()
        .is_some());
    assert_eq!(find_removable(&store, "acme/example", "42").ok().unwrap().unwrap().branch, "fix/42-a");
    assert_eq!(find_removable(&store, "acme/example", "feat/local").ok().unwrap().unwrap().branch, "feat/local");
    assert!(find_removable(&store, "acme/example", "fix/42-a").ok().unwrap().is_none());
}

#[test]
fn add_reuses_the_issue_worktree_of_a_pull_request_head() {
    let records = vec![
        record("other/repo", Some(1), "fix/42-handle-empty-input"),
        record("Acme/Example", Some(42), "fix/42-handle-empty-input"),
    ];
    assert_eq!(reusable(&records, &vec![true, true], "acme/example", "fix/42-handle-empty-input"), Some(1));
    assert_eq!(reusable(&records, &vec![true, false], "acme/example", "fix/42-handle-empty-input"), None);
    assert_eq!(reusable(&records, &vec![true, true], "acme/example", "other"), None);
}

#[test]
fn branch_keys_are_stable() {
    assert_eq!(branch_key(""), 0xcbf29ce484222325);
    assert_eq!(branch_key("a"), 0xaf63dc4c8601ec8c);
    assert_eq!(branch_key("foobar"), 0x85944171f73967e8);
}

#[test]
fn locks_are_named_like_the_records() {
    let store = store();
    assert_eq!(store.lock_name("acme/example", "42"), "acme--example--42.json");
    assert!(store.lock_name("acme/example", "feat/local").starts_with("acme--example--branch-"));
    assert_ne!(store.lock_name("acme/example", "a"), store.lock_name("acme/example", "b"));
}

#[test]
fn a_new_record_holds_the_plan_and_the_settings() {
    let config = Config {
        teardown: Some("make down".to_owned()),
        disposable: vec!["target".to_owned()],
        ..Config::default()
    };
    let plan = add_plan("/worktrees", "acme/example", Some(42), "fix/42-a");
    let made = new_record(
        "acme/example",
        &plan,
        &config,
        vec![("PORT".to_owned(), 3000)],
        vec![(".env".to_owned(), "abc".to_owned())],
        None,
    );
    assert_eq!(made.path, "/worktrees/example/fix-42-a");
    assert_eq!(made.branch, "fix/42-a");
    assert_eq!(made.issue, Some(42));
    assert_eq!(made.teardown.as_deref(), Some("make down"));
    assert_eq!(made.disposable, ["target"]);
    assert!(made.same(&made.clone()));
    assert!(!made.same(&record("acme/example", Some(42), "fix/42-a")));
}

#[test]
fn new_leases_avoid_recorded_ports() {
    let mut store = store();
    for (issue, port) in [(1, 3000), (2, 3001)] {
        let mut record = record("acme/example", Some(issue), "a");
        record.ports = vec![("PORT".to_owned(), port)];
        store.save(&record);
    }
    let request = Request { key: "PORT".to_owned(), original: 3000, process: false };
    let mut leasing = Leasing::start(vec![request], store.used_ports().ok().unwrap()).ok().unwrap();
    while leasing.candidate.is_some() {
        leasing = leasing.answer(true).ok().unwrap();
    }
    assert_eq!(leasing.assignments[0].assigned, 3002);
}

#[test]
fn records_and_trust_have_no_spelling() {
    let mut store = store();
    store.save(&record("Acme/Example", Some(42), "a"));
    store.save(&record("Acme/Example", None, "feat/local"));
    assert_eq!(store.find_branch("acme/EXAMPLE", "feat/local").ok().unwrap().unwrap().branch, "feat/local");
    assert!(store.delete(&record("acme/example", None, "feat/local")).is_ok());
    assert!(store.delete(&record("ACME/example", Some(42), "a")).is_ok());
    assert!(store.find_issue("Acme/Example", 42).ok().unwrap().is_none());
    assert!(store.find_branch("Acme/Example", "feat/local").ok().unwrap().is_none());

    assert!(store.trust("acme/example", "one").is_some());
    assert!(store.trust("Acme/Example", "one").is_none());
    let (name, contents) = store.trust("ACME/EXAMPLE", "two").unwrap();
    assert_eq!((name.as_str(), contents.as_str()), ("acme--example", "one\ntwo\n"));
    assert!(store.is_trusted("aCME/eXAMPLE", "one") && store.is_trusted("acme/example", "two"));
}

#[test]
fn other_files_that_spell_one_name_do_not_matter() {
    let entry = |name: &str| Entry { name: name.to_owned(), record: Some(record("other/repo", Some(1), "x")) };
    let entries = vec![entry("Other--Repo--1.json"), entry("other--repo--1.json")];
    let mut store = Store::open_readonly(Some("/state"), None, None, entries, Vec::new()).ok().unwrap();
    store.save(&record("Acme/Example", Some(42), "a"));
    assert_eq!(store.find_issue("acme/example", 42).ok().unwrap().unwrap().branch, "a");
    assert!(store.delete(&record("acme/EXAMPLE", Some(42), "a")).is_ok());
    assert!(store.find_issue("Acme/Example", 42).ok().unwrap().is_none());
}
