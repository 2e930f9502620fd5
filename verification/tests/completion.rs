//! Completion and shell functions.

use wt::completion::{branches, candidates, tokenize, worktrees, Fish};
use wt::process::Output;
use wt::shell::{init, Shell};
use wt::state::Record;

fn record(repository: &str, issue: Option<u64>, branch: &str) -> Record {
    Record {
        repository: repository.to_owned(),
        issue,
        branch: branch.to_owned(),
        path: "/w".to_owned(),
        ports: Vec::new(),
        copied_files: Vec::new(),
        teardown: None,
        disposable: Vec::new(),
        config_hash: None,
    }
}

#[test]
fn completion_filters_and_deduplicates_local_and_origin_branches() {
    let output = Output {
        code: Some(0),
        stdout: b"refs/heads/feat/local\t\nrefs/heads/main\t\nrefs/remotes/origin/HEAD\trefs/remotes/origin/main\nrefs/remotes/origin/feat/local\t\nrefs/remotes/origin/feat/remote\t\nrefs/remotes/origin/main\t\n".to_vec(),
        stderr: Vec::new(),
    };
    assert_eq!(branches("feat/", &output), ["feat/local", "feat/remote"]);
    assert_eq!(branches("feat/r", &output), ["feat/remote"]);
    assert!(!branches("", &output).contains(&"HEAD".to_owned()));
    let failed = Output { code: Some(128), stdout: b"refs/heads/main\t\n".to_vec(), stderr: Vec::new() };
    assert!(branches("", &failed).is_empty());
}

#[test]
fn completion_suggests_only_valid_removal_targets_for_current_repository() {
    let records = vec![
        record("Acme/Example", Some(42), "fix/42-handle-empty-input"),
        record("acme/example", None, "feat/local"),
        record("other/repo", Some(99), "fix/42-handle-empty-input"),
    ];
    let targets = worktrees("", "acme/example", &records);
    assert!(targets.contains(&"42".to_owned()));
    assert!(targets.contains(&"feat/local".to_owned()));
    assert!(!targets.contains(&"99".to_owned()));
    assert!(!targets.contains(&"fix/42-handle-empty-input".to_owned()));
    assert_eq!(worktrees("feat/", "acme/example", &records), ["feat/local"]);
    assert_eq!(worktrees("4", "acme/example", &records), ["42"]);
}

#[test]
fn candidates_are_sorted_and_distinct() {
    let values: Vec<String> = ["b", "ab", "a", "ab", "c"].iter().map(|s| s.to_string()).collect();
    assert_eq!(candidates("a", &values), ["a", "ab"]);
    assert_eq!(candidates("", &values), ["a", "ab", "b", "c"]);
}

#[test]
fn fish_registration_tokenizes_the_current_word() {
    let script = Fish.registration("COMPLETE", "wt", "wt", "/usr/bin/wt").unwrap();
    assert_eq!(
        script,
        [
            "complete --keep-order --exclusive --command wt --arguments ",
            "\"(COMPLETE=fish /usr/bin/wt -- ",
            "(commandline --current-process --tokenize --cut-at-cursor) ",
            r"(printf '%s\\n' (commandline --current-token --tokenize)))",
            "\"\n",
        ]
        .concat()
    );
    let quoted = Fish.registration("COMPLETE", "wt", "wt", "/usr/my bin/wt").unwrap();
    assert!(quoted.contains("'/usr/my bin/wt'"), "{quoted}");
    assert!(!script.contains("(commandline --current-token)"), "{script}");
    assert!(Fish.is("fish") && !Fish.is("bash"));
    assert_eq!(Fish.name(), "fish");
}

#[test]
fn scripts_without_the_word_stay() {
    assert_eq!(tokenize(&b"complete\n".to_vec()), "complete\n");
    assert_eq!(tokenize(&vec![b'a', 0xff]), "a\u{fffd}");
}

#[test]
fn shells_get_a_function_that_changes_directory() {
    assert_eq!(init(Shell::Bash), init(Shell::Zsh));
    assert!(init(Shell::Bash).starts_with("function wt {\n"));
    assert!(init(Shell::Bash).contains("cd -- \"$target\""));
    assert!(init(Shell::Fish).starts_with("function wt --description"));
    assert!(init(Shell::Fish).contains("printf '%s\\n' $target"));
}
