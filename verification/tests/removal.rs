//! Removing worktrees: what blocks it, and what is deleted.

use wt::app::{remove, remove_arguments, Answer, Removing};
use wt::changes::{
    blocking_changes, contains_only_directories, ensure_safe_to_remove, needs_directory, worktree_changes, Change,
    Node,
};
use wt::cleanup::{
    after_move, delete_managed_files, managed_paths, may_purge, remove_paths, remove_recorded_worktree, to_inspect,
    trash_dir, trash_paths, worktree_trash, Deleted, Inspected, Moved, Status, Tree,
};
use wt::process::Output;
use wt::state::Record;

fn strings(list: &[&str]) -> Vec<String> {
    list.iter().map(|s| s.to_string()).collect()
}

fn record() -> Record {
    Record {
        repository: "acme/example".to_owned(),
        issue: Some(42),
        branch: "fix/42-a".to_owned(),
        path: "/worktrees/example/fix-42-a".to_owned(),
        ports: Vec::new(),
        copied_files: vec![(".env".to_owned(), "abc".to_owned()), ("certs/a.pem".to_owned(), "def".to_owned())],
        teardown: None,
        disposable: strings(&["target"]),
        config_hash: None,
    }
}

fn directory(name: &str, entries: Vec<Node>) -> Node {
    Node::Directory { name: name.to_owned(), entries }
}

fn file(name: &str) -> Node {
    Node::Entry { name: name.to_owned() }
}

fn change(kind: &str, path: &str, directory: Option<Node>) -> Change {
    Change { kind: kind.to_owned(), path: path.to_owned(), directory }
}

fn blocked(changes: Vec<Change>) -> Vec<String> {
    blocking_changes(&record(), &strings(&["abc", "def"]), &changes)
}

#[test]
fn remove_refuses_a_changed_copied_file() {
    let changes = blocking_changes(&record(), &strings(&["changed", "def"]), &Vec::new());
    assert_eq!(changes, ["changed managed file: .env"]);
    assert_eq!(ensure_safe_to_remove(&changes).err().unwrap(), "changed managed file: .env");
    assert!(ensure_safe_to_remove(&Vec::new()).is_ok());
}

#[test]
fn remove_refuses_tracked_changes_and_unknown_ignored_files() {
    assert_eq!(blocked(vec![change(" M", "README.md", None)]), ["worktree contains tracked changes: README.md"]);
    assert_eq!(blocked(vec![change("??", "new.txt", None)]), ["worktree contains an unmanaged file: new.txt"]);
    assert_eq!(blocked(vec![change("!!", "secret", None)]), ["worktree contains an unmanaged file: secret"]);
    assert!(blocked(vec![change("!!", ".env", None), change("!!", "target/", None)]).is_empty());
}

#[test]
fn remove_allows_ignored_empty_directory_trees() {
    let empty = directory("cache", vec![directory("a", vec![directory("b", Vec::new())])]);
    assert!(contains_only_directories(&empty));
    assert!(blocked(vec![change("!!", "cache/", Some(empty))]).is_empty());
}

#[test]
fn remove_protects_contents_of_ignored_directories() {
    let full = directory("cache", vec![directory("a", vec![file("keep")])]);
    assert!(!contains_only_directories(&full));
    assert_eq!(
        blocked(vec![change("!!", "cache/", Some(full))]),
        ["worktree contains an unmanaged file: cache/"]
    );
}

#[test]
fn directories_of_managed_files_do_not_block() {
    let managed = directory("certs", vec![file("a.pem")]);
    assert!(needs_directory("!!", "certs/", &record()));
    assert!(blocked(vec![change("!!", "certs/", Some(managed))]).is_empty());
    let mixed = directory("certs", vec![file("a.pem"), file("b.pem")]);
    assert_eq!(
        blocked(vec![change("!!", "certs/", Some(mixed))]),
        ["worktree contains an unmanaged file: certs/"]
    );
}

#[test]
fn reports_of_changes_are_read() {
    let output = Output { code: Some(0), stdout: b" M a b\0?? c\0".to_vec(), stderr: Vec::new() };
    assert_eq!(
        worktree_changes(&output).unwrap(),
        [(" M".to_owned(), "a b".to_owned()), ("??".to_owned(), "c".to_owned())]
    );
    let output = Output { code: Some(0), stdout: b"M\0".to_vec(), stderr: Vec::new() };
    assert!(worktree_changes(&output).is_err());
    let output = Output { code: Some(128), stdout: Vec::new(), stderr: b"fatal".to_vec() };
    assert!(worktree_changes(&output).is_err());
}

fn step(step: Removing, force: bool, skip: bool, answer: Answer) -> Result<Removing, String> {
    remove(step, "42", force, skip, answer)
}

#[test]
fn remove_refuses_unknown_files_unless_force_is_explicit() {
    let found = || Answer::Record(Ok(Some(record())), true);
    assert!(matches!(step(Removing::Lookup, false, false, found()), Ok(Removing::Check)));
    assert!(matches!(step(Removing::Lookup, true, false, found()), Ok(Removing::Teardown)));
    assert!(matches!(step(Removing::Lookup, true, true, found()), Ok(Removing::Discard)));
    let changes = Answer::Changes(Ok(strings(&["worktree contains an unmanaged file: a"])));
    assert_eq!(
        step(Removing::Check, false, false, changes).err().unwrap(),
        "worktree contains an unmanaged file: a"
    );
    let none = || Answer::Changes(Ok(Vec::new()));
    assert!(matches!(step(Removing::Check, false, false, none()), Ok(Removing::Teardown)));
    assert!(matches!(step(Removing::Check, false, true, none()), Ok(Removing::Discard)));
}

#[test]
fn trusted_teardown_runs_before_removal() {
    let done = || Answer::Finished(Ok(()));
    assert!(matches!(step(Removing::Teardown, false, false, done()), Ok(Removing::Discard)));
    assert!(matches!(step(Removing::Discard, false, false, done()), Ok(Removing::Forget)));
    assert!(matches!(step(Removing::Forget, false, false, done()), Ok(Removing::Done)));
    let failed = Answer::Finished(Err("teardown command failed".to_owned()));
    assert_eq!(step(Removing::Teardown, false, false, failed).err().unwrap(), "teardown command failed");
}

#[test]
fn remove_drops_the_record_of_a_missing_worktree() {
    assert!(matches!(
        step(Removing::Lookup, false, false, Answer::Record(Ok(Some(record())), false)),
        Ok(Removing::Prune)
    ));
    assert!(matches!(
        step(Removing::Prune, false, false, Answer::Finished(Ok(()))),
        Ok(Removing::Forget)
    ));
    assert_eq!(
        step(Removing::Lookup, false, false, Answer::Record(Ok(None), false)).err().unwrap(),
        "no managed worktree for 42"
    );
}

#[test]
fn forced_removal_is_passed_on_to_git() {
    assert_eq!(remove_arguments("/w", false), ["worktree", "remove", "/w"]);
    assert_eq!(remove_arguments("/w", true), ["worktree", "remove", "--force", "/w"]);
}

fn tree(path: &str, entries: Option<Vec<Tree>>) -> Tree {
    Tree { path: path.to_owned(), entries }
}

#[test]
fn removes_nested_overlapping_and_missing_paths() {
    let list = strings(&["ösalkdfjöalsk/.pnpm", "missing", "ösalkdfjöalsk", "ösalkdfjöalsk"]);
    let trees = vec![tree(
        "/root/ösalkdfjöalsk",
        Some(vec![tree(
            "/root/ösalkdfjöalsk/.pnpm",
            Some(vec![tree("/root/ösalkdfjöalsk/.pnpm/package", Some(Vec::new()))]),
        )]),
    )];
    let plan = remove_paths("/root", &list, &Vec::new(), &trees).ok().unwrap();
    assert_eq!(plan.tasks, ["/root/ösalkdfjöalsk/.pnpm/package"]);
    assert_eq!(plan.parents, ["/root/ösalkdfjöalsk/.pnpm", "/root/ösalkdfjöalsk"]);
    assert_eq!(plan.workers, 1);
}

#[test]
fn unlinks_symlinks_at_every_partition_depth_without_touching_targets() {
    let trees = vec![
        tree("/root/link", None),
        tree(
            "/root/generated",
            Some(vec![
                tree("/root/generated/link", None),
                tree("/root/generated/dangling", None),
                tree(
                    "/root/generated/one",
                    Some(vec![
                        tree("/root/generated/one/link", None),
                        tree("/root/generated/one/two", Some(Vec::new())),
                    ]),
                ),
            ]),
        ),
    ];
    let plan =
        remove_paths("/root", &strings(&["link", "generated"]), &Vec::new(), &trees).ok().unwrap();
    assert_eq!(
        plan.tasks,
        [
            "/root/generated/link",
            "/root/generated/dangling",
            "/root/generated/one/link",
            "/root/generated/one/two",
            "/root/link",
        ]
    );
    assert_eq!(plan.parents, ["/root/generated/one", "/root/generated"]);
    assert_eq!(plan.workers, 4);
}

#[test]
fn refuses_symlink_ancestors_before_deleting_anything() {
    let list = strings(&["first", "link/cache"]);
    assert_eq!(to_inspect("/root", &list), ["/root/link"]);
    let found = vec![Inspected { path: "/root/link".to_owned(), status: Status::Link }];
    let error = remove_paths("/root", &list, &found, &Vec::new()).err().unwrap();
    assert!(error.contains("symlink ancestor"), "{error}");
    let found = vec![Inspected { path: "/root/link".to_owned(), status: Status::Unreadable }];
    assert_eq!(remove_paths("/root", &list, &found, &Vec::new()).err().unwrap(), "inspect /root/link");
}

#[test]
fn remove_moves_generated_files_aside_and_purges_them_in_the_background() {
    let list = strings(&["web/node_modules", "target", "target/debug"]);
    let batch = trash_paths("/w/a", &list, "/w/.wt-trash", &Vec::new(), 7, 123456789012345678901, 2)
        .ok()
        .unwrap()
        .unwrap();
    assert_eq!(batch.directory, "/w/.wt-trash/7-123456789012345678901-2");
    assert_eq!(
        batch.moves,
        [
            ("/w/a/target".to_owned(), format!("{}/0", batch.directory)),
            ("/w/a/web/node_modules".to_owned(), format!("{}/1", batch.directory)),
        ]
    );
    assert!(trash_paths("/w/a", &Vec::new(), "/w/.wt-trash", &Vec::new(), 7, 1, 2).ok().unwrap().is_none());
    assert_eq!(after_move("/w/a/target", &Moved::Done), Ok(false));
    assert_eq!(after_move("/w/a/target", &Moved::Missing), Ok(false));
    assert_eq!(after_move("/w/a/target", &Moved::OtherDevice), Ok(true));
    assert_eq!(after_move("/w/a/target", &Moved::Failed), Err("remove /w/a/target".to_owned()));
}

#[test]
fn purge_trash_ignores_directories_that_are_not_wt_trash() {
    assert_eq!(trash_dir("/worktrees/example/a").as_deref(), Some("/worktrees/example/.wt-trash"));
    assert_eq!(trash_dir("/"), None);
    assert!(may_purge("/worktrees/example/.wt-trash"));
    assert!(!may_purge("/worktrees/example"));
    assert!(!may_purge("/worktrees/.wt-trash/inner"));
}

#[test]
fn cleanup_failure_keeps_worktree_and_record_and_reports_the_path() {
    assert_eq!(
        managed_paths(&record()),
        ["/worktrees/example/fix-42-a/.env", "/worktrees/example/fix-42-a/certs/a.pem"]
    );
    assert_eq!(worktree_trash(&record()).unwrap(), "/worktrees/example/.wt-trash");
    let mut odd = record();
    odd.path = "/".to_owned();
    assert_eq!(worktree_trash(&odd).err().unwrap(), "worktree path has no parent");
    assert_eq!(delete_managed_files("/w/.env", &Deleted::Done, false), Ok(()));
    assert_eq!(delete_managed_files("/w/.env", &Deleted::Missing, true), Ok(()));
    assert_eq!(delete_managed_files("/w/.env", &Deleted::Missing, false), Err("remove /w/.env".to_owned()));
    assert_eq!(delete_managed_files("/w/.env", &Deleted::Failed, true), Err("remove /w/.env".to_owned()));
    let failed = || Err("remove /w/.env".to_owned());
    assert_eq!(remove_recorded_worktree(failed(), false), failed());
    assert_eq!(remove_recorded_worktree(failed(), true), Ok(()));
}
