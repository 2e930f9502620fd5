//! Cleaning up merged worktrees.

use wt::clean::{
    after_preview, base_argument, base_commit, chunk_size, clean, clean_records, conclude, needs_prune,
    remove_candidate, removal_line, short_reason, workers, Candidate, Event, Next, Removal,
};
use wt::inspection::{clean_candidate, Checkout, Evidence, Inspection, Place, Stage};
use wt::process::Output;
use wt::pulls::{
    compare_heads, included_locally, included_remotely, query_merged_pull_requests, short_base, verdict, Comparison,
    PullRequest, PullSearch, SearchStep,
};
use wt::state::Record;
use wt::ui::Screen;

fn strings(list: &[&str]) -> Vec<String> {
    list.iter().map(|s| s.to_string()).collect()
}

fn record(issue: u64, branch: &str) -> Record {
    Record {
        repository: "acme/example".to_owned(),
        issue: Some(issue),
        branch: branch.to_owned(),
        path: format!("/worktrees/{branch}"),
        ports: Vec::new(),
        copied_files: Vec::new(),
        teardown: None,
        disposable: Vec::new(),
        config_hash: None,
    }
}

fn merged(changes: &[&str]) -> Inspection {
    Inspection::Merged { head: "abc".to_owned(), reason: "merged into main".to_owned(), changes: strings(changes) }
}

fn output(code: i32, stdout: &str, stderr: &str) -> Output {
    Output { code: Some(code), stdout: stdout.as_bytes().to_vec(), stderr: stderr.as_bytes().to_vec() }
}

fn screen() -> Screen {
    Screen { stdout: false, stderr: false, dumb: false, no_color: false, width: 100 }
}

fn checkout(branch: &str) -> Checkout {
    Checkout {
        common: Ok("/repo/.git".to_owned()),
        repository_common: Ok("/repo/.git".to_owned()),
        locked: Ok(false),
        branch: Ok(branch.to_owned()),
    }
}

fn here() -> Place {
    Place::Here { path: "/worktrees/a".to_owned(), current: "/repo".to_owned(), linked: true }
}

/// Inspects the worktree of branch `a` against `main`.
fn inspect(evidence: Vec<Evidence>) -> Result<Inspection, String> {
    let mut stage = Stage::Place;
    for answer in evidence {
        stage = clean_candidate(stage, "a", "main", answer)?;
    }
    match stage {
        Stage::Done(inspection) => Ok(inspection),
        _ => panic!("the inspection is not done"),
    }
}

fn refused(evidence: Vec<Evidence>) -> String {
    inspect(evidence).err().unwrap()
}

fn ancestry(code: i32) -> Evidence {
    Evidence::Ancestry { head: Ok("abc".to_owned()), output: output(code, "", "fatal: bad\n") }
}

#[test]
fn clean_skips_current_base_detached_switched_and_missing_worktrees() {
    assert!(matches!(inspect(vec![Evidence::Place(Place::Missing)]), Ok(Inspection::Missing)));
    let current = Place::Here {
        path: "/worktrees/a".to_owned(),
        current: "/worktrees/a/src".to_owned(),
        linked: true,
    };
    assert_eq!(refused(vec![Evidence::Place(current)]), "current worktree");
    let unlinked =
        Place::Here { path: "/worktrees/a".to_owned(), current: "/repo".to_owned(), linked: false };
    assert_eq!(refused(vec![Evidence::Place(unlinked)]), "not a linked worktree");
    assert_eq!(
        refused(vec![Evidence::Place(Place::Unavailable { message: "denied".to_owned() })]),
        "worktree path is unavailable: denied"
    );
    assert_eq!(
        refused(vec![Evidence::Place(here()), Evidence::Checkout(checkout("b"))]),
        "checked-out branch differs from managed branch"
    );
    let mut detached = checkout("a");
    detached.branch = Err("no branch".to_owned());
    assert_eq!(
        refused(vec![Evidence::Place(here()), Evidence::Checkout(detached)]),
        "detached or unavailable HEAD: no branch"
    );
    assert_eq!(
        clean_candidate(Stage::Checkout, "main", "origin/main", Evidence::Checkout(checkout("main")))
            .err()
            .unwrap(),
        "base branch"
    );
}

#[test]
fn clean_skips_locked_worktrees_before_teardown_or_generated_file_cleanup() {
    let mut locked = checkout("a");
    locked.locked = Ok(true);
    assert_eq!(refused(vec![Evidence::Place(here()), Evidence::Checkout(locked)]), "worktree is locked");
}

#[test]
fn clean_leaves_other_clones_and_repositories_alone() {
    let mut other = checkout("a");
    other.common = Ok("/clone/.git".to_owned());
    assert_eq!(
        refused(vec![Evidence::Place(here()), Evidence::Checkout(other)]),
        "worktree belongs to another clone"
    );
    let mut foreign = record(9, "z");
    foreign.repository = "other/repo".to_owned();
    let kept = clean_records(&vec![record(2, "b"), foreign, record(1, "a")], "Acme/Example");
    let branches: Vec<String> = kept.into_iter().map(|record| record.branch).collect();
    assert_eq!(branches, ["a", "b"]);
}

#[test]
fn unmerged_work_is_skipped_and_merged_work_is_offered() {
    let start = || vec![Evidence::Place(here()), Evidence::Checkout(checkout("a"))];
    let with = |more: Vec<Evidence>| start().into_iter().chain(more).collect::<Vec<_>>();
    assert_eq!(
        refused(with(vec![ancestry(1), Evidence::Pull(Ok(None))])),
        "no merged PR found for this branch into main"
    );
    assert_eq!(refused(with(vec![ancestry(128)])), "cannot check merge status: fatal: bad");
    assert!(matches!(
        inspect(with(vec![ancestry(0), Evidence::Changes(Ok(Vec::new()))])),
        Ok(Inspection::Merged { reason, .. }) if reason == "merged into main"
    ));
    assert!(matches!(
        inspect(with(vec![ancestry(1), Evidence::Pull(Ok(Some(7))), Evidence::Changes(Ok(strings(&["x"])))])),
        Ok(Inspection::Merged { reason, changes, .. })
            if reason == "merged PR #7 into main" && changes == ["x"]
    ));
    let dirty = || Evidence::Changes(Ok(strings(&["worktree contains tracked changes: x"])));
    assert_eq!(
        refused(with(vec![ancestry(0), dirty(), Evidence::Pull(Ok(None))])),
        "worktree contains tracked changes: x"
    );
    assert!(matches!(
        inspect(with(vec![ancestry(0), dirty(), Evidence::Pull(Ok(Some(7)))])),
        Ok(Inspection::Merged { changes, .. }) if changes.len() == 1
    ));
}

fn pull(number: u64, head: &str, oid: &str, fork: bool) -> PullRequest {
    PullRequest {
        number,
        state: "MERGED".to_owned(),
        head_ref_name: head.to_owned(),
        head_ref_oid: oid.to_owned(),
        base_ref_name: "main".to_owned(),
        is_cross_repository: fork,
    }
}

#[test]
fn clean_rejects_unrelated_prs_and_newer_local_commits_after_squash_merge() {
    let mut open = pull(4, "a", "d", false);
    open.state = "OPEN".to_owned();
    let mut other = pull(5, "a", "e", false);
    other.base_ref_name = "develop".to_owned();
    let page = vec![pull(1, "b", "x", false), pull(2, "a", "y", true), open, other];
    let search = PullSearch::start(&page, "a", "main");
    assert!(matches!(search.next(), SearchStep::Unmerged));
    assert_eq!(verdict(&search.next()), Ok(None));

    let mut search = PullSearch::start(&vec![pull(3, "a", "old", false)], "a", "main");
    assert!(matches!(search.next(), SearchStep::Compare { number: 3, head } if head == "old"));
    search.pass();
    assert_eq!(
        verdict(&search.next()).err().unwrap(),
        "PR #3 is merged; local commits are not included in its merged head"
    );
}

#[test]
fn clean_checks_older_branch_prs_when_the_recent_page_is_full() {
    let page: Vec<PullRequest> = (0..100).map(|n| pull(n, "b", "x", false)).collect();
    let mut search = PullSearch::start(&page, "a", "main");
    assert!(matches!(search.next(), SearchStep::Older));
    search.widen(&vec![pull(7, "a", "abc", false)], "a", "main");
    assert!(matches!(search.next(), SearchStep::Compare { number: 7, .. }));
    search.pass();
    assert!(matches!(search.next(), SearchStep::Ahead { number: 7 }));
    assert!(query_merged_pull_requests("acme/example", "main", Some("a")).ends_with(&strings(&["--head", "a"])));
    assert!(!query_merged_pull_requests("acme/example", "main", None).contains(&"--head".to_owned()));
}

#[test]
fn clean_verifies_missing_pr_commits_on_github_without_fetching() {
    assert!(matches!(compare_heads("a", "a", false), Comparison::Same));
    assert!(matches!(compare_heads("a", "b", true), Comparison::Local));
    assert!(matches!(compare_heads("a", "b", false), Comparison::Remote));
    assert_eq!(included_locally(&output(0, "", "")), Ok(true));
    assert_eq!(included_locally(&output(1, "", "")), Ok(false));
    assert!(included_locally(&output(128, "", "")).is_err());
    assert_eq!(included_remotely(&output(0, "ahead\n", "")), Ok(true));
    assert_eq!(included_remotely(&output(0, "identical\n", "")), Ok(true));
    assert_eq!(included_remotely(&output(0, "diverged\n", "")), Ok(false));
    assert_eq!(included_remotely(&output(0, "behind\n", "")), Ok(false));
    assert!(included_remotely(&output(0, "odd\n", "")).is_err());
    assert!(included_remotely(&output(1, "", "no\n")).is_err());
    assert_eq!(short_base("refs/remotes/origin/main"), "main");
}

#[test]
fn clean_previews_then_removes_merged_worktrees_and_keeps_branches() {
    let records = vec![record(1, "a"), record(2, "b"), record(3, "c")];
    let inspections = vec![
        Ok(merged(&[])),
        Ok(merged(&["worktree contains an unmanaged file: x", "worktree contains tracked changes: y"])),
        Err("no merged PR found for this branch into main".to_owned()),
    ];
    let cleaning = clean(&screen(), "acme/example", &records, &inspections, false, false, true, false);
    let text = cleaning.lines.join("\n");
    assert!(text.starts_with("acme/example\n"), "{text}");
    assert!(text.contains("Ready to remove (1)"), "{text}");
    assert!(text.contains("Needs --force (1)"), "{text}");
    assert!(text.contains("Skipped (1)"), "{text}");
    assert!(text.contains("merged into main; Unmanaged: x (+1 more)"), "{text}");
    assert!(text.contains("No merged PR into main"), "{text}");
    assert!(text.contains("1 merged worktree(s) kept for local changes."), "{text}");
    assert!(text.ends_with("1 candidate(s). Branches will be kept."), "{text}");
    assert!(matches!(cleaning.next, Next::Remove));
    assert_eq!(cleaning.candidates.len(), 1);

    let forced = clean(&screen(), "acme/example", &records, &inspections, true, true, false, false);
    let text = forced.lines.join("\n");
    assert!(text.contains("Ready to remove (2)"), "{text}");
    assert!(text.contains("1 candidate(s) lose the local changes shown above."), "{text}");
    assert!(matches!(forced.next, Next::Stop));
}

#[test]
fn clean_without_saved_worktrees_does_not_create_state() {
    let cleaning = clean(&screen(), "acme/example", &Vec::new(), &Vec::new(), false, false, true, true);
    assert_eq!(cleaning.lines, ["No managed worktrees in this repository."]);
    assert!(matches!(cleaning.next, Next::Stop));
}

#[test]
fn removal_needs_consent() {
    assert!(matches!(after_preview(0, false, true, true), Next::Stop));
    assert!(matches!(after_preview(1, true, true, true), Next::Stop));
    assert!(matches!(after_preview(1, false, true, false), Next::Remove));
    assert!(matches!(after_preview(1, false, false, true), Next::Confirm));
    assert!(matches!(
        after_preview(1, false, false, false),
        Next::Refuse { message }
            if message == "cleanup needs confirmation; use --dry-run to preview or --yes to remove"
    ));
}

fn candidate(changes: &[&str]) -> Candidate {
    Candidate { record: record(1, "a"), inspection: merged(changes) }
}

#[test]
fn forced_clean_keeps_changes_that_appear_after_the_preview() {
    let candidate = candidate(&["known"]);
    let seen = |changes: &[&str]| Event::Inspected(Ok(merged(changes)));
    let next = |step: Removal, event: Event| remove_candidate(step, &candidate, false, event);
    assert!(matches!(next(Removal::Recheck, seen(&["known"])), Ok(Removal::Teardown)));
    assert!(matches!(next(Removal::Recheck, seen(&[])), Ok(Removal::Teardown)));
    assert_eq!(next(Removal::Recheck, seen(&["known", "new"])).err().unwrap(), "new");
    assert_eq!(next(Removal::Again, seen(&["from teardown"])).err().unwrap(), "from teardown");
    assert!(matches!(next(Removal::Again, seen(&["known"])), Ok(Removal::Discard)));
}

#[test]
fn clean_keeps_a_candidate_whose_head_changes_after_preview_even_if_merged() {
    let candidate = candidate(&[]);
    let moved = || {
        Event::Inspected(Ok(Inspection::Merged {
            head: "other".to_owned(),
            reason: "merged into main".to_owned(),
            changes: Vec::new(),
        }))
    };
    assert_eq!(
        remove_candidate(Removal::Recheck, &candidate, false, moved()).err().unwrap(),
        "HEAD changed after preview; run wt clean again"
    );
    assert_eq!(
        remove_candidate(Removal::Again, &candidate, false, moved()).err().unwrap(),
        "HEAD changed during teardown"
    );
    assert_eq!(
        remove_candidate(Removal::Recheck, &candidate, false, Event::Inspected(Ok(Inspection::Missing)))
            .err()
            .unwrap(),
        "worktree path disappeared after preview; run wt clean again"
    );
}

#[test]
fn records_are_checked_again_before_removal() {
    let candidate = candidate(&[]);
    let next = |event: Event| remove_candidate(Removal::Lookup, &candidate, true, event);
    assert!(matches!(next(Event::Record(Ok(Some(record(1, "a"))))), Ok(Removal::Recheck)));
    assert_eq!(next(Event::Record(Ok(None))).err().unwrap(), "worktree is no longer managed");
    assert_eq!(
        next(Event::Record(Ok(Some(record(1, "b"))))).err().unwrap(),
        "worktree record changed after preview; run wt clean again"
    );
    assert!(matches!(
        remove_candidate(Removal::Recheck, &candidate, true, Event::Inspected(Ok(merged(&[])))),
        Ok(Removal::Again)
    ));
    let gone = Candidate { record: record(1, "a"), inspection: Inspection::Missing };
    assert!(matches!(
        remove_candidate(Removal::Lookup, &gone, true, Event::Record(Ok(Some(record(1, "a"))))),
        Ok(Removal::Gone)
    ));
    assert!(matches!(
        remove_candidate(Removal::Gone, &gone, true, Event::StillMissing(true)),
        Ok(Removal::Forget)
    ));
    assert_eq!(
        remove_candidate(Removal::Gone, &gone, true, Event::StillMissing(false)).err().unwrap(),
        "worktree path reappeared after preview; run wt clean again"
    );
    assert!(needs_prune(&vec![gone]));
    assert!(!needs_prune(&vec![candidate]));
}

#[test]
fn clean_rechecks_after_teardown_and_continues_after_a_failed_candidate() {
    let failed = Err("kept".to_owned());
    assert_eq!(removal_line("a", &Ok(())), "Removed a");
    assert_eq!(removal_line("b", &failed), "Skipped b: kept");
    let (complaint, line, result) = conclude(&vec![Ok(()), failed.clone(), Ok(())], &Ok(()), "1.5");
    assert_eq!(complaint, None);
    assert_eq!(line, "Removed 2 worktree(s) in 1.5s. Branches kept.");
    assert_eq!(result.err().unwrap(), "1 candidate(s) could not be removed");
    let (complaint, _, result) = conclude(&vec![Ok(())], &failed, "0.1");
    assert_eq!(complaint.as_deref(), Some("Could not prune missing worktrees: kept"));
    assert!(result.is_err());
    assert!(conclude(&vec![Ok(())], &Ok(()), "0.1").2.is_ok());
}

#[test]
fn the_base_must_resolve() {
    assert_eq!(base_argument("main"), "main^{commit}");
    assert_eq!(base_commit("main", &output(0, "abc\n", "")).unwrap(), "abc");
    let error = base_commit("main", &output(128, "", "fatal\n")).err().unwrap();
    assert!(error.starts_with("cannot resolve base main; update it before running wt clean: "), "{error}");
}

#[test]
fn work_is_shared_among_at_most_four() {
    assert_eq!(chunk_size(1), 1);
    assert_eq!(chunk_size(4), 1);
    assert_eq!(chunk_size(5), 2);
    assert_eq!(workers(false, 9), 4);
    assert_eq!(workers(false, 2), 2);
    assert_eq!(workers(true, 9), 1);
    assert_eq!(short_reason("worktree contains tracked changes: a"), "Modified: a");
}

/// What a search comes to, with the heads that hold the commit and the older pull requests.
fn search(page: &Vec<PullRequest>, older: &Vec<PullRequest>, heads: &[&str]) -> Result<Option<u64>, String> {
    let mut search = PullSearch::start(page, "a", "main");
    loop {
        let step = search.next();
        match &step {
            SearchStep::Compare { number, head } => {
                if heads.contains(&head.as_str()) {
                    return Ok(Some(*number));
                }
                search.pass();
            }
            SearchStep::Older => search.widen(older, "a", "main"),
            _ => return verdict(&step),
        }
    }
}

#[test]
fn searches_come_to_the_first_pull_request_that_holds_the_commit() {
    let page = vec![pull(9, "a", "x", false), pull(8, "b", "y", false), pull(7, "a", "y", false), pull(6, "a", "z", false)];
    let older = vec![pull(5, "a", "w", false), pull(4, "a", "v", true)];
    assert_eq!(search(&page, &older, &["y", "z"]), Ok(Some(7)));
    assert_eq!(search(&page, &older, &["w"]), Err("PR #6 is merged; local commits are not included in its merged head".to_owned()));
    assert_eq!(search(&vec![pull(8, "b", "y", false)], &older, &["y"]), Ok(None));
    let mut full = page;
    full.extend((100..196).map(|n| pull(n, "b", "y", false)));
    assert_eq!(full.len(), 100);
    assert_eq!(search(&full, &older, &["w"]), Ok(Some(5)));
    assert_eq!(search(&full, &older, &[]), Err("PR #5 is merged; local commits are not included in its merged head".to_owned()));
    assert_eq!(search(&full, &Vec::new(), &[]), Err("PR #6 is merged; local commits are not included in its merged head".to_owned()));
}
