//! Tables, progress and prompts.

use wt::app::{displayed_branch, list, porcelain, sort_records, Listed};
use wt::process::Output;
use wt::state::Record;
use wt::ui::{
    display, display_path, divider, format_footer, format_header, format_intro, format_outro, heading, indented,
    progress, ready, spinner, state_symbol, terminal_width, worktree_table, Display, Prompt, Screen,
};

fn screen(terminal: bool, width: usize) -> Screen {
    Screen { stdout: terminal, stderr: terminal, dumb: false, no_color: false, width }
}

fn record(repository: &str, issue: Option<u64>, branch: &str) -> Record {
    Record {
        repository: repository.to_owned(),
        issue,
        branch: branch.to_owned(),
        path: format!("/home/me/worktrees/example/{}", branch.replace('/', "-")),
        ports: Vec::new(),
        copied_files: Vec::new(),
        teardown: None,
        disposable: Vec::new(),
        config_hash: None,
    }
}

#[test]
fn tables_fit_narrow_terminals_and_align_unicode_branches() {
    let branch = "feat/füße-界界界-long-branch-name-for-a-narrow-terminal";
    let listed = Listed { record: record("acme/example", None, branch), branch: branch.to_owned() };
    let narrow = screen(false, 80);
    for lines in [
        list(&narrow, Some("/nowhere"), &vec![listed]),
        worktree_table(
            &narrow,
            "acme/example",
            &vec![(None, branch.to_owned(), "merged into main".to_owned())],
            "REASON",
        ),
    ] {
        let text = lines.join("\n");
        for line in text.lines() {
            assert!(console::measure_text_width(line) <= 80, "{line}");
        }
        let lines = text.lines().filter(|line| line.contains(" | ")).collect::<Vec<_>>();
        assert_eq!(lines.len(), 2, "{text}");
        let widths = |line: &str| {
            line.split(" | ").take(2).map(console::measure_text_width).collect::<Vec<_>>()
        };
        assert_eq!(widths(lines[0]), widths(lines[1]));
        assert!(text.contains('…'));
    }
    assert!(porcelain(&vec![record("acme/example", None, branch)])[0].contains(branch));
}

#[test]
fn issues_link_to_their_pages_on_a_terminal_only() {
    let rows = vec![(Some(42), "fix/42-a".to_owned(), "/w".to_owned())];
    let linked = worktree_table(&screen(true, 80), "acme/example", &rows, "PATH").join("\n");
    assert!(linked.contains("https://github.com/acme/example/issues/42"), "{linked}");
    let plain = worktree_table(&screen(false, 80), "acme/example", &rows, "PATH").join("\n");
    assert!(!plain.contains('\u{1b}'), "{plain}");
    assert!(plain.contains("42"), "{plain}");
}

#[test]
fn list_reports_current_branch_without_changing_managed_identity() {
    let known = record("acme/example", None, "original");
    let output = Output { code: Some(0), stdout: b"changed\n".to_vec(), stderr: Vec::new() };
    let shown = displayed_branch(&known, true, Some(&output));
    assert_eq!(shown, "changed (managed: original)");
    assert_eq!(
        porcelain(&vec![known.clone()]),
        ["-\toriginal\t/home/me/worktrees/example/original"]
    );
    let lines = list(&screen(false, 120), None, &vec![Listed { record: known, branch: shown }]);
    assert!(lines.join("\n").contains("changed (managed: original)"));
}

#[test]
fn list_labels_detached_missing_and_unavailable_worktrees() {
    let known = record("acme/example", None, "original");
    let output = |code: i32, stdout: &str| Output {
        code: Some(code),
        stdout: stdout.as_bytes().to_vec(),
        stderr: Vec::new(),
    };
    assert_eq!(displayed_branch(&known, true, Some(&output(0, "HEAD\n"))), "(detached) (managed: original)");
    assert_eq!(displayed_branch(&known, false, None), "(missing) (managed: original)");
    assert_eq!(displayed_branch(&known, true, Some(&output(128, ""))), "(unavailable) (managed: original)");
    assert_eq!(displayed_branch(&known, true, Some(&output(0, "original\n"))), "original");
}

#[test]
fn worktrees_are_listed_by_repository_and_issue() {
    let records = vec![
        record("b/b", Some(2), "two"),
        record("a/a", None, "branch"),
        record("a/a", Some(10), "ten"),
        record("a/a", Some(9), "nine"),
    ];
    let order: Vec<String> = sort_records(&records).into_iter().map(|record| record.branch).collect();
    assert_eq!(order, ["nine", "ten", "branch", "two"]);
    assert_eq!(list(&screen(false, 80), None, &Vec::new()), ["No managed worktrees."]);
}

#[test]
fn paths_are_shown_below_the_home_directory() {
    assert_eq!(display_path("/home/me/a", Some("/home/me")), "~/a");
    assert_eq!(display_path("/home/other", Some("/home/me")), "/home/other");
    assert_eq!(display_path("/home/me/a", None), "/home/me/a");
}

#[test]
fn the_width_comes_from_the_terminal_or_the_environment() {
    assert_eq!(terminal_width(Some(90), Some("80")), 90);
    assert_eq!(terminal_width(None, Some("80")), 80);
    assert_eq!(terminal_width(None, Some("wide")), 140);
    assert_eq!(terminal_width(None, None), 140);
}

#[test]
fn colors_are_used_on_terminals_that_want_them() {
    let color = screen(true, 80);
    assert_eq!(color.style("a", 32), "\u{1b}[32ma\u{1b}[0m");
    let plain = Screen { no_color: true, ..screen(true, 80) };
    assert_eq!(plain.style("a", 32), "a");
    let dumb = Screen { dumb: true, ..screen(true, 80) };
    assert_eq!(dumb.style("a", 32), "a");
    let redirected = Screen { stdout: false, ..screen(true, 80) };
    assert_eq!(redirected.stdout_style("a", 32), "a");
    assert!(redirected.interactive() && !dumb.interactive());
}

#[test]
fn progress_is_shown_line_by_line() {
    let plain = Screen { no_color: true, ..screen(true, 80) };
    assert_eq!(wt::ui::line(&plain, "◇", "Worktree created", "0.1", 32), "│ ◇ Worktree created         0.1s");
    assert!(progress(&plain, true, "Creating", "Created", "0.1").contains("Created"));
    assert!(progress(&plain, false, "Creating", "Created", "0.1").contains("Creating"));
    assert!(spinner(&plain, 5, "Creating", "0.1").contains('◐'));
    assert!(matches!(display(&plain, true), Display::Hidden));
    assert!(matches!(display(&plain, false), Display::Animated));
    assert!(matches!(display(&screen(false, 80), false), Display::Hidden | Display::Plain));
}

#[test]
fn ready_worktrees_show_their_page() {
    let url = Some("https://github.com/acme/example/issues/42");
    assert_eq!(ready(&screen(false, 80), "1.0", false, url), ["https://github.com/acme/example/issues/42"]);
    let plain = Screen { no_color: true, ..screen(true, 80) };
    assert_eq!(ready(&plain, "1.0", true, None), ["│\n└ Created · setup skipped in 1.0s\n"]);
    assert_eq!(heading(&screen(false, 80), "example", "42"), None);
    assert_eq!(heading(&plain, "example", "42").as_deref(), Some("\n┌ example  42\n│"));
}

#[test]
fn prompts_share_the_rail() {
    let plain = Screen { no_color: true, ..screen(true, 80) };
    assert_eq!(format_intro(&plain, " wt setup "), "\n┌ wt setup\n│\n");
    assert_eq!(format_outro(&plain, "Saved"), "└ ◇ Saved\n");
    assert_eq!(format_header(&plain, &Prompt::Active, "a\nb"), "│ ? a\n│   b\n");
    assert_eq!(format_footer(&plain, &Prompt::Cancelled, ""), "│ × Cancelled\n");
    assert_eq!(format_footer(&plain, &Prompt::Failed("bad".to_owned()), ""), "│   bad\n");
    assert_eq!(format_footer(&plain, &Prompt::Active, ""), "");
    assert_eq!(format_footer(&plain, &Prompt::Submitted, "note"), "│   note\n");
    assert_eq!(state_symbol(&plain, &Prompt::Submitted), "◇");
    assert_eq!(divider(&Prompt::Active), " / ");
    assert_eq!(divider(&Prompt::Submitted), "");
    assert_eq!(indented("a\nb"), "│   a\n│   b\n");
}

#[test]
fn plain_values_stand_in_columns() {
    let rows = vec![
        (Some(1), "a".to_owned(), "x".to_owned()),
        (None, "feature".to_owned(), "yy".to_owned()),
    ];
    assert_eq!(
        worktree_table(&screen(false, 80), "acme/example", &rows, "REASON"),
        [
            "ISSUE | BRANCH  | REASON",
            "------+---------+-------",
            "#1    | a       | x",
            "-     | feature | yy",
        ]
    );
}

#[test]
fn plain_tables_fit_every_terminal_that_is_wide_enough() {
    let rows = vec![
        (Some(42), "fix/a-very-long-branch-name-that-is-cut".to_owned(), "/home/me/worktrees/example/long-name".to_owned()),
        (None, "b".to_owned(), "~/w".to_owned()),
        (Some(u64::MAX), "c…d".to_owned(), "no slash in a rather long detail".to_owned()),
    ];
    for width in 29..120 {
        for heading in ["PATH", "REASON"] {
            let lines = worktree_table(&screen(false, width), "acme/example", &rows, heading);
            assert_eq!(lines.len(), 5);
            for line in &lines[1..] {
                assert!(line.chars().count() <= width, "{width}: {line}");
                assert_eq!(console::measure_text_width(line), line.chars().count());
            }
        }
    }
    let lines = worktree_table(&screen(false, 60), "acme/example", &rows[..2].to_vec(), "PATH");
    assert_eq!(lines[0], "ISSUE | BRANCH                   | PATH");
    assert_eq!(lines[2], "#42   | fix/a-very-long-branch-… | …/long-name");
    assert_eq!(lines[3], "-     | b                        | ~/w");
}
