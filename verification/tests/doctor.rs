//! What is found wrong with a worktree.

use wt::doctor::{
    check_direnv, check_private_files, check_shadowed_ports, checkout_of, direnv_exports, ensure_worktree,
    exported_variables, is_noise, looks_like_configuration, own_record, run,
};
use wt::process::Output;
use wt::state::Record;
use wt::ui::Screen;

fn strings(list: &[&str]) -> Vec<String> {
    list.iter().map(|s| s.to_string()).collect()
}

fn pairs(list: &[(&str, &str)]) -> Vec<(String, String)> {
    list.iter().map(|pair| (pair.0.to_owned(), pair.1.to_owned())).collect()
}

fn record() -> Record {
    Record {
        repository: "acme/example".to_owned(),
        issue: Some(42),
        branch: "fix/42-a".to_owned(),
        path: "/worktrees/a".to_owned(),
        ports: vec![("API_PORT".to_owned(), 8081), ("PORT".to_owned(), 3001)],
        copied_files: pairs(&[(".env", "abc"), ("notes.local.md", "def")]),
        teardown: None,
        disposable: strings(&["generated"]),
        config_hash: None,
    }
}

fn screen() -> Screen {
    Screen { stdout: false, stderr: false, dumb: false, no_color: false, width: 80 }
}

fn listed(stdout: &[u8]) -> Output {
    Output { code: Some(0), stdout: stdout.to_vec(), stderr: Vec::new() }
}

#[test]
fn doctor_reports_missing_private_files_and_shadowed_ports() {
    let output = listed(
        b"certs/\0uploads/\0generated/\0node_modules/\0.env\0compose.local.yml\0server\0debug.log\0script.sh\0",
    );
    let findings = check_private_files(
        &record(),
        &output,
        &strings(&["server", "script.sh"]),
        &strings(&[".env"]),
    )
    .ok()
    .unwrap();
    assert_eq!(findings.len(), 2);
    assert_eq!(findings[0].title, "3 ignored file(s) of the main checkout are missing here");
    assert_eq!(findings[0].details, ["certs/", "compose.local.yml", "script.sh"]);
    assert_eq!(findings[1].title, "1 managed file(s) were deleted from this worktree");
    assert_eq!(findings[1].details, ["notes.local.md"]);

    let findings = check_shadowed_ports(
        &record(),
        &pairs(&[("API_PORT", "8080"), ("PORT", "3001")]),
        true,
        Some(true),
        &pairs(&[("API_PORT", "8081"), ("OTHER", "1"), ("PORT", "3000")]),
    );
    assert_eq!(findings.len(), 1);
    assert_eq!(findings[0].title, "2 leased port(s) are shadowed by the environment");
    assert_eq!(
        findings[0].details,
        [
            "API_PORT=8080 in this shell (worktree: 8081)",
            "PORT=3000 from .envrc (worktree: 3001)",
        ]
    );
}

#[test]
fn environments_that_are_not_evaluated_shadow_nothing() {
    let exports = pairs(&[("PORT", "3000")]);
    assert!(check_shadowed_ports(&record(), &Vec::new(), true, Some(false), &exports).is_empty());
    assert!(check_shadowed_ports(&record(), &Vec::new(), false, Some(true), &exports).is_empty());
    assert!(check_shadowed_ports(&record(), &Vec::new(), true, None, &exports).is_empty());
}

#[test]
fn a_blocked_environment_is_reported() {
    let findings = check_direnv(true, Some(false));
    assert_eq!(findings[0].hint.as_deref(), Some("run: direnv allow"));
    assert!(check_direnv(true, Some(true)).is_empty());
    assert!(check_direnv(true, None).is_empty());
    assert!(check_direnv(false, Some(false)).is_empty());
}

#[test]
fn findings_fail_the_check() {
    let (lines, result) = run(&screen(), &Vec::new());
    assert_eq!(lines, ["No problems found."]);
    assert!(result.is_ok());
    let (lines, result) = run(&screen(), &check_direnv(true, Some(false)));
    assert_eq!(
        lines,
        [
            "! direnv has not allowed .envrc, so leased ports in .wt.env are not loaded",
            "    run: direnv allow",
        ]
    );
    assert_eq!(result.err().unwrap(), "1 problem(s) found");
}

#[test]
fn listing_failures_are_reported_in_context() {
    let output = Output { code: Some(128), stdout: Vec::new(), stderr: b"fatal\n".to_vec() };
    assert_eq!(
        check_private_files(&record(), &output, &Vec::new(), &Vec::new()).err().unwrap(),
        "list ignored files in the main checkout: git failed: fatal"
    );
}

#[test]
fn caches_and_generated_files_are_noise() {
    for path in ["node_modules", "a/target/b", ".DS_Store", "x.log", "coverage.xml", ".cache-loader", ""] {
        assert!(is_noise(path), "{path}");
    }
    for path in [".env", "certs", "compose.local.yml"] {
        assert!(!is_noise(path), "{path}");
    }
    assert!(looks_like_configuration("a/TLS"));
    assert!(!looks_like_configuration("certs/uploads"));
}

#[test]
fn the_worktree_must_be_managed_and_not_the_main_checkout() {
    assert_eq!(checkout_of("/repo/.git").unwrap(), "/repo");
    assert_eq!(checkout_of("/").err().unwrap(), "git common directory has no parent");
    assert!(ensure_worktree("/worktrees/a", "/repo").is_ok());
    assert_eq!(
        ensure_worktree("/repo", "/repo/").err().unwrap(),
        "run wt doctor inside a worktree created by wt, not in the main checkout"
    );
    let records = vec![record()];
    let found = |resolved: Option<&str>, place: &str, place_resolved: Option<&str>| {
        own_record(
            &records,
            &vec![resolved.map(str::to_owned)],
            "Acme/Example",
            place,
            &place_resolved.map(str::to_owned),
        )
    };
    assert!(found(Some("/private/a"), "/elsewhere", Some("/private/a")).is_ok());
    assert!(found(None, "/worktrees/a", Some("/private/a")).is_ok());
    assert_eq!(
        found(Some("/private/a"), "/worktrees/a", Some("/private/b")).err().unwrap(),
        "this worktree was not created by wt"
    );
}

#[test]
fn exports_of_direnv_are_read_without_what_it_unsets() {
    let exports = direnv_exports(&listed(br#"{"PORT":"8080","API_PORT":"9","OLD":null,"A\u00e9":"x y"}"#)).unwrap();
    assert_eq!(exports, pairs(&[("API_PORT", "9"), ("A\u{e9}", "x y"), ("PORT", "8080")]));
    assert_eq!(direnv_exports(&listed(b"")).unwrap(), Vec::new());
    let failed = Output { code: Some(1), stdout: b"{".to_vec(), stderr: Vec::new() };
    assert_eq!(direnv_exports(&failed).unwrap(), Vec::new());
    for broken in [&b"{"[..], b"[]", br#"{"A":1}"#, b"\xff"] {
        assert_eq!(direnv_exports(&listed(broken)).err().unwrap(), "parse direnv export");
    }
    let members = vec![("B".to_owned(), None), ("A".to_owned(), Some("1".to_owned()))];
    assert_eq!(exported_variables(members), pairs(&[("A", "1")]));
}
