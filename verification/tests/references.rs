//! References to issues and branches, and the names made from them.

use wt::app::{add_target, github_slug, issue_number, slugify, AddTarget};
use wt::process::Output;

fn accepted(name: &str) -> Output {
    Output { code: Some(0), stdout: format!("{name}\n").into_bytes(), stderr: Vec::new() }
}

fn refused() -> Output {
    Output { code: Some(1), stdout: Vec::new(), stderr: Vec::new() }
}

#[test]
fn parses_github_clone_urls() {
    assert_eq!(github_slug("https://github.com/acme/example.git").unwrap(), "acme/example");
    assert_eq!(github_slug("git@github.com:acme/example.git").unwrap(), "acme/example");
    assert_eq!(github_slug("ssh://git@github.com/acme/example.git").unwrap(), "acme/example");
    assert_eq!(github_slug("https://github.com/Acme/Example.git").unwrap(), "acme/example");
    assert!(github_slug("https://example.com/acme/example.git").is_err());
}

#[test]
fn issue_urls_match_repository_names_case_insensitively() {
    assert_eq!(issue_number("https://github.com/Acme/Example/issues/42", "acme/example").unwrap(), 42);
    assert!(issue_number("https://github.com/acme/other/issues/42", "acme/example").is_err());
    assert_eq!(issue_number("https://github.com/Acme/Example/pull/7", "acme/example").unwrap(), 7);
    assert!(issue_number("https://github.com/acme/other/pull/7", "acme/example").is_err());
}

#[test]
fn addresses_of_any_repository_mean_their_numbers() {
    for slug in ["acme/issues", "acme/pull", "issues/pull", "a/b"] {
        for spelled in [slug.to_owned(), slug.to_uppercase()] {
            assert_eq!(issue_number(&format!("https://github.com/{spelled}/issues/42"), slug).unwrap(), 42);
            assert_eq!(issue_number(&format!("https://github.com/{spelled}/pull/7"), slug).unwrap(), 7);
        }
    }
    assert_eq!(issue_number("42", "acme/issues").unwrap(), 42);
    assert_eq!(
        issue_number("https://github.com/acme/issues/pull/x", "acme/issues").err().unwrap(),
        "parse issue number from URL"
    );
    assert_eq!(
        issue_number("https://github.com/acme/example/commit/7", "acme/example").err().unwrap(),
        "expected a number or a https://github.com/acme/example/issues/<number> or /pull/<number> URL"
    );
}

#[test]
fn non_issue_references_are_branch_names() {
    assert!(matches!(
        add_target("feat/local-work", "acme/example", &accepted("feat/local-work")).unwrap(),
        AddTarget::Branch(branch) if branch == "feat/local-work"
    ));
    assert!(add_target("bad branch", "acme/example", &refused()).is_err());
}

#[test]
fn slugs_are_ascii_and_transliterate_german_letters() {
    let slug = slugify("Kiosk: Schulhof-Wahl bei laufenden Blöcken bucht sonst Freispiel");
    assert!(slug.starts_with("kiosk-schulhof-wahl-bei-laufenden-bloecken-bucht"));
    assert!(slug.is_ascii());
    assert_eq!(slugify("Größe ÄÖÜ"), "groesse-aeoeue");
    assert_eq!(slugify("Café naïve"), "caf-na-ve");
    assert_eq!(slugify("日本"), "issue");
    assert_eq!(slugify("A -- b__C  "), "a-b-c");
    assert_eq!(slugify("\u{212A}elvin"), "kelvin");
    let slug = slugify(&"ab ".repeat(40));
    assert!(slug.len() <= 48 && !slug.contains("--"), "{slug}");
    assert_eq!(slugify(&slug), slug);
}
