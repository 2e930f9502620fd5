//! Setting repositories up and adding worktrees.

use wt::adding::{
    add, allow_direnv, direnv_warning, finish_setup, install_worktree, missing_warning, Adding, Reply,
};
use wt::app::{
    add_plan, base_branch, branch_name, checkout_existing, commands_text, compose_name, create_worktree,
    current_base, hook_labels, hook_result, is_pull_request, issue_arguments, issue_plan, pull_arguments, pull_plan,
    quiet_failure, record_url, repository_slug, run_hook, starting_point, Base, Hook, Issue, PullHead,
};
use wt::config::Config;
use wt::detection::{EnvTemplate, Report};
use wt::process::Output;
use wt::setup::{
    config_from_options, config_summary, confirmed, custom_config, customize_config, ensure_interactive, init,
    interactive_config, list_default, offer_setup, prompt_environment, prompt_list, prompt_optional, trust, Consent,
    InitOptions,
};
use wt::state::Record;

fn strings(list: &[&str]) -> Vec<String> {
    list.iter().map(|s| s.to_string()).collect()
}

fn record(copied: &[(&str, &str)]) -> Record {
    Record {
        repository: "acme/example".to_owned(),
        issue: Some(42),
        branch: "fix/42-a".to_owned(),
        path: "/worktrees/example/fix-42-a".to_owned(),
        ports: Vec::new(),
        copied_files: copied.iter().map(|file| (file.0.to_owned(), file.1.to_owned())).collect(),
        teardown: None,
        disposable: Vec::new(),
        config_hash: None,
    }
}

fn issue(labels: &[&str], url: &str) -> Issue {
    Issue {
        number: 42,
        title: "Handle empty input".to_owned(),
        labels: strings(labels),
        url: url.to_owned(),
    }
}

#[test]
fn labels_choose_the_kind_of_branch() {
    let url = "https://github.com/acme/example/issues/42";
    assert_eq!(branch_name(&issue(&["Bug"], url)), "fix/42-handle-empty-input");
    assert_eq!(branch_name(&issue(&["x", "enhancement"], url)), "feat/42-handle-empty-input");
    assert_eq!(branch_name(&issue(&["docs"], url)), "docs/42-handle-empty-input");
    assert_eq!(branch_name(&issue(&[], url)), "work/42-handle-empty-input");
    let plan = issue_plan("/worktrees", "acme/example", &issue(&["bug"], url));
    assert_eq!(plan.path, "/worktrees/example/fix-42-handle-empty-input");
    assert_eq!(plan.compose_name, "wt-42-acme-example");
    assert_eq!(plan.url.as_deref(), Some(url));
    assert!(!plan.fetch);
}

#[test]
fn add_opens_a_pull_request_on_its_head_branch() {
    let url = "https://github.com/acme/example/pull/7";
    assert!(is_pull_request(&issue(&[], url)));
    let head = PullHead { head_ref_name: "feat/shared".to_owned(), is_cross_repository: false };
    let plan = pull_plan("/worktrees", "acme/example", 7, url, &head).ok().unwrap();
    assert_eq!(plan.path, "/worktrees/example/feat-shared");
    assert_eq!(plan.branch, "feat/shared");
    assert!(plan.fetch);
    assert_eq!(plan.url.as_deref(), Some(url));
}

#[test]
fn add_rejects_fork_pull_requests() {
    let head = PullHead { head_ref_name: "feat/shared".to_owned(), is_cross_repository: true };
    let error =
        pull_plan("/worktrees", "acme/example", 8, "https://github.com/acme/example/pull/8", &head).err().unwrap();
    assert!(error.contains("gh pr checkout 8"), "{error}");
}

#[test]
fn projects_of_issues_differ() {
    assert_eq!(compose_name("acme/example", "42"), "wt-42-acme-example");
    assert_ne!(compose_name("acme/example", "4"), compose_name("acme/example", "42"));
}

#[test]
fn projects_of_branches_differ() {
    assert_eq!(compose_name("acme/example", "a-b"), "wt-a-b-acme-example");
    assert_eq!(compose_name("acme/example", "a/b"), "wte620c3190468cf61-a-b-acme-example");
    let names: Vec<String> = ["a-b", "a/b", "a_b", "a--b", "A-b", "a.b", "a-b-", "42-a", "a"]
        .iter()
        .map(|branch| compose_name("acme/example", branch))
        .collect();
    for (i, name) in names.iter().enumerate() {
        assert!(!names[..i].contains(name), "{name}");
        assert!(name.starts_with("wt") && name.len() <= 63, "{name}");
        assert!(name.chars().all(|c| c.is_ascii_lowercase() || c.is_ascii_digit() || c == '-'), "{name}");
        assert!(!name.contains("--") && !name.ends_with('-'), "{name}");
    }
    let long = compose_name("acme/example", &"x".repeat(100));
    assert_eq!(long.len(), 63);
    assert_ne!(long, compose_name("acme/example", &"x".repeat(101)));
    assert_eq!(compose_name(&format!("acme/{}", "y".repeat(80)), "7").len(), 63);
}

#[test]
fn add_tracks_an_existing_remote_branch() {
    let plan = add_plan("/worktrees", "acme/example", None, "feat/a");
    assert_eq!(
        checkout_existing(&plan, true, true).unwrap(),
        ["worktree", "add", "/worktrees/example/feat-a", "feat/a"]
    );
    assert_eq!(
        checkout_existing(&plan, false, true).unwrap(),
        ["worktree", "add", "--track", "-b", "feat/a", "/worktrees/example/feat-a", "origin/feat/a"]
    );
    assert!(checkout_existing(&plan, false, false).is_none());
    assert_eq!(
        create_worktree(&plan, "origin/main"),
        ["worktree", "add", "-b", "feat/a", "/worktrees/example/feat-a", "origin/main"]
    );
}

#[test]
fn add_falls_back_to_a_local_base_branch_missing_on_origin() {
    let failed = || Err("fatal".to_owned());
    let listed = |code| Output { code: Some(code), stdout: Vec::new(), stderr: Vec::new() };
    assert_eq!(starting_point("main", &Ok(()), &listed(0), false).unwrap(), "origin/main");
    assert_eq!(starting_point("main", &failed(), &listed(2), true).unwrap(), "main");
    let error = starting_point("main", &failed(), &listed(2), false).err().unwrap();
    assert_eq!(error, "base branch main is not on origin or local: fatal");
}

#[test]
fn a_base_that_cannot_be_fetched_is_not_taken_from_here() {
    let fetched = Err("network is down".to_owned());
    for code in [Some(0), Some(128), None] {
        let listed = Output { code, stdout: Vec::new(), stderr: Vec::new() };
        let error = starting_point("main", &fetched, &listed, true).err().unwrap();
        assert_eq!(error, "fetch base branch main from origin: network is down");
    }
}

#[test]
fn new_branches_start_at_the_base() {
    let config = Config { base: Some("develop".to_owned()), ..Config::default() };
    assert!(matches!(base_branch(&config, None), Base::Configured(base) if base == "develop"));
    assert!(matches!(base_branch(&Config::default(), Some(42)), Base::Default));
    assert!(matches!(base_branch(&Config::default(), None), Base::Current));
    assert_eq!(current_base("main").unwrap(), "main");
    assert_eq!(
        current_base("").err().unwrap(),
        "cannot create a branch from detached HEAD; configure wt.base"
    );
}

#[test]
fn repositories_are_named_by_their_remote() {
    let output = Output {
        code: Some(0),
        stdout: b"git@github.com:Acme/Example.git\n".to_vec(),
        stderr: Vec::new(),
    };
    assert_eq!(repository_slug(&output).unwrap(), "acme/example");
    let failed = Output { code: Some(1), stdout: Vec::new(), stderr: b"no\n".to_vec() };
    assert!(repository_slug(&failed).err().unwrap().starts_with("read origin remote"));
    assert_eq!(record_url(&record(&[])).as_deref(), Some("https://github.com/acme/example/issues/42"));
    assert!(issue_arguments(42, "acme/example").contains(&"42".to_owned()));
    assert!(pull_arguments(7, "acme/example").contains(&"headRefName,isCrossRepository".to_owned()));
}

#[test]
fn adding_follows_its_steps() {
    let done = || Reply::Finished(Ok(()));
    let next = |step: Adding, reply: Reply| add(step, "/w", reply).ok().unwrap();
    assert!(matches!(next(Adding::Look, Reply::Record(Ok(None), false)), Adding::OfferSetup));
    assert!(matches!(next(Adding::Look, Reply::Record(Ok(Some(record(&[]))), false)), Adding::OfferSetup));
    assert!(matches!(next(Adding::OfferSetup, done()), Adding::Plan));
    assert!(matches!(next(Adding::Plan, done()), Adding::Reuse));
    assert!(matches!(next(Adding::Reuse, Reply::Taken(Ok(false))), Adding::Trust));
    assert!(matches!(next(Adding::Trust, done()), Adding::Install));
    assert!(matches!(next(Adding::Install, done()), Adding::AllowDirenv));
    assert!(matches!(next(Adding::AllowDirenv, Reply::Finished(Err("no".to_owned()))), Adding::Bootstrap));
    assert!(matches!(next(Adding::Bootstrap, done()), Adding::Complete));
    assert!(matches!(next(Adding::Complete, done()), Adding::Ready));
}

#[test]
fn existing_add_does_not_call_gh() {
    assert!(matches!(
        add(Adding::Look, "/w", Reply::Record(Ok(Some(record(&[]))), true)),
        Ok(Adding::Existing)
    ));
    assert!(matches!(add(Adding::Reuse, "/w", Reply::Taken(Ok(true))), Ok(Adding::Existing)));
}

#[test]
fn failed_bootstrap_streams_diagnostics_and_keeps_the_worktree() {
    let failed = Reply::Finished(Err("bootstrap command failed (exit status: 1)".to_owned()));
    assert_eq!(
        add(Adding::Bootstrap, "/w", failed).err().unwrap(),
        "bootstrap failed; worktree kept at /w: bootstrap command failed (exit status: 1)"
    );
    assert_eq!(
        hook_result("bootstrap", false, "exit status: 1").err().unwrap(),
        "bootstrap command failed (exit status: 1)"
    );
    assert!(hook_result("bootstrap", true, "exit status: 0").is_ok());
    assert!(matches!(run_hook(false, true, false), Hook::Capture));
    assert!(matches!(run_hook(false, false, true), Hook::Capture));
    assert!(matches!(run_hook(true, true, false), Hook::Stream { echo: true }));
    assert!(matches!(run_hook(false, false, false), Hook::Stream { echo: false }));
    assert_eq!(hook_labels("bootstrap").0, "Setting up environment");
    assert_eq!(hook_labels("teardown").1, "Teardown complete");
    assert_eq!(quiet_failure("make", &b"boom \xff\n\n".to_vec(), "failed"), "make\nboom \u{fffd}: failed");
}

#[test]
fn failed_setup_rolls_back_the_worktree_and_can_reuse_the_branch() {
    assert_eq!(install_worktree("no port", &Ok(())), "no port");
    assert_eq!(install_worktree("no port", &Err("busy".to_owned())), "no port; rollback also failed: busy");
    let failed = Reply::Finished(Err("no port".to_owned()));
    assert_eq!(add(Adding::Install, "/w", failed).err().unwrap(), "no port");
}

#[test]
fn bootstrap_generated_copy_paths_are_rewritten_and_managed() {
    let files = vec![("certs/b.pem".to_owned(), "1".to_owned()), (".env".to_owned(), "2".to_owned())];
    let done = finish_setup(Some(record(&[(".env", "old"), ("z", "9")])), &files).ok().unwrap();
    assert_eq!(
        done.copied_files,
        [
            (".env".to_owned(), "2".to_owned()),
            ("certs/b.pem".to_owned(), "1".to_owned()),
            ("z".to_owned(), "9".to_owned()),
        ]
    );
    assert_eq!(
        finish_setup(None, &files).err().unwrap(),
        "worktree record disappeared during setup"
    );
    assert!(missing_warning("a").ends_with(": a"));
}

#[test]
fn direnv_is_allowed_where_the_checkout_is() {
    assert!(allow_direnv(true, Some(true)));
    assert!(!allow_direnv(true, Some(false)));
    assert!(!allow_direnv(true, None));
    assert!(!allow_direnv(false, Some(true)));
    assert_eq!(direnv_warning("no"), "no; run direnv allow in the worktree");
}

#[test]
fn options_become_settings() {
    let mut options = InitOptions::none();
    options.bootstrap = Some("".to_owned());
    options.teardown = Some("make down".to_owned());
    options.copies = strings(&["a"]);
    let config = config_from_options(options, "main");
    assert_eq!(config.base.as_deref(), Some("main"));
    assert_eq!(config.bootstrap, None);
    assert_eq!(config.teardown.as_deref(), Some("make down"));
    assert_eq!(config.copies, ["a"]);
    let mut options = InitOptions::none();
    options.base = Some("develop".to_owned());
    assert_eq!(config_from_options(options, "main").base.as_deref(), Some("develop"));
}

#[test]
fn answers_are_read_as_lists() {
    assert_eq!(prompt_list(" a, b ,, c"), ["a", "b", "c"]);
    assert!(prompt_list("").is_empty());
    assert_eq!(list_default(&strings(&["a", "b"])), "a, b");
    assert_eq!(prompt_optional("  make  ").as_deref(), Some("make"));
    assert_eq!(prompt_optional("  "), None);
    let environment = prompt_environment("", "PORT:3000, API", "x");
    assert_eq!(environment.env, None);
    assert_eq!(environment.ports, ["PORT:3000", "API"]);
    let config = custom_config("main".to_owned(), environment, true, None, None, strings(&["target"]));
    assert_eq!(config.copies, ["x"]);
    assert!(config.compose);
}

#[test]
fn templates_are_used_for_the_chosen_env_file_only() {
    let template =
        || Some(EnvTemplate { source: ".env.example".to_owned(), target: ".env.local".to_owned() });
    let config = Config { env: Some(".env.local".to_owned()), ..Config::default() };
    assert!(customize_config(&config, template()).is_some());
    let config = Config { env: Some(".env".to_owned()), ..Config::default() };
    assert!(customize_config(&config, template()).is_none());
    assert!(customize_config(&Config::default(), template()).is_none());
}

#[test]
fn the_summary_shows_settings_changes_and_warnings() {
    let report = Report {
        config: Config { base: Some("main".to_owned()), copies: strings(&["a", "b"]), ..Config::default() },
        development: strings(&["Vite: fixed 1", "Wrangler: fixed 2"]),
        notices: Vec::new(),
        warnings: strings(&["careful"]),
        env_template: None,
    };
    assert_eq!(
        config_summary("/worktrees", &report, &strings(&["Ignore /.wt.env"])),
        "Worktree root  /worktrees\nBase branch    main\nEnvironment    Not found\nOther files    a, b\nDevelopment    Vite: fixed 1\n               Wrangler: fixed 2\nDocker Compose No\nBootstrap      None\nTeardown       None\nDisposable     None\n\nRepository setup\n• Ignore /.wt.env\nCommit these files on the base branch before creating a worktree.\n\nWarnings\n• careful"
    );
    assert_eq!(interactive_config(&report.warnings), ("Use these settings anyway? (No to customize)".to_owned(), false));
    assert_eq!(interactive_config(&Vec::new()), ("Use these settings? (No to customize)".to_owned(), true));
}

#[test]
fn init_writes_config_and_trusted_bootstrap_runs_in_the_new_worktree() {
    let config = Config {
        base: Some("main".to_owned()),
        bootstrap: Some("make".to_owned()),
        ..Config::default()
    };
    let saved = init(&config, "/repo").ok().unwrap();
    assert_eq!(saved.file.path, "/repo/.wtconfig");
    assert_eq!(saved.hash.as_deref(), Some("[\"make\",null]"));
    assert_eq!(saved.message, "Saved .wtconfig and trusted its commands");
    assert_eq!(init(&Config::default(), "/repo").ok().unwrap().message, "Saved .wtconfig");
    let broken = Config { compose: true, ..Config::default() };
    assert_eq!(init(&broken, "/repo").err().unwrap(), "wt.compose requires --env");
}

#[test]
fn trust_accepts_a_reviewed_config_without_rewriting_it() {
    let config = Config { bootstrap: Some("make".to_owned()), ..Config::default() };
    assert!(matches!(trust(&config, true, false), Ok(Consent::Given { hash }) if hash == "[\"make\",null]"));
    assert!(matches!(
        trust(&config, false, true),
        Ok(Consent::Ask { commands, .. }) if commands == "bootstrap: make\nteardown: (none)"
    ));
    assert_eq!(
        trust(&config, false, false).err().unwrap(),
        "trust confirmation needs a terminal; review the file and pass --yes"
    );
    assert_eq!(
        trust(&Config::default(), true, true).err().unwrap(),
        ".wtconfig has no bootstrap or teardown commands to trust"
    );
    assert_eq!(confirmed(false).err().unwrap(), "commands were not trusted");
    assert!(confirmed(true).is_ok());
    assert_eq!(commands_text(&config), "bootstrap: make\nteardown: (none)");
    assert!(offer_setup(false, true) && !offer_setup(true, true) && !offer_setup(false, false));
    assert!(ensure_interactive(true).is_ok() && ensure_interactive(false).is_err());
}
