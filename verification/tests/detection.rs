//! What is detected in repositories.

use wt::config::{Config, FileText};
use wt::detection::{
    add_compose_notices, append_line, apply_changes, candidates_for_disposal, contains_bytes, detect,
    detect_bootstrap, devbox_uses_worktree_gopath, files_to_find, found_paths, ignored_env_files, ignored_paths,
    is_env_candidate, is_runtime_file, listed_paths, localhost_needles, package_manager, planned_changes,
    texts_to_read, Match, Package, PackageAt, Project,
};
use wt::process::Output;
use wt::servers::{compose_variables_in_line, port_argument, wrangler_port, PortArgument};

fn strings(list: &[&str]) -> Vec<String> {
    list.iter().map(|s| s.to_string()).collect()
}

fn names(value: Option<&serde_json::Value>) -> Vec<String> {
    value
        .and_then(|value| value.as_object())
        .map(|map| map.keys().cloned().collect())
        .unwrap_or_default()
}

fn package(contents: &str) -> Package {
    let value: serde_json::Value = serde_json::from_str(contents).unwrap();
    Package {
        package_manager: value.get("packageManager").and_then(|field| field.as_str()).map(str::to_owned),
        scripts: value
            .get("scripts")
            .and_then(|scripts| scripts.as_object())
            .map(|map| map.iter().map(|(name, script)| (name.clone(), script.as_str().unwrap().to_owned())).collect())
            .unwrap_or_default(),
        dependencies: names(value.get("dependencies")),
        dev_dependencies: names(value.get("devDependencies")),
    }
}

/// A repository with these files, all of them kept by Git.
fn project(files: &[(&str, &str)]) -> Project {
    let mut files = files.to_vec();
    files.sort();
    Project {
        versioned: files.iter().map(|file| file.0.to_owned()).collect(),
        env_files: Vec::new(),
        texts: files
            .iter()
            .map(|file| FileText { path: file.0.to_owned(), contents: file.1.to_owned() })
            .collect(),
        files: files.iter().map(|file| file.0.to_owned()).collect(),
        existing: files.iter().map(|file| file.0.to_owned()).collect(),
        packages: files
            .iter()
            .filter(|file| file.0.ends_with("package.json"))
            .map(|file| PackageAt {
                root: file.0.trim_end_matches("package.json").trim_end_matches('/').to_owned(),
                package: package(file.1),
            })
            .collect(),
        ignored: Vec::new(),
        matches: Vec::new(),
        direnv: true,
    }
}

fn node_files(dev: &str) -> Vec<(String, String)> {
    vec![
        (
            ".gitignore".to_owned(),
            ".env.local\nnode_modules\n.next\nout\nnext-env.d.ts\n*.tsbuildinfo\ncoverage\n".to_owned(),
        ),
        ("README.md".to_owned(), "cp .env.example .env.local\n".to_owned()),
        (".env.example".to_owned(), "TOKEN=replace-me\n".to_owned()),
        ("bun.lock".to_owned(), "".to_owned()),
        ("next.config.ts".to_owned(), "export default { output: 'export' };\n".to_owned()),
        (
            "package.json".to_owned(),
            format!(r#"{{"scripts":{{"dev":"{dev}"}},"dependencies":{{"next":"1"}}}}"#),
        ),
    ]
}

fn node_project(dev: &str, more: &[(&str, &str)]) -> Project {
    let files = node_files(dev);
    let mut all: Vec<(&str, &str)> = files.iter().map(|file| (file.0.as_str(), file.1.as_str())).collect();
    all.extend(more);
    let mut project = project(&all);
    let ignored = ["node_modules", ".next", "out", "next-env.d.ts", "tsconfig.tsbuildinfo", "coverage"];
    project.ignored =
        candidates_for_disposal(&project).into_iter().filter(|path| ignored.contains(&path.as_str())).collect();
    project
}

fn found(path: &str, contents: &str) -> Match {
    Match { path: path.to_owned(), contents: contents.as_bytes().to_vec() }
}

#[test]
fn parses_supported_port_arguments() {
    assert!(matches!(port_argument("dev -p 3001"), Some(PortArgument::Number(3001))));
    assert!(
        matches!(port_argument("dev --port=$PORT"), Some(PortArgument::Variable(key)) if key == "PORT")
    );
    assert!(
        matches!(port_argument("dev --port ${WEB_PORT}"), Some(PortArgument::Variable(key)) if key == "WEB_PORT")
    );
}

#[test]
fn port_arguments_may_be_quoted_or_missing() {
    assert!(matches!(port_argument("dev -p '3001'"), Some(PortArgument::Number(3001))));
    assert!(port_argument("dev").is_none());
    assert!(port_argument("dev --port").is_none());
    assert!(port_argument("dev --port=$").is_none());
    assert!(port_argument("dev --port=70000").is_none());
}

#[test]
fn package_manager_field_cannot_inject_a_bootstrap_command() {
    let package = Package {
        package_manager: Some("pnpm; touch owned@1".to_owned()),
        scripts: Vec::new(),
        dependencies: Vec::new(),
        dev_dependencies: Vec::new(),
    };
    assert_eq!(package_manager(&project(&[]), &package), None);
}

#[test]
fn env_candidates_reject_templates_and_generated_files() {
    assert!(is_env_candidate(".env"));
    assert!(is_env_candidate("frontend/.env.local"));
    assert!(is_env_candidate(".dev.vars"));
    assert!(!is_env_candidate(".env.example"));
    assert!(!is_env_candidate("node_modules/pkg/.env"));
}

#[test]
fn ignored_env_discovery_limits_git_output_without_missing_nested_files() {
    let output = Output {
        code: Some(0),
        stdout: b".dev.vars\0.env\0app/.env.example\0app/.env.local\0node_modules/pkg/.env\0".to_vec(),
        stderr: Vec::new(),
    };
    let listing = listed_paths(&output).unwrap();
    let regular = vec![true; listing.len()];
    assert_eq!(ignored_env_files(&listing, &regular), [".env", ".dev.vars", "app/.env.local"]);
}

#[test]
fn links_are_no_env_files() {
    let listing = strings(&[".env", ".env.local"]);
    assert_eq!(ignored_env_files(&listing, &vec![false, true]), [".env.local"]);
}

#[test]
fn compose_parser_only_returns_host_variables() {
    assert_eq!(compose_variables_in_line("- \"${API_PORT}:8080\""), ["API_PORT"]);
    assert_eq!(compose_variables_in_line("published: \"${WEB_PORT}\""), ["WEB_PORT"]);
    assert!(compose_variables_in_line("PORT: ${PORT}").is_empty());
}

#[test]
fn next_project_gets_process_port_bootstrap_and_precise_disposables() {
    let project = node_project("next dev", &[("devbox.json", r#"{"packages":["bun@latest"]}"#)]);
    let report = detect(&project, Config::default()).ok().unwrap();

    assert_eq!(report.config.env.as_deref(), Some(".env.local"));
    assert_eq!(report.config.ports, ["PORT:3000"]);
    assert_eq!(report.config.bootstrap.as_deref(), Some("devbox run -- bun install --frozen-lockfile"));
    for path in [".devbox", ".next", "node_modules", "out", "next-env.d.ts", "tsconfig.tsbuildinfo"] {
        assert!(report.config.disposable.contains(&path.to_owned()), "missing {path}");
    }
    assert!(!report.config.disposable.contains(&"coverage".to_owned()));
    let gitignore = project.read(".gitignore");
    let changes =
        planned_changes(&report.config, report.env_template.as_ref(), false, None, gitignore.as_deref());
    assert_eq!(changes.len(), 3);
    assert_eq!(changes[0], "Create .env.local from .env.example");
}

#[test]
fn fixed_next_port_is_reported_but_not_falsely_managed() {
    let report = detect(&node_project("next dev -p 3001", &[]), Config::default()).ok().unwrap();

    assert!(report.config.ports.is_empty());
    assert!(report.development.iter().any(|line| line.contains("fixed 3001")));
    assert!(report.warnings.iter().any(|line| line.contains("-p $PORT")));
}

#[test]
fn nested_wrangler_and_localhost_coupling_are_visible() {
    let worker = "const origin = 'http://localhost:3000';\n";
    let mut project = node_project(
        "next dev",
        &[("worker/wrangler.toml", "name = \"worker\"\n"), ("worker/src/index.ts", worker)],
    );
    project.matches = vec![found("worker/src/index.ts", worker)];

    let report = detect(&project, Config::default()).ok().unwrap();

    assert!(report
        .development
        .iter()
        .any(|line| line.contains("Wrangler (worker/wrangler.toml): default port 8787, not reserved")));
    assert!(report
        .warnings
        .iter()
        .any(|line| line.contains("hard-code localhost:3000: worker/src/index.ts")));
}

#[test]
fn one_localhost_search_maps_multiple_ports_to_their_runtime_files() {
    let web = "const web = 'http://localhost:3000';\n";
    let api = "const api = 'http://localhost:8787';\n";
    let test = "const test = 'http://localhost:3000';\n";
    let mut project = project(&[
        ("worker/wrangler.toml", "name = \"worker\"\n"),
        ("worker/src/web.ts", web),
        ("worker/src/api.ts", api),
        ("worker/src/web.test.ts", test),
    ]);
    project.matches = vec![
        found("worker/src/api.ts", api),
        found("worker/src/web.test.ts", test),
        found("worker/src/web.ts", web),
    ];
    let config = Config {
        ports: vec!["WEB_PORT:3000".to_owned(), "API_PORT:8787".to_owned()],
        ..Config::default()
    };
    assert_eq!(localhost_needles(&project, &config).unwrap(), ["localhost:3000", "localhost:8787"]);

    let report = detect(&project, config).ok().unwrap();

    assert!(report.warnings.iter().any(|warning| {
        warning.contains("localhost:3000: worker/src/web.ts") && !warning.contains("web.test.ts")
    }));
    assert!(report
        .warnings
        .iter()
        .any(|warning| warning.contains("localhost:8787: worker/src/api.ts")));
}

#[test]
fn vite_config_overrides_the_script_default() {
    let project = project(&[
        ("package.json", r#"{"scripts":{"dev":"vite"},"devDependencies":{"vite":"1"}}"#),
        ("vite.config.ts", "export default {\n server: {\n  port: 1420,\n  strictPort: true,\n },\n};\n"),
    ]);
    let report = detect(&project, Config::default()).ok().unwrap();
    assert_eq!(report.development, ["Vite (vite.config.ts): fixed 1420"]);
}

#[test]
fn servers_without_configuration_fall_back() {
    let project = project(&[("package.json", r#"{"scripts":{"dev":"vite","worker":"wrangler dev --port 9000"}}"#)]);
    let report = detect(&project, Config::default()).ok().unwrap();
    assert_eq!(
        report.development,
        ["Vite: starts at 5173, automatic fallback", "Wrangler: fixed 9000"]
    );
    assert_eq!(report.warnings, ["Wrangler uses fixed port 9000; it can collide."]);
}

#[test]
fn settings_that_were_asked_for_stay() {
    let asked = Config {
        base: Some("develop".to_owned()),
        env: Some("custom.env".to_owned()),
        ports: strings(&["API_PORT"]),
        bootstrap: Some("make".to_owned()),
        teardown: Some("make down".to_owned()),
        disposable: strings(&["cache"]),
        ..Config::default()
    };
    let report = detect(&node_project("next dev", &[]), asked).ok().unwrap();
    assert_eq!(report.config.base.as_deref(), Some("develop"));
    assert_eq!(report.config.env.as_deref(), Some("custom.env"));
    assert_eq!(report.config.ports, ["API_PORT"]);
    assert_eq!(report.config.bootstrap.as_deref(), Some("make"));
    assert_eq!(report.config.teardown.as_deref(), Some("make down"));
    assert_eq!(report.config.disposable, ["cache"]);
    assert_eq!(report.development, ["Configured port API_PORT"]);
    assert!(report.env_template.is_none());
}

#[test]
fn compose_ports_come_from_the_env_file() {
    let mut project = project(&[
        ("compose.yml", "services:\n  api:\n    ports:\n      - \"${API_PORT}:8080\"\n"),
        ("deploy/compose.prod.yml", "services:\n"),
    ]);
    project.env_files = strings(&[".env", "web/.env.local"]);
    project.files.push(".env".to_owned());
    project.texts.push(FileText { path: ".env".to_owned(), contents: "API_PORT=8080\nDB_PORT=5432\n".to_owned() });
    let report = detect(&project, Config::default()).ok().unwrap();
    assert!(report.config.compose);
    assert_eq!(report.config.env.as_deref(), Some(".env"));
    assert_eq!(report.config.copies, ["web/.env.local"]);
    assert_eq!(report.config.ports, ["API_PORT"]);
    assert_eq!(report.development, ["Docker Compose: isolated via API_PORT"]);
    assert_eq!(report.config.teardown.as_deref(), Some("docker compose down --remove-orphans"));
    assert_eq!(report.notices, ["Additional Compose files (not enabled): deploy/compose.prod.yml"]);
}

#[test]
fn compose_without_an_env_file_is_warned_about() {
    let mut project = project(&[("compose.yaml", "services:\n")]);
    project.direnv = false;
    let config = Config { ports: strings(&["PORT:3000"]), ..Config::default() };
    let report = detect(&project, config).ok().unwrap();
    assert_eq!(
        report.warnings,
        [
            "Docker Compose isolation needs a primary env file.",
            "Process-port isolation needs direnv, but direnv is not installed.",
        ]
    );
}

#[test]
fn devbox_scripts_and_hooks_decide_the_setup_command() {
    let files = r#"{"scripts":{},"packageManager":"pnpm@9"}"#;
    let with = |devbox: &str| project(&[("package.json", files), ("devbox.json", devbox)]);

    let scripted = with(r#"{"shell":{"scripts":{"bootstrap":["pnpm install"]}}}"#);
    assert_eq!(detect_bootstrap(&scripted).unwrap(), (Some("devbox run bootstrap".to_owned()), Vec::new()));

    let text = with(r#"{"shell":{"scripts":{"bootstrap":"pnpm install"}}}"#);
    assert_eq!(detect_bootstrap(&text).unwrap().0.as_deref(), Some("devbox run bootstrap"));

    let hooked = with(r#"{"shell":{"init_hook":[1, "corepack pnpm install"]}}"#);
    assert_eq!(
        detect_bootstrap(&hooked).unwrap(),
        (None, vec!["Dependencies: handled by the Devbox init hook (pnpm install)".to_owned()])
    );

    let plain = with(r#"{"shell":{"scripts":{"bootstrap":true},"init_hook":"pnpm install"}}"#);
    assert_eq!(
        detect_bootstrap(&plain).unwrap().0.as_deref(),
        Some("devbox run -- pnpm install --frozen-lockfile")
    );

    assert_eq!(detect_bootstrap(&with("{")).err().unwrap(), "parse devbox.json");
}

#[test]
fn lock_files_name_the_package_manager() {
    let manifest = r#"{"scripts":{}}"#;
    let command = |lock: &str| detect_bootstrap(&project(&[("package.json", manifest), (lock, "")])).unwrap().0;
    assert_eq!(command("bun.lockb").as_deref(), Some("bun install --frozen-lockfile"));
    assert_eq!(command("pnpm-lock.yaml").as_deref(), Some("pnpm install --frozen-lockfile"));
    assert_eq!(command("yarn.lock").as_deref(), Some("yarn install --immutable"));
    assert_eq!(command("package-lock.json").as_deref(), Some("npm ci"));
    assert_eq!(command("other.lock"), None);
}

#[test]
fn invalid_ports_stop_detection() {
    let config = Config { ports: strings(&["1BAD"]), ..Config::default() };
    assert_eq!(detect(&project(&[]), config).err().unwrap(), "invalid port variable: 1BAD");
}

#[test]
fn answers_of_git_are_read_by_their_exit_codes() {
    let output = |code: i32, stdout: &str, stderr: &str| Output {
        code: Some(code),
        stdout: stdout.as_bytes().to_vec(),
        stderr: stderr.as_bytes().to_vec(),
    };
    assert_eq!(listed_paths(&output(128, "", "fatal: no\n")).err().unwrap(), "git failed: fatal: no");
    assert_eq!(ignored_paths(&output(1, "", "")).unwrap(), Vec::<String>::new());
    assert_eq!(ignored_paths(&output(0, "a\0b\0", "")).unwrap(), ["a", "b"]);
    assert_eq!(
        ignored_paths(&output(128, "", "fatal: no\n")).err().unwrap(),
        "cannot check ignored paths: fatal: no"
    );
    assert_eq!(found_paths(&output(1, "a\0", "")).unwrap(), Vec::<String>::new());
    assert_eq!(found_paths(&output(0, "a\0", "")).unwrap(), ["a"]);
    assert_eq!(
        found_paths(&output(2, "", "")).err().unwrap(),
        "cannot search for hard-coded localhost ports"
    );
}

#[test]
fn lines_are_added_once() {
    assert_eq!(append_line(None, "/.wt.env").as_deref(), Some("/.wt.env\n"));
    assert_eq!(append_line(Some("target"), "/.wt.env").as_deref(), Some("target\n/.wt.env\n"));
    assert_eq!(append_line(Some("target\n"), "/.wt.env").as_deref(), Some("target\n/.wt.env\n"));
    assert_eq!(append_line(Some("target\n  /.wt.env  \n"), "/.wt.env"), None);
}

#[test]
fn init_with_process_port_installs_direnv_support() {
    let config = Config { ports: strings(&["PORT:3000"]), ..Config::default() };
    let applied = apply_changes(&config, None, false, None, None);
    assert!(applied.copy.is_none());
    assert_eq!(applied.envrc.as_deref(), Some("dotenv_if_exists .wt.env\n"));
    assert_eq!(applied.gitignore.as_deref(), Some("/.wt.env\n"));

    let config = Config { ports: strings(&["PORT"]), ..Config::default() };
    let applied = apply_changes(&config, None, false, None, None);
    assert!(applied.envrc.is_none() && applied.gitignore.is_none());
}

#[test]
fn small_questions_of_detection() {
    assert_eq!(wrangler_port("port = 8790,"), Some(8790));
    assert_eq!(wrangler_port("ports = 8790"), None);
    assert!(is_runtime_file("src/index.ts"));
    assert!(!is_runtime_file("tests/index.ts"));
    assert!(!is_runtime_file("src/index.rs"));
    assert!(contains_bytes(&b"abcabd".to_vec(), b"abd"));
    assert!(!contains_bytes(&b"ab".to_vec(), b"abd"));
    assert!(devbox_uses_worktree_gopath(&Some("{\"env\":{\"GOPATH\":\"$PWD/.devbox/go\"}}".to_owned())));
    assert!(!devbox_uses_worktree_gopath(&None));
    assert!(add_compose_notices(&strings(&["compose.yml"])).is_empty());
}

#[test]
fn the_files_to_read_and_to_find_are_listed() {
    let versioned = strings(&["README.md", "a/vite.config.ts", "a/x.ts", "wrangler.toml", ".env.example"]);
    let packages = vec![PackageAt { root: "a".to_owned(), package: package("{}") }];
    let none = Vec::new();
    let texts = texts_to_read(&versioned, &none, &packages, &None);
    assert_eq!(texts[..4], strings(&["README.md", "a/vite.config.ts", "wrangler.toml", ".env.example"]));
    assert_eq!(texts[4..9], strings(&["compose.yml", "compose.yaml", "docker-compose.yml", "docker-compose.yaml", "devbox.json"]));
    assert_eq!(
        texts[9..],
        strings(&["a/next.config.js", "a/next.config.mjs", "a/next.config.ts", "a/next.config.mts"])
    );
    let env_files = strings(&[".env", "b/.env"]);
    let texts = texts_to_read(&versioned, &env_files, &none_of(), &Some("x.env".to_owned()));
    assert!(!texts.contains(&"README.md".to_owned()));
    assert!(texts.ends_with(&strings(&["devbox.json", "x.env", ".env"])), "{texts:?}");
    let files = files_to_find(&env_files, &packages, &None);
    assert_eq!(files[4..10], strings(&["bun.lock", "bun.lockb", "pnpm-lock.yaml", "yarn.lock", "package-lock.json", ".env"]));
    assert_eq!(files[13], "a/vite.config.mts");
}

fn none_of() -> Vec<PackageAt> {
    Vec::new()
}
