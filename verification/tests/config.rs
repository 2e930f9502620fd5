//! Settings: how they are read, checked and written.

use wt::config::{
    global_config_path, is_true, one, parse_port_spec, quote, worktree_root, worktree_root_written,
    write_worktree_root, Config,
};
use wt::process::Output;

fn strings(list: &[&str]) -> Vec<String> {
    list.iter().map(|s| s.to_string()).collect()
}

fn printed(entries: &[(&str, &str)]) -> Output {
    let stdout: String = entries.iter().map(|entry| format!("{}\n{}\0", entry.0, entry.1)).collect();
    Output { code: Some(0), stdout: stdout.into_bytes(), stderr: Vec::new() }
}

fn load(entries: &[(&str, &str)]) -> Result<Config, String> {
    Config::load(".wtconfig", Some(&printed(entries)))
}

#[test]
fn loads_repeated_and_quoted_values_with_first_scalar_wins() {
    let config = load(&[
        ("wt.base", "first"),
        ("wt.base", "second"),
        ("wt.env", "env files/local"),
        ("wt.copy", "one"),
        ("wt.copy", "two files"),
        ("wt.compose", "no"),
        ("wt.compose", "yes"),
        ("wt.port", "API_PORT"),
        ("wt.port", "WEB_PORT:3000"),
        ("wt.unknown", "ignored"),
    ])
    .ok()
    .unwrap();

    assert_eq!(config.base.as_deref(), Some("first"));
    assert_eq!(config.env.as_deref(), Some("env files/local"));
    assert_eq!(config.copies, ["one", "two files"]);
    assert!(!config.compose);
    assert_eq!(config.ports, ["API_PORT", "WEB_PORT:3000"]);
}

#[test]
fn copy_paths_cannot_escape_the_repository() {
    let error = load(&[("wt.copy", "../private.env")]).err().unwrap();
    assert!(error.contains("must stay inside"), "{error}");
    assert!(load(&[("wt.env", "/etc/passwd")]).is_err());
    assert!(load(&[("wt.disposable", "a/../../b")]).is_err());
    assert!(load(&[("wt.copy", "a/b")]).is_ok());
}

#[test]
fn a_missing_file_leaves_every_setting_open() {
    let config = Config::load(".wtconfig", None).ok().unwrap();
    assert!(config.base.is_none() && config.env.is_none() && config.ports.is_empty() && !config.compose);
}

#[test]
fn broken_files_are_refused() {
    let output = Output { code: Some(3), stdout: Vec::new(), stderr: b"bad config line 1\n".to_vec() };
    assert_eq!(
        Config::load(".wtconfig", Some(&output)).err().unwrap(),
        "invalid .wtconfig: bad config line 1"
    );
    let output = Output { code: Some(0), stdout: b"wt.base\0".to_vec(), stderr: Vec::new() };
    assert_eq!(Config::load(".wtconfig", Some(&output)).err().unwrap(), "parse git config output");
    let output = Output { code: Some(0), stdout: vec![0xff, 0], stderr: Vec::new() };
    assert!(Config::load(".wtconfig", Some(&output)).is_err());
}

#[test]
fn copied_files_name_each_file_once() {
    let config = Config {
        env: Some(".env".to_owned()),
        copies: strings(&["web/.env", "./.env", ".env", "web/.env"]),
        ..Config::default()
    };
    let files = config.copied_files();
    assert_eq!(files[0], ".env");
    assert_eq!(files.iter().filter(|path| *path == "web/.env").count(), 1);
    assert_eq!(files.iter().filter(|path| *path == ".env").count(), 1);
}

#[test]
fn settings_that_cannot_work_are_not_written() {
    let broken = |config: Config| config.validate_for_write().err().unwrap();
    assert_eq!(broken(Config { compose: true, ..Config::default() }), "wt.compose requires --env");
    assert_eq!(
        broken(Config { bootstrap: Some("a\nb".to_owned()), ..Config::default() }),
        "setup commands must fit on one line"
    );
    assert!(broken(Config { ports: strings(&["API_PORT"]), ..Config::default() }).contains("env"));
    assert!(Config { ports: strings(&["PORT:3000"]), ..Config::default() }.validate_for_write().is_ok());
}

#[test]
fn written_settings_use_the_format_of_git() {
    let config = Config {
        base: Some("main".to_owned()),
        env: Some(".env".to_owned()),
        copies: strings(&["web/.env.local"]),
        compose: true,
        ports: strings(&["API_PORT", "PORT:3000"]),
        bootstrap: Some("make \"all\"".to_owned()),
        teardown: None,
        disposable: strings(&[".cache"]),
    };
    let file = config.write("/repo");
    assert_eq!(file.path, "/repo/.wtconfig");
    assert!(file.contents.starts_with("[wt]\n\tbase = "));
    assert!(file.contents.contains("\tcompose = true\n"));
    assert!(file.contents.contains("\\\"all\\\""));
    assert!(!file.contents.contains("teardown"));
    assert!(file.contents.ends_with('\n'));
}

#[test]
fn quotes_protect_what_git_would_change() {
    assert_eq!(quote("main"), "main");
    assert!(quote("two files; #1").starts_with('"'));
    assert!(quote("a\\b").contains("\\\\"));
}

#[test]
fn port_settings_are_checked() {
    let spec = parse_port_spec("API_PORT").ok().unwrap();
    assert_eq!((spec.key.as_str(), spec.default), ("API_PORT", None));
    let spec = parse_port_spec("PORT:3000").ok().unwrap();
    assert_eq!((spec.key.as_str(), spec.default), ("PORT", Some(3000)));
    assert_eq!(parse_port_spec("1PORT").err().unwrap(), "invalid port variable: 1PORT");
    assert_eq!(parse_port_spec("").err().unwrap(), "invalid port variable: ");
    assert_eq!(parse_port_spec("PORT:0").err().unwrap(), "port default must be a number from 1 to 65535");
    assert_eq!(parse_port_spec("PORT:x").err().unwrap(), "port default must be a number from 1 to 65535");
}

#[test]
fn fingerprints_change_with_the_commands() {
    let config = |bootstrap: Option<&str>, teardown: Option<&str>| Config {
        bootstrap: bootstrap.map(str::to_owned),
        teardown: teardown.map(str::to_owned),
        ..Config::default()
    };
    let hash = |bootstrap, teardown| config(bootstrap, teardown).command_fingerprint().unwrap();
    assert_eq!(hash(None, None), None);
    assert_eq!(hash(Some("make"), None).as_deref(), Some("[\"make\",null]"));
    assert_eq!(hash(Some("echo \"a\"\t\u{1}"), Some("b")).as_deref(), Some("[\"echo \\\"a\\\"\\t\\u0001\",\"b\"]"));
    assert_ne!(hash(Some("a"), None), hash(None, Some("a")));
}

#[test]
fn changing_non_command_config_does_not_revoke_command_trust() {
    let config = Config { bootstrap: Some("make".to_owned()), ..Config::default() };
    let changed = Config {
        bootstrap: Some("make".to_owned()),
        base: Some("develop".to_owned()),
        copies: strings(&["a"]),
        ..Config::default()
    };
    assert_eq!(config.command_fingerprint(), changed.command_fingerprint());
}

#[test]
fn the_worktree_root_is_chosen_and_stored() {
    assert_eq!(worktree_root(Some("/a"), Some("/b"), Some("/home")).unwrap(), "/a");
    assert_eq!(worktree_root(None, Some("/b"), Some("/home")).unwrap(), "/b");
    assert_eq!(worktree_root(None, None, Some("/home")).unwrap(), "/home/Developer/worktrees");
    assert_eq!(worktree_root(None, None, None).err().unwrap(), "HOME is not set");
    assert_eq!(
        write_worktree_root("relative", None, Some("/home")).err().unwrap(),
        "worktree root must be an absolute path"
    );
    let arguments = write_worktree_root("/worktrees", Some("/config"), Some("/home")).unwrap();
    assert!(arguments.contains(&"/worktrees".to_owned()));
    assert!(arguments.iter().any(|argument| argument.starts_with("/config/")));
    assert!(global_config_path(None, None).is_err());
    let failed = Output { code: Some(4), stdout: Vec::new(), stderr: b"no\n".to_vec() };
    assert!(worktree_root_written("/config/wt/config", &failed).is_err());
}

#[test]
fn flags_are_read_as_git_reads_them() {
    for value in ["true", "yes", "on", "1"] {
        assert!(is_true(value), "{value}");
    }
    for value in ["false", "no", "off", "0"] {
        assert!(!is_true(value), "{value}");
    }
}

#[test]
fn the_first_of_several_values_counts() {
    let output = Output { code: Some(0), stdout: b"/a\n/b\n".to_vec(), stderr: Vec::new() };
    assert_eq!(one("config", &output).unwrap().as_deref(), Some("/a"));
    let none = Output { code: Some(1), stdout: Vec::new(), stderr: Vec::new() };
    assert_eq!(one("config", &none).unwrap(), None);
}

#[test]
fn configured_paths_lie_in_the_repository() {
    for path in ["a", "a/b/", "a//b", "a/./b", ".env"] {
        let config = load(&[("wt.copy", path), ("wt.disposable", path)]).ok().unwrap();
        for configured in config.copied_files().iter().chain(&config.disposable) {
            assert!(wt::paths::starts_with(&wt::paths::join("/repo", configured), "/repo"), "{path}");
        }
    }
    for path in ["", "../a", "a/../b", "/a", ".", "./a"] {
        assert!(load(&[("wt.disposable", path)]).is_err(), "{path}");
    }
}

/// The entries of a written file, as Git lists them.
fn listed(contents: &str) -> Vec<(String, String)> {
    contents
        .lines()
        .filter_map(|line| line.trim_start().split_once(" = "))
        .map(|(key, value)| {
            let mut out = String::new();
            let mut chars = value.chars();
            while let Some(c) = chars.next() {
                match c {
                    '"' => {}
                    '\\' => out.extend(chars.next()),
                    _ => out.push(c),
                }
            }
            (format!("wt.{key}"), out)
        })
        .collect()
}

#[test]
fn written_settings_read_back() {
    let config = Config {
        base: Some("release/1.0".to_owned()),
        env: Some("env files/.env".to_owned()),
        copies: strings(&["b", "a", "b", "with \"quotes\" # and; \\ more"]),
        compose: true,
        ports: strings(&["API_PORT", "WEB:3000", "API_PORT"]),
        bootstrap: Some("make A = 1 && echo \"x\\y\"".to_owned()),
        teardown: None,
        disposable: strings(&["", "dist"]),
    };
    let file = config.write("/repo");
    assert_eq!(file.path, "/repo/.wtconfig");
    assert!(file.contents.starts_with("[wt]\n\tbase = release/1.0\n\tenv = \"env files/.env\"\n"), "{}", file.contents);
    let entries = listed(&file.contents);
    let values = |key: &str| -> Vec<String> {
        entries.iter().filter(|entry| entry.0 == key).map(|entry| entry.1.clone()).collect()
    };
    assert_eq!(values("wt.copy"), config.copies);
    assert_eq!(values("wt.port"), config.ports);
    assert_eq!(values("wt.disposable"), config.disposable);
    assert_eq!(values("wt.bootstrap"), config.bootstrap.clone().into_iter().collect::<Vec<_>>());
    let kept: Vec<(&str, &str)> = entries
        .iter()
        .filter(|entry| !entry.1.is_empty())
        .map(|entry| (entry.0.as_str(), entry.1.as_str()))
        .collect();
    let again = load(&kept).ok().unwrap();
    assert_eq!((again.base, again.env, again.compose), (config.base, config.env, true));
    assert_eq!((again.copies, again.ports, again.teardown), (config.copies, config.ports, None));
    assert_eq!(again.bootstrap, config.bootstrap);
}
