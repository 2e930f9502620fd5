//! Setting a repository up: the settings, what the user is shown, and what is saved.

use vstd::prelude::*;

use crate::app;
use crate::config;
use crate::config::{Config, FileText, Settings};
use crate::detection;
use crate::detection::{EnvTemplate, Report, ReportData};
use crate::model;
use crate::paths;
use crate::text;

verus! {

broadcast use crate::model::lemma_views_push;

// ---------------------------------------------------------------------------
// Settings
// ---------------------------------------------------------------------------

/// What was asked for on the command line.
pub struct InitOptions {
    pub root: Option<String>,
    pub base: Option<String>,
    pub env: Option<String>,
    pub copies: Vec<String>,
    pub compose: bool,
    pub ports: Vec<String>,
    pub bootstrap: Option<String>,
    pub teardown: Option<String>,
    pub disposable: Vec<String>,
    pub yes: bool,
}

impl InitOptions {
    /// Nothing asked for.
    pub fn none() -> (r: InitOptions)
        ensures
            options_settings(r, Seq::empty()) == (Settings {
                base: Some(Seq::empty()),
                ..config::no_settings()
            }),
            r.base is None,
            r.root is None,
            !r.yes,
    {
        let r = InitOptions {
            root: None,
            base: None,
            env: None,
            copies: Vec::new(),
            compose: false,
            ports: Vec::new(),
            bootstrap: None,
            teardown: None,
            disposable: Vec::new(),
            yes: false,
        };
        assert(options_settings(r, Seq::empty()) =~= (Settings { base: Some(Seq::empty()), ..config::no_settings() }));
        r
    }
}

/// A command, unless it is empty.
pub open spec fn unless_empty(command: Option<Seq<char>>) -> Option<Seq<char>> {
    match command {
        Some(command) => if command.len() > 0 {
            Some(command)
        } else {
            None
        },
        None => None,
    }
}

fn given(command: Option<String>) -> (r: Option<String>)
    ensures
        model::opt(r) == unless_empty(model::opt(command)),
{
    match command {
        Some(command) => {
            if command.as_str().is_empty() {
                None
            } else {
                Some(command)
            }
        },
        None => None,
    }
}

/// The settings that options ask for; the base is the default branch where none is asked for, and
/// an empty command asks for none.
pub open spec fn options_settings(options: InitOptions, default_branch: Seq<char>) -> Settings {
    Settings {
        base: Some(
            match options.base {
                Some(base) => base@,
                None => default_branch,
            },
        ),
        env: model::opt(options.env),
        copies: model::views(options.copies@),
        compose: options.compose,
        ports: model::views(options.ports@),
        bootstrap: unless_empty(model::opt(options.bootstrap)),
        teardown: unless_empty(model::opt(options.teardown)),
        disposable: model::views(options.disposable@),
    }
}

pub fn config_from_options(options: InitOptions, default_branch: &str) -> (r: Config)
    ensures
        r@ == options_settings(options, default_branch@),
{
    let base = match options.base {
        Some(base) => base,
        None => default_branch.to_owned(),
    };
    Config {
        base: Some(base),
        env: options.env,
        copies: options.copies,
        compose: options.compose,
        ports: options.ports,
        bootstrap: given(options.bootstrap),
        teardown: given(options.teardown),
        disposable: options.disposable,
    }
}

pub open spec fn entry_of() -> spec_fn(Seq<char>) -> Option<Seq<char>> {
    |entry: Seq<char>|
        if text::trimmed(entry).len() > 0 {
            Some(text::trimmed(entry))
        } else {
            None
        }
}

/// The entries of an answer that lists them, separated by commas.
pub open spec fn entries_of(answer: Seq<char>) -> Seq<Seq<char>> {
    text::split(answer, ',').filter_map(entry_of())
}

/// Reads an answer that lists entries separated by commas.
pub fn prompt_list(answer: &str) -> (r: Vec<String>)
    ensures
        model::views(r@) == entries_of(answer@),
{
    let pieces = text::split_text(answer, ',');
    let ghost all = text::split(answer@, ',');
    let mut out: Vec<String> = Vec::new();
    proof {
        model::start_filter_map(all, entry_of());
    }
    for i in 0..pieces.len()
        invariant
            all == model::views(pieces@),
            model::views(out@) == all.take(i as int).filter_map(entry_of()),
    {
        proof {
            model::step_filter_map(all, i as int, entry_of());
            assert(all[i as int] == pieces@[i as int]@);
        }
        let entry = text::trim(&pieces[i]);
        if !entry.as_str().is_empty() {
            out.push(entry);
        }
    }
    proof {
        model::whole(all);
    }
    out
}

/// What is offered as the answer to a question for a list.
pub fn list_default(entries: &Vec<String>) -> (r: String)
    ensures
        r@ == text::joined(model::views(entries@), ", "@),
{
    text::join(entries, ", ")
}

/// Reads an answer that may be left empty.
pub fn prompt_optional(answer: &str) -> (r: Option<String>)
    ensures
        model::opt(r) == entry_of()(answer@),
{
    let entry = text::trim(answer);
    if entry.as_str().is_empty() {
        None
    } else {
        Some(entry)
    }
}

/// The answers about files and ports.
pub struct EnvironmentAnswers {
    pub env: Option<String>,
    pub copies: Vec<String>,
    pub ports: Vec<String>,
}

/// Reads the answers about files and ports: an env file that may be left empty, and two lists.
pub fn prompt_environment(env: &str, ports: &str, copies: &str) -> (r: EnvironmentAnswers)
    ensures
        model::opt(r.env) == unless_empty(Some(env@)),
        model::views(r.ports@) == entries_of(ports@),
        model::views(r.copies@) == entries_of(copies@),
{
    EnvironmentAnswers { env: given(Some(env.to_owned())), ports: prompt_list(ports), copies: prompt_list(copies) }
}

/// The settings that the answers make.
pub fn custom_config(
    base: String,
    environment: EnvironmentAnswers,
    compose: bool,
    bootstrap: Option<String>,
    teardown: Option<String>,
    disposable: Vec<String>,
) -> (r: Config)
    ensures
        r@ == (Settings {
            base: Some(base@),
            env: model::opt(environment.env),
            copies: model::views(environment.copies@),
            compose,
            ports: model::views(environment.ports@),
            bootstrap: model::opt(bootstrap),
            teardown: model::opt(teardown),
            disposable: model::views(disposable@),
        }),
{
    Config {
        base: Some(base),
        env: environment.env,
        copies: environment.copies,
        compose,
        ports: environment.ports,
        bootstrap,
        teardown,
        disposable,
    }
}

/// A template is used only for the env file that was settled on.
pub fn customize_config(config: &Config, template: Option<EnvTemplate>) -> (r: Option<EnvTemplate>)
    ensures
        detection::opt_template(r) == match template {
            Some(t) => if config@.env matches Some(env) && paths::same_path(env, t.target@) {
                Some((t.source@, t.target@))
            } else {
                None
            },
            None => None,
        },
{
    match template {
        Some(template) => match &config.env {
            Some(env) => {
                if paths::same(env, &template.target) {
                    Some(template)
                } else {
                    None
                }
            },
            None => None,
        },
        None => None,
    }
}

// ---------------------------------------------------------------------------
// What is shown
// ---------------------------------------------------------------------------

pub open spec fn or_else(value: Option<Seq<char>>, fallback: Seq<char>) -> Seq<char> {
    match value {
        Some(value) => value,
        None => fallback,
    }
}

fn value_or(value: &Option<String>, fallback: &str) -> (r: String)
    ensures
        r@ == or_else(model::opt(*value), fallback@),
{
    match value {
        Some(value) => value.clone(),
        None => fallback.to_owned(),
    }
}

pub open spec fn joined_or(list: Seq<Seq<char>>, separator: Seq<char>, fallback: Seq<char>) -> Seq<char> {
    if list.len() == 0 {
        fallback
    } else {
        text::joined(list, separator)
    }
}

fn list_or(list: &Vec<String>, separator: &str, fallback: &str) -> (r: String)
    ensures
        r@ == joined_or(model::views(list@), separator@, fallback@),
{
    assert(model::views(list@).len() == list@.len());
    if list.len() == 0 {
        fallback.to_owned()
    } else {
        text::join(list, separator)
    }
}

/// The settings, one to a line.
pub open spec fn fields_of(root: Seq<char>, report: ReportData) -> Seq<char> {
    let settings = report.settings;
    "Worktree root  "@ + root + "\nBase branch    "@ + or_else(settings.base, "Not detected"@) + "\nEnvironment    "@
        + or_else(settings.env, "Not found"@) + "\nOther files    "@ + joined_or(settings.copies, ", "@, "None"@)
        + "\nDevelopment    "@ + joined_or(report.development, "\n               "@, "Not detected"@)
        + "\nDocker Compose "@ + (if settings.compose {
        "Yes"@
    } else {
        "No"@
    }) + "\nBootstrap      "@ + or_else(settings.bootstrap, "None"@) + "\nTeardown       "@ + or_else(
        settings.teardown,
        "None"@,
    ) + "\nDisposable     "@ + joined_or(settings.disposable, ", "@, "None"@)
}

pub fn summary_fields(root: &str, report: &Report) -> (r: String)
    ensures
        r@ == fields_of(root@, report@),
{
    let config = &report.config;
    let mut out = text::concat3("Worktree root  ", root, "\nBase branch    ");
    out.append(&value_or(&config.base, "Not detected"));
    out.append("\nEnvironment    ");
    out.append(&value_or(&config.env, "Not found"));
    out.append("\nOther files    ");
    out.append(&list_or(&config.copies, ", ", "None"));
    out.append("\nDevelopment    ");
    out.append(&list_or(&report.development, "\n               ", "Not detected"));
    out.append("\nDocker Compose ");
    if config.compose {
        out.append("Yes");
    } else {
        out.append("No");
    }
    out.append("\nBootstrap      ");
    out.append(&value_or(&config.bootstrap, "None"));
    out.append("\nTeardown       ");
    out.append(&value_or(&config.teardown, "None"));
    out.append("\nDisposable     ");
    out.append(&list_or(&config.disposable, ", ", "None"));
    out
}

/// A section with a title and a line for each entry, where there are entries.
pub open spec fn section(title: Seq<char>, lines: Seq<Seq<char>>, footer: Seq<char>) -> Seq<char> {
    if lines.len() == 0 {
        Seq::empty()
    } else if footer.len() == 0 {
        "\n\n"@ + title + "\n• "@ + text::joined(lines, "\n• "@)
    } else {
        "\n\n"@ + title + "\n• "@ + text::joined(lines, "\n• "@) + ("\n"@ + footer)
    }
}

pub fn append_section(summary: &mut String, title: &str, lines: &Vec<String>, footer: &str)
    ensures
        final(summary)@ == old(summary)@ + section(title@, model::views(lines@), footer@),
{
    let ghost before = summary@;
    assert(model::views(lines@).len() == lines@.len());
    if lines.len() == 0 {
        assert(before + Seq::<char>::empty() =~= before);
        return;
    }
    let mut more = text::concat3("\n\n", title, "\n• ");
    more.append(&text::join(lines, "\n• "));
    if !footer.is_empty() {
        let line = text::concat("\n", footer);
        more.append(&line);
    }
    summary.append(&more);
}

/// What was detected, for the user to read.
pub open spec fn summary_of(root: Seq<char>, report: ReportData, changes: Seq<Seq<char>>) -> Seq<char> {
    fields_of(root, report) + section("Info"@, report.notices, ""@) + section(
        "Repository setup"@,
        changes,
        "Commit these files on the base branch before creating a worktree."@,
    ) + section("Warnings"@, report.warnings, ""@)
}

pub fn config_summary(root: &str, report: &Report, changes: &Vec<String>) -> (r: String)
    ensures
        r@ == summary_of(root@, report@, model::views(changes@)),
{
    let mut summary = summary_fields(root, report);
    append_section(&mut summary, "Info", &report.notices, "");
    append_section(
        &mut summary,
        "Repository setup",
        changes,
        "Commit these files on the base branch before creating a worktree.",
    );
    append_section(&mut summary, "Warnings", &report.warnings, "");
    summary
}

/// The question about detected settings, and the answer that is offered: warnings have to be
/// accepted.
pub fn interactive_config(warnings: &Vec<String>) -> (r: (String, bool))
    ensures
        r.1 == (warnings@.len() == 0),
        r.0@ == if warnings@.len() == 0 {
            "Use these settings? (No to customize)"@
        } else {
            "Use these settings anyway? (No to customize)"@
        },
{
    if warnings.len() == 0 {
        ("Use these settings? (No to customize)".to_owned(), true)
    } else {
        ("Use these settings anyway? (No to customize)".to_owned(), false)
    }
}

/// Questions need a terminal.
pub fn ensure_interactive(terminal: bool) -> (r: Result<(), String>)
    ensures
        model::outcome(r) == if terminal {
            Ok::<(), Seq<char>>(())
        } else {
            Err("interactive setup needs a terminal; pass setup options with --yes"@)
        },
{
    if terminal {
        Ok(())
    } else {
        Err("interactive setup needs a terminal; pass setup options with --yes".to_owned())
    }
}

/// Whether setup is offered before a worktree is added.
pub fn offer_setup(configured: bool, terminal: bool) -> (r: bool)
    ensures
        r == (!configured && terminal),
{
    !configured && terminal
}

// ---------------------------------------------------------------------------
// What is saved
// ---------------------------------------------------------------------------

/// The file to write, the fingerprint to trust, and what to say.
pub struct Saved {
    pub file: FileText,
    pub hash: Option<String>,
    pub message: String,
}

/// Saves settings that are valid: the file is written, and its commands are trusted.
pub fn init(config: &Config, repo: &str) -> (r: Result<Saved, String>)
    ensures
        match config::writable(config@) {
            Err(message) => r matches Err(e) && e@ == message,
            Ok(()) => r matches Ok(saved) && {
                let hash = config::fingerprint(config@.bootstrap, config@.teardown);
                &&& saved.file.path@ == paths::joined(repo@, ".wtconfig"@)
                &&& saved.file.contents@ == config::rendered(config@)
                &&& model::opt(saved.hash) == hash
                &&& saved.message@ == if hash is Some {
                    "Saved .wtconfig and trusted its commands"@
                } else {
                    "Saved .wtconfig"@
                }
            },
        },
{
    match config.validate_for_write() {
        Ok(()) => {},
        Err(message) => {
            return Err(message);
        },
    }
    let file = config.write(repo);
    match config.command_fingerprint() {
        Ok(Some(hash)) => Ok(
            Saved { file, hash: Some(hash), message: "Saved .wtconfig and trusted its commands".to_owned() },
        ),
        Ok(None) => Ok(Saved { file, hash: None, message: "Saved .wtconfig".to_owned() }),
        Err(message) => Err(message),
    }
}

/// What trusting commands takes.
pub enum Consent {
    /// The fingerprint is trusted.
    Given { hash: String },
    /// The user is asked first, and shown the commands.
    Ask { hash: String, commands: String },
}

/// Whether the commands of a configuration may be trusted: they are shown first, unless that is
/// waived, and a terminal is needed for that.
pub fn trust(config: &Config, yes: bool, terminal: bool) -> (r: Result<Consent, String>)
    ensures
        match config::fingerprint(config@.bootstrap, config@.teardown) {
            None => r matches Err(e) && e@ == ".wtconfig has no bootstrap or teardown commands to trust"@,
            Some(expected) => if yes {
                r matches Ok(Consent::Given { hash }) && hash@ == expected
            } else if terminal {
                r matches Ok(Consent::Ask { hash, commands }) && hash@ == expected && commands@ == app::commands_shown(
                    config@.bootstrap,
                    config@.teardown,
                )
            } else {
                r matches Err(e) && e@ == "trust confirmation needs a terminal; review the file and pass --yes"@
            },
        },
{
    match config.command_fingerprint() {
        Ok(Some(hash)) => {
            if yes {
                Ok(Consent::Given { hash })
            } else if terminal {
                Ok(Consent::Ask { hash, commands: app::commands_text(config) })
            } else {
                Err("trust confirmation needs a terminal; review the file and pass --yes".to_owned())
            }
        },
        Ok(None) => Err(".wtconfig has no bootstrap or teardown commands to trust".to_owned()),
        Err(message) => Err(message),
    }
}

/// What answering the question about commands comes to.
pub fn confirmed(answer: bool) -> (r: Result<(), String>)
    ensures
        model::outcome(r) == if answer {
            Ok::<(), Seq<char>>(())
        } else {
            Err("commands were not trusted"@)
        },
{
    if answer {
        Ok(())
    } else {
        Err("commands were not trusted".to_owned())
    }
}

/// An answer that lists entries behind commas gives them back, each without the white space around
/// it, and an empty entry counts for nothing: the default that is shown for a list reads back as that
/// list.
pub proof fn lists_read_back(entries: Seq<Seq<char>>)
    requires
        forall|i: int|
            0 <= i < entries.len() ==> (#[trigger] entries[i]).len() > 0 && !entries[i].contains(',') && !text::white(
                entries[i][0],
            ) && !text::white(entries[i].last()),
    ensures
        entries_of(text::joined(entries, ", "@)) == entries,
        entries_of(text::joined(entries, ","@)) == entries,
{
    reveal_strlit(", ");
    reveal_strlit(",");
    let f = entry_of();
    if entries.len() == 0 {
        let none = Seq::<char>::empty();
        assert(text::split(none, ',') =~= seq![none]);
        text::trimming_leaves_the_core(none, none, none);
        assert(none + none + none =~= none);
        model::filter_map_one(none, f);
        assert(entries =~= Seq::<Seq<char>>::empty());
    } else {
        let spaced = Seq::new(
            entries.len(),
            |i: int|
                if i == 0 {
                    entries[0]
                } else {
                    " "@ + entries[i]
                },
        );
        lemma_spaced(entries, spaced);
        assert forall|i: int| 0 <= i < spaced.len() implies !(#[trigger] spaced[i]).contains(',') by {
            reveal_strlit(" ");
            assert(!entries[i].contains(','));
            if spaced[i].contains(',') {
                let j = choose|j: int| 0 <= j < spaced[i].len() && spaced[i][j] == ',';
                if i > 0 {
                    assert(j > 0);
                    assert(entries[i][j - 1] == ',');
                }
            }
        }
        assert(","@ =~= seq![',']);
        crate::environment_laws::joined_pieces_are_split_again(spaced, ',');
        crate::environment_laws::joined_pieces_are_split_again(entries, ',');
        lemma_all_entries(spaced, entries);
        lemma_all_entries(entries, entries);
    }
}

proof fn lemma_spaced(entries: Seq<Seq<char>>, spaced: Seq<Seq<char>>)
    requires
        spaced.len() == entries.len(),
        entries.len() > 0,
        spaced[0] == entries[0],
        forall|i: int| 0 < i < entries.len() ==> #[trigger] spaced[i] == " "@ + entries[i],
    ensures
        text::joined(spaced, ","@) == text::joined(entries, ", "@),
    decreases entries.len(),
{
    reveal_strlit(", ");
    reveal_strlit(",");
    reveal_strlit(" ");
    if entries.len() > 1 {
        lemma_spaced(entries.drop_last(), spaced.drop_last());
        let start = text::joined(spaced.drop_last(), ","@);
        assert(spaced.last() == " "@ + entries.last());
        assert(start + ","@ + (" "@ + entries.last()) =~= start + ", "@ + entries.last());
    }
}

proof fn lemma_all_entries(pieces: Seq<Seq<char>>, entries: Seq<Seq<char>>)
    requires
        pieces.len() == entries.len(),
        forall|i: int|
            0 <= i < entries.len() ==> (#[trigger] entries[i]).len() > 0 && !text::white(entries[i][0]) && !text::white(
                entries[i].last(),
            ),
        forall|i: int| 0 <= i < entries.len() ==> #[trigger] pieces[i] == entries[i] || pieces[i] == " "@ + entries[i],
    ensures
        pieces.filter_map(entry_of()) == entries,
    decreases pieces.len(),
{
    let f = entry_of();
    if pieces.len() == 0 {
        assert(entries =~= Seq::<Seq<char>>::empty());
        assert(pieces.filter_map(f) =~= entries);
    } else {
        let n = pieces.len() - 1;
        let init = pieces.drop_last();
        let before = entries.drop_last();
        assert forall|i: int| 0 <= i < before.len() implies (#[trigger] before[i]).len() > 0 && !text::white(
            before[i][0],
        ) && !text::white(before[i].last()) by {
            assert(before[i] == entries[i]);
        }
        assert forall|i: int| 0 <= i < before.len() implies #[trigger] init[i] == before[i] || init[i] == " "@
            + before[i] by {
            assert(init[i] == pieces[i] && before[i] == entries[i]);
        }
        lemma_all_entries(init, before);
        let entry = entries[n];
        let none = Seq::<char>::empty();
        reveal_strlit(" ");
        text::trimming_leaves_the_core(none, entry, none);
        assert(none + entry + none =~= entry);
        text::trimming_leaves_the_core(" "@, entry, none);
        assert(" "@ + entry + none =~= " "@ + entry);
        assert(f(pieces[n]) == Some(entry));
        assert(pieces =~= init + seq![pieces[n]]);
        model::filter_map_adds(init, seq![pieces[n]], f);
        model::filter_map_one(pieces[n], f);
        assert(before + seq![entry] =~= entries);
    }
}

/// The summary shows every notice, every planned change and every warning.
pub proof fn the_summary_shows_everything(root: Seq<char>, report: ReportData, changes: Seq<Seq<char>>, k: int)
    ensures
        0 <= k < report.notices.len() ==> text::has_part(summary_of(root, report, changes), report.notices[k]),
        0 <= k < changes.len() ==> text::has_part(summary_of(root, report, changes), changes[k]),
        0 <= k < report.warnings.len() ==> text::has_part(summary_of(root, report, changes), report.warnings[k]),
{
    let fields = fields_of(root, report);
    let info = section("Info"@, report.notices, ""@);
    let setup = section(
        "Repository setup"@,
        changes,
        "Commit these files on the base branch before creating a worktree."@,
    );
    let warnings = section("Warnings"@, report.warnings, ""@);
    let all = summary_of(root, report, changes);
    let none = Seq::<char>::empty();
    assert(all =~= fields + info + (setup + warnings));
    assert(all =~= (fields + info) + setup + warnings);
    assert(all =~= (fields + info + setup) + warnings + none);
    if 0 <= k < report.notices.len() {
        lemma_section_shows("Info"@, report.notices, ""@, k);
        text::parts_of_a_part(fields, info, setup + warnings, report.notices[k]);
    }
    if 0 <= k < changes.len() {
        lemma_section_shows(
            "Repository setup"@,
            changes,
            "Commit these files on the base branch before creating a worktree."@,
            k,
        );
        text::parts_of_a_part(fields + info, setup, warnings, changes[k]);
    }
    if 0 <= k < report.warnings.len() {
        lemma_section_shows("Warnings"@, report.warnings, ""@, k);
        text::parts_of_a_part(fields + info + setup, warnings, none, report.warnings[k]);
    }
}

proof fn lemma_section_shows(title: Seq<char>, lines: Seq<Seq<char>>, footer: Seq<char>, k: int)
    requires
        0 <= k < lines.len(),
    ensures
        text::has_part(section(title, lines, footer), lines[k]),
{
    let list = text::joined(lines, "\n• "@);
    let start = "\n\n"@ + title + "\n• "@;
    let end = if footer.len() == 0 {
        Seq::<char>::empty()
    } else {
        "\n"@ + footer
    };
    text::joined_texts_hold_each(lines, "\n• "@, k);
    text::parts_of_a_part(start, list, end, lines[k]);
    assert(section(title, lines, footer) =~= start + list + end);
}

/// What was asked for on the command line is what is set, as it was given; an empty command means
/// none, and without a base the default branch is it.
pub proof fn options_are_set_as_given(options: InitOptions, default_branch: Seq<char>)
    ensures
        ({
            let settings = options_settings(options, default_branch);
            &&& options.base matches Some(base) ==> settings.base == Some(base@)
            &&& options.base is None ==> settings.base == Some(default_branch)
            &&& options.env matches Some(env) ==> settings.env == Some(env@)
            &&& options.env is None ==> settings.env is None
            &&& settings.compose == options.compose
            &&& settings.copies.len() == options.copies@.len() && forall|i: int|
                0 <= i < options.copies@.len() ==> #[trigger] settings.copies[i] == options.copies@[i]@
            &&& settings.ports.len() == options.ports@.len() && forall|i: int|
                0 <= i < options.ports@.len() ==> #[trigger] settings.ports[i] == options.ports@[i]@
            &&& settings.disposable.len() == options.disposable@.len() && forall|i: int|
                0 <= i < options.disposable@.len() ==> #[trigger] settings.disposable[i] == options.disposable@[i]@
            &&& options.bootstrap matches Some(command) ==> (command@.len() > 0 ==> settings.bootstrap == Some(command@))
                && (command@.len() == 0 ==> settings.bootstrap is None)
            &&& options.bootstrap is None ==> settings.bootstrap is None
            &&& options.teardown matches Some(command) ==> (command@.len() > 0 ==> settings.teardown == Some(command@))
                && (command@.len() == 0 ==> settings.teardown is None)
            &&& options.teardown is None ==> settings.teardown is None
        }),
{
}

} // verus!
