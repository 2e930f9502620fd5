//! The settings of a repository: reading, checking and writing `.wtconfig`.

use vstd::prelude::*;

use crate::json;
use crate::model;
use crate::paths;
use crate::process;
use crate::process::Output;
use crate::text;

verus! {

broadcast use {crate::model::lemma_views_push, crate::model::lemma_pairs_push};

pub struct Config {
    pub base: Option<String>,
    pub env: Option<String>,
    pub copies: Vec<String>,
    pub compose: bool,
    pub ports: Vec<String>,
    pub bootstrap: Option<String>,
    pub teardown: Option<String>,
    pub disposable: Vec<String>,
}

/// The settings as texts.
#[verifier::ext_equal]
pub ghost struct Settings {
    pub base: Option<Seq<char>>,
    pub env: Option<Seq<char>>,
    pub copies: Seq<Seq<char>>,
    pub compose: bool,
    pub ports: Seq<Seq<char>>,
    pub bootstrap: Option<Seq<char>>,
    pub teardown: Option<Seq<char>>,
    pub disposable: Seq<Seq<char>>,
}

impl View for Config {
    type V = Settings;

    open spec fn view(&self) -> Settings {
        Settings {
            base: model::opt(self.base),
            env: model::opt(self.env),
            copies: model::views(self.copies@),
            compose: self.compose,
            ports: model::views(self.ports@),
            bootstrap: model::opt(self.bootstrap),
            teardown: model::opt(self.teardown),
            disposable: model::views(self.disposable@),
        }
    }
}

/// No settings at all.
pub open spec fn no_settings() -> Settings {
    Settings {
        base: None,
        env: None,
        copies: Seq::empty(),
        compose: false,
        ports: Seq::empty(),
        bootstrap: None,
        teardown: None,
        disposable: Seq::empty(),
    }
}

impl Default for Config {
    fn default() -> (r: Config)
        ensures
            r@ == no_settings(),
    {
        let r = Config {
            base: None,
            env: None,
            copies: Vec::new(),
            compose: false,
            ports: Vec::new(),
            bootstrap: None,
            teardown: None,
            disposable: Vec::new(),
        };
        assert(r@ =~= no_settings());
        r
    }
}

pub struct PortSpec {
    pub key: String,
    pub default: Option<u16>,
}

impl View for PortSpec {
    type V = (Seq<char>, Option<u16>);

    open spec fn view(&self) -> (Seq<char>, Option<u16>) {
        (self.key@, self.default)
    }
}

// ---------------------------------------------------------------------------
// Where things are kept
// ---------------------------------------------------------------------------

/// The file with the user's own settings.
pub open spec fn global_path(xdg_config_home: Option<Seq<char>>, home: Option<Seq<char>>) -> Result<Seq<char>, Seq<char>> {
    match (xdg_config_home, home) {
        (Some(directory), _) => Ok(paths::joined(directory, "wt/config"@)),
        (None, Some(directory)) => Ok(paths::joined(directory, ".config/wt/config"@)),
        (None, None) => Err("HOME is not set"@),
    }
}

pub fn global_config_path(xdg_config_home: Option<&str>, home: Option<&str>) -> (r: Result<String, String>)
    ensures
        model::outcome(r) == global_path(model::opt_str(xdg_config_home), model::opt_str(home)),
{
    match (xdg_config_home, home) {
        (Some(directory), _) => Ok(paths::join(directory, "wt/config")),
        (None, Some(directory)) => Ok(paths::join(directory, ".config/wt/config")),
        (None, None) => Err("HOME is not set".to_owned()),
    }
}

/// The directory that worktrees are created in: the one asked for by the environment, else the one
/// in the user's settings, else the default below the home directory.
pub open spec fn chosen_root(
    asked: Option<Seq<char>>,
    configured: Option<Seq<char>>,
    home: Option<Seq<char>>,
) -> Result<Seq<char>, Seq<char>> {
    match (asked, configured, home) {
        (Some(root), _, _) => Ok(root),
        (None, Some(root), _) => Ok(root),
        (None, None, Some(directory)) => Ok(paths::joined(directory, "Developer/worktrees"@)),
        (None, None, None) => Err("HOME is not set"@),
    }
}

pub fn worktree_root(asked: Option<&str>, configured: Option<&str>, home: Option<&str>) -> (r: Result<String, String>)
    ensures
        model::outcome(r) == chosen_root(model::opt_str(asked), model::opt_str(configured), model::opt_str(home)),
{
    match (asked, configured, home) {
        (Some(root), _, _) => Ok(root.to_owned()),
        (None, Some(root), _) => Ok(root.to_owned()),
        (None, None, Some(directory)) => Ok(paths::join(directory, "Developer/worktrees")),
        (None, None, None) => Err("HOME is not set".to_owned()),
    }
}

/// The arguments of the `git` command that stores a worktree root.
pub open spec fn root_arguments(
    root: Seq<char>,
    xdg_config_home: Option<Seq<char>>,
    home: Option<Seq<char>>,
) -> Result<Seq<Seq<char>>, Seq<char>> {
    if !paths::root().is_prefix_of(root) {
        Err("worktree root must be an absolute path"@)
    } else {
        match global_path(xdg_config_home, home) {
            Ok(file) => Ok(seq!["config"@, "--file"@, file, "wt.root"@, root]),
            Err(message) => Err(message),
        }
    }
}

pub fn write_worktree_root(root: &str, xdg_config_home: Option<&str>, home: Option<&str>) -> (r: Result<Vec<String>, String>)
    ensures
        model::outcome_list(r) == root_arguments(root@, model::opt_str(xdg_config_home), model::opt_str(home)),
{
    if !paths::is_absolute(root) {
        return Err("worktree root must be an absolute path".to_owned());
    }
    match global_config_path(xdg_config_home, home) {
        Ok(file) => {
            let mut arguments: Vec<String> = Vec::new();
            arguments.push("config".to_owned());
            arguments.push("--file".to_owned());
            arguments.push(file);
            arguments.push("wt.root".to_owned());
            arguments.push(root.to_owned());
            assert(model::views(arguments@) =~= seq!["config"@, "--file"@, file@, "wt.root"@, root@]);
            Ok(arguments)
        },
        Err(message) => Err(message),
    }
}

/// Whether storing the worktree root worked.
pub open spec fn root_stored(file: Seq<char>, output: Output) -> Result<(), Seq<char>> {
    if output.success() {
        Ok(())
    } else {
        Err("cannot write "@ + file + ": "@ + output.complaint())
    }
}

pub fn worktree_root_written(file: &str, output: &Output) -> (r: Result<(), String>)
    ensures
        model::outcome(r) == root_stored(file@, *output),
{
    if output.succeeded() {
        Ok(())
    } else {
        let mut message = text::concat3("cannot write ", file, ": ");
        message.append(&output.complaint_text());
        Err(message)
    }
}

/// The values of a key, from what `git config --get-all` answered; exit code 1 means that there is
/// none.
pub open spec fn stored_values(file: Seq<char>, output: Output) -> Result<Seq<Seq<char>>, Seq<char>> {
    if output.code == Some(1i32) {
        Ok(Seq::empty())
    } else if !output.success() {
        Err("invalid "@ + file + ": "@ + output.complaint())
    } else {
        match process::decoded(output.stdout@) {
            Ok(s) => Ok(text::lines(s)),
            Err(message) => Err(message),
        }
    }
}

fn invalid(file: &str, output: &Output) -> (r: String)
    ensures
        r@ == "invalid "@ + file@ + ": "@ + output.complaint(),
{
    let mut message = text::concat3("invalid ", file, ": ");
    message.append(&output.complaint_text());
    message
}

pub fn all(file: &str, output: &Output) -> (r: Result<Vec<String>, String>)
    ensures
        model::outcome_list(r) == stored_values(file@, *output),
{
    match output.code {
        Some(code) => {
            if code == 1 {
                let none: Vec<String> = Vec::new();
                assert(model::views(none@) =~= Seq::empty());
                return Ok(none);
            }
        },
        None => {},
    }
    if !output.succeeded() {
        return Err(invalid(file, output));
    }
    match process::decode(&output.stdout) {
        Ok(s) => Ok(text::lines_of(&s)),
        Err(message) => Err(message),
    }
}

/// The first of the values of a key.
pub fn one(file: &str, output: &Output) -> (r: Result<Option<String>, String>)
    ensures
        model::outcome_opt(r) == match stored_values(file@, *output) {
            Ok(values) => Ok(
                if values.len() > 0 {
                    Some(values[0])
                } else {
                    None
                },
            ),
            Err(message) => Err(message),
        },
{
    match all(file, output) {
        Ok(values) => {
            if values.len() > 0 {
                assert(model::views(values@)[0] == values@[0]@);
                Ok(Some(values[0].clone()))
            } else {
                Ok(None)
            }
        },
        Err(message) => Err(message),
    }
}

// ---------------------------------------------------------------------------
// Reading
// ---------------------------------------------------------------------------

/// Whether a value switches something on.
pub open spec fn switched_on(value: Seq<char>) -> bool {
    let lower = text::lower_text(value);
    lower == "true"@ || lower == "yes"@ || lower == "on"@ || lower == "1"@
}

pub fn is_true(value: &str) -> (r: bool)
    ensures
        r == switched_on(value@),
{
    let lower = text::to_ascii_lowercase(value);
    text::same(&lower, "true") || text::same(&lower, "yes") || text::same(&lower, "on") || text::same(&lower, "1")
}

/// The key and the value of each entry, where every entry has both: a line feed divides them.
pub open spec fn divided(entries: Seq<Seq<char>>) -> Option<Seq<(Seq<char>, Seq<char>)>> {
    if forall|i: int| 0 <= i < entries.len() ==> text::cut_first(#[trigger] entries[i], "\n"@) is Some {
        Some(entries.map_values(|e: Seq<char>| text::cut_first(e, "\n"@)->0))
    } else {
        None
    }
}

/// The keys and values that `git config --null --list` printed.
pub open spec fn listed_entries(file: Seq<char>, output: Output) -> Result<Seq<(Seq<char>, Seq<char>)>, Seq<char>> {
    if !output.success() {
        Err("invalid "@ + file + ": "@ + output.complaint())
    } else {
        match process::decoded(output.stdout@) {
            Ok(s) => match divided(text::terminated(s, '\0')) {
                Some(entries) => Ok(entries),
                None => Err("parse git config output"@),
            },
            Err(message) => Err(message),
        }
    }
}

/// What reading the entries came to.
pub open spec fn outcome_pairs(r: Result<Vec<(String, String)>, String>) -> Result<
    Seq<(Seq<char>, Seq<char>)>,
    Seq<char>,
> {
    match r {
        Ok(list) => Ok(model::pairs(list@)),
        Err(message) => Err(message@),
    }
}

pub fn entries(file: &str, output: &Output) -> (r: Result<Vec<(String, String)>, String>)
    ensures
        outcome_pairs(r) == listed_entries(file@, *output),
{
    if !output.succeeded() {
        return Err(invalid(file, output));
    }
    let listing = match process::decode(&output.stdout) {
        Ok(s) => s,
        Err(message) => {
            return Err(message);
        },
    };
    let items = text::split_terminator(&listing, '\0');
    let ghost all = text::terminated(listing@, '\0');
    let ghost halves = all.map_values(|e: Seq<char>| text::cut_first(e, "\n"@)->0);
    let mut out: Vec<(String, String)> = Vec::new();
    for i in 0..items.len()
        invariant
            all == text::terminated(listing@, '\0'),
            all == model::views(items@),
            halves == all.map_values(|e: Seq<char>| text::cut_first(e, "\n"@)->0),
            output.success(),
            process::decoded(output.stdout@) == Ok::<Seq<char>, Seq<char>>(listing@),
            forall|k: int| 0 <= k < i ==> text::cut_first(#[trigger] all[k], "\n"@) is Some,
            model::pairs(out@) == halves.take(i as int),
    {
        assert(all[i as int] == items@[i as int]@);
        match text::split_once(&items[i], "\n") {
            Some(pair) => {
                proof {
                    model::step(halves, i as int);
                }
                out.push(pair);
            },
            None => {
                assert(text::cut_first(all[i as int], "\n"@) is None);
                return Err("parse git config output".to_owned());
            },
        }
    }
    proof {
        model::whole(halves);
    }
    Ok(out)
}

/// The values of a key, in order.
pub open spec fn values_of(entries: Seq<(Seq<char>, Seq<char>)>, key: Seq<char>) -> Seq<Seq<char>> {
    entries.filter_map(value_under(key))
}

/// The value of an entry, where it has this key.
pub open spec fn value_under(key: Seq<char>) -> spec_fn((Seq<char>, Seq<char>)) -> Option<Seq<char>> {
    |e: (Seq<char>, Seq<char>)|
        if e.0 == key {
            Some(e.1)
        } else {
            None
        }
}

/// The first value of a key.
pub open spec fn value_of(entries: Seq<(Seq<char>, Seq<char>)>, key: Seq<char>) -> Option<Seq<char>> {
    model::first_some(entries, value_under(key))
}

fn values(entries: &Vec<(String, String)>, key: &str) -> (r: Vec<String>)
    ensures
        model::views(r@) == values_of(model::pairs(entries@), key@),
{
    let ghost all = model::pairs(entries@);
    let mut out: Vec<String> = Vec::new();
    proof {
        model::start_filter_map(all, value_under(key@));
    }
    for i in 0..entries.len()
        invariant
            all == model::pairs(entries@),
            model::views(out@) == all.take(i as int).filter_map(value_under(key@)),
    {
        proof {
            model::step_filter_map(all, i as int, value_under(key@));
            assert(all[i as int] == (entries@[i as int].0@, entries@[i as int].1@));
        }
        if text::same(&entries[i].0, key) {
            out.push(entries[i].1.clone());
        }
    }
    proof {
        model::whole(all);
    }
    out
}

fn value(entries: &Vec<(String, String)>, key: &str) -> (r: Option<String>)
    ensures
        model::opt(r) == value_of(model::pairs(entries@), key@),
{
    let ghost all = model::pairs(entries@);
    for i in 0..entries.len()
        invariant
            all == model::pairs(entries@),
            forall|k: int| 0 <= k < i ==> value_under(key@)(#[trigger] all[k]) is None,
    {
        assert(all[i as int] == (entries@[i as int].0@, entries@[i as int].1@));
        if text::same(&entries[i].0, key) {
            proof {
                model::found_some(all, value_under(key@), i as int);
            }
            return Some(entries[i].1.clone());
        }
    }
    proof {
        model::found_none(all, value_under(key@));
    }
    None
}

/// The settings that a list of entries gives: the first value counts where one is wanted, every
/// value where several are.
pub open spec fn settings_of(entries: Seq<(Seq<char>, Seq<char>)>) -> Settings {
    Settings {
        base: value_of(entries, "wt.base"@),
        env: value_of(entries, "wt.env"@),
        copies: values_of(entries, "wt.copy"@),
        compose: value_of(entries, "wt.compose"@) matches Some(value) && switched_on(value),
        ports: values_of(entries, "wt.port"@),
        bootstrap: value_of(entries, "wt.bootstrap"@),
        teardown: value_of(entries, "wt.teardown"@),
        disposable: values_of(entries, "wt.disposable"@),
    }
}

/// What loading a configuration comes to; `None` stands for a repository without the file.
pub open spec fn loaded(file: Seq<char>, output: Option<Output>) -> Result<Settings, Seq<char>> {
    match output {
        None => Ok(no_settings()),
        Some(output) => match listed_entries(file, output) {
            Ok(entries) => match paths_checked(settings_of(entries)) {
                Ok(()) => Ok(settings_of(entries)),
                Err(message) => Err(message),
            },
            Err(message) => Err(message),
        },
    }
}

// ---------------------------------------------------------------------------
// Checking
// ---------------------------------------------------------------------------

/// Whether a path names something inside the repository.
pub open spec fn inside(p: Seq<char>) -> bool {
    p.len() > 0 && forall|i: int|
        0 <= i < paths::components(p).len() ==> paths::is_normal(#[trigger] paths::components(p)[i])
}

/// A path that leaves the repository, as itself.
pub open spec fn outside() -> spec_fn(Seq<char>) -> Option<Seq<char>> {
    |p: Seq<char>|
        if inside(p) {
            None
        } else {
            Some(p)
        }
}

/// `copies` behind `first`, without those that are already there.
pub open spec fn gathered(first: Seq<Seq<char>>, copies: Seq<Seq<char>>) -> Seq<Seq<char>>
    decreases copies.len(),
{
    if copies.len() == 0 {
        first
    } else {
        let before = gathered(first, copies.drop_last());
        if paths::listed(before, copies.last()) {
            before
        } else {
            before.push(copies.last())
        }
    }
}

/// The files to copy: the primary env file, then the others.
pub open spec fn files_to_copy(settings: Settings) -> Seq<Seq<char>> {
    gathered(
        match settings.env {
            Some(env) => seq![env],
            None => Seq::empty(),
        },
        settings.copies,
    )
}

/// Every configured path stays inside the repository, or the first that does not is named.
pub open spec fn paths_checked(settings: Settings) -> Result<(), Seq<char>> {
    match model::first_some(files_to_copy(settings) + settings.disposable, outside()) {
        Some(p) => Err("configured paths must stay inside the repository: "@ + p),
        None => Ok(()),
    }
}

/// Accepted settings name nothing outside a repository: joined to its root, each of their paths
/// lies in it, and goes down from it by the names of entries alone.
pub proof fn configured_paths_stay_inside(settings: Settings, repository: Seq<char>, path: Seq<char>)
    requires
        paths_checked(settings) is Ok,
        files_to_copy(settings).contains(path) || settings.disposable.contains(path),
    ensures
        paths::lies_in(paths::joined(repository, path), repository),
        paths::components(paths::joined(repository, path)) == paths::components(repository) + paths::components(path),
        forall|i: int|
            0 <= i < paths::components(path).len() ==> paths::is_normal(#[trigger] paths::components(path)[i]),
{
    let all = files_to_copy(settings) + settings.disposable;
    assert(all.contains(path)) by {
        if files_to_copy(settings).contains(path) {
            let i = files_to_copy(settings).index_of(path);
            assert(all[i] == path);
        } else {
            let i = settings.disposable.index_of(path);
            assert(all[files_to_copy(settings).len() + i] == path);
        }
    }
    let i = all.index_of(path);
    model::none_found(all, outside(), i);
    assert(inside(path));
    assert(!paths::root().is_prefix_of(path)) by {
        if paths::root().is_prefix_of(path) {
            assert(paths::components(path)[0] == paths::root());
        }
    }
    paths::a_joined_path_lies_in_its_directory(repository, path);
}

fn stays_inside(p: &str) -> (r: bool)
    ensures
        r == inside(p@),
{
    if p.is_empty() {
        return false;
    }
    let parts = paths::components_of(p);
    for i in 0..parts.len()
        invariant
            model::views(parts@) == paths::components(p@),
            forall|k: int| 0 <= k < i ==> paths::is_normal(#[trigger] paths::components(p@)[k]),
    {
        assert(paths::components(p@)[i as int] == parts@[i as int]@);
        if !paths::normal(&parts[i]) {
            return false;
        }
    }
    true
}

/// The part of a port specification behind its first colon, as a port.
pub open spec fn default_port(s: Seq<char>) -> Option<nat> {
    text::number_upto(s, u16::MAX as nat)
}

/// Whether a text names a variable: letters, digits and underscores, no digit first.
pub open spec fn is_variable(key: Seq<char>) -> bool {
    key.len() > 0 && forall|i: int|
        0 <= i < key.len() ==> #[trigger] key[i] == '_' || (text::is_ascii_alphanumeric(key[i]) && (i > 0
            || !text::is_ascii_digit(key[i])))
}

/// A port specification: `KEY`, or `KEY:DEFAULT` with a default from 1 to 65535.
pub open spec fn port_spec(value: Seq<char>) -> Result<(Seq<char>, Option<u16>), Seq<char>> {
    let (key, default) = match text::cut_first(value, ":"@) {
        Some((key, default)) => (key, Some(default)),
        None => (value, None),
    };
    if !is_variable(key) {
        Err("invalid port variable: "@ + value)
    } else {
        match default {
            None => Ok((key, None)),
            Some(default) => match default_port(default) {
                Some(port) => if port > 0 {
                    Ok((key, Some(port as u16)))
                } else {
                    Err("port default must be a number from 1 to 65535"@)
                },
                None => Err("port default must be a number from 1 to 65535"@),
            },
        }
    }
}

fn variable(key: &str) -> (r: bool)
    ensures
        r == is_variable(key@),
{
    let source = text::chars(key);
    if source.len() == 0 {
        return false;
    }
    for i in 0..source.len()
        invariant
            source@ == key@,
            forall|k: int|
                0 <= k < i ==> #[trigger] key@[k] == '_' || (text::is_ascii_alphanumeric(key@[k]) && (k > 0
                    || !text::is_ascii_digit(key@[k]))),
    {
        let c = source[i];
        assert(key@[i as int] == c);
        if c != '_' && !(text::ascii_alphanumeric(c) && (i > 0 || !text::ascii_digit(c))) {
            return false;
        }
    }
    true
}

pub fn parse_port_spec(value: &str) -> (r: Result<PortSpec, String>)
    ensures
        model::outcome(r) == port_spec(value@),
{
    let (key, default) = match text::split_once(value, ":") {
        Some((key, default)) => (key, Some(default)),
        None => (value.to_owned(), None),
    };
    if !variable(&key) {
        return Err(text::concat("invalid port variable: ", value));
    }
    match default {
        None => Ok(PortSpec { key, default: None }),
        Some(default) => match text::parse_u16(&default) {
            Some(port) => {
                if port == 0 {
                    return Err("port default must be a number from 1 to 65535".to_owned());
                }
                Ok(PortSpec { key, default: Some(port) })
            },
            None => Err("port default must be a number from 1 to 65535".to_owned()),
        },
    }
}

/// Why a port cannot be written, if so: its form, or a missing file to find its value in.
pub open spec fn port_problem(has_env: bool) -> spec_fn(Seq<char>) -> Option<Seq<char>> {
    |port: Seq<char>|
        match port_spec(port) {
            Err(message) => Some(message),
            Ok((key, default)) => if default is None && !has_env {
                Some(
                    "wt.port = "@ + port + " requires --env or an explicit default such as "@ + port + ":3000"@,
                )
            } else {
                None
            },
        }
}

/// Whether a command fits on one line.
pub open spec fn one_line(command: Option<Seq<char>>) -> bool {
    command matches Some(s) ==> !s.contains('\n') && !s.contains('\r')
}

/// Whether settings may be written, or the first reason why not.
pub open spec fn writable(settings: Settings) -> Result<(), Seq<char>> {
    match paths_checked(settings) {
        Err(message) => Err(message),
        Ok(()) => if settings.compose && settings.env is None {
            Err("wt.compose requires --env"@)
        } else {
            match model::first_some(settings.ports, port_problem(settings.env is Some)) {
                Some(message) => Err(message),
                None => if one_line(settings.bootstrap) && one_line(settings.teardown) {
                    Ok(())
                } else {
                    Err("setup commands must fit on one line"@)
                },
            }
        },
    }
}

fn fits_on_one_line(command: &Option<String>) -> (r: bool)
    ensures
        r == one_line(model::opt(*command)),
{
    match command {
        Some(s) => !text::has_char(s, '\n') && !text::has_char(s, '\r'),
        None => true,
    }
}

// ---------------------------------------------------------------------------
// Writing
// ---------------------------------------------------------------------------

/// Whether a character outside ASCII is a letter or a digit by its Unicode properties.
pub uninterp spec fn unicode_alphanumeric(c: char) -> bool;

/// Whether a character is a letter or a digit.
pub open spec fn alphanumeric(c: char) -> bool {
    if (c as u32) < 128 {
        text::is_ascii_alphanumeric(c)
    } else {
        unicode_alphanumeric(c)
    }
}

/// Calls `char::is_alphanumeric`, which tests the Unicode properties `Alphabetic` and `Numeric`.
/// In ASCII the letters and the digits have one of them; the answer for other characters is named,
/// not listed.
#[verifier::external_body]
fn is_alphanumeric(c: char) -> (r: bool)
    ensures
        (c as u32) < 128 ==> r == text::is_ascii_alphanumeric(c),
        (c as u32) >= 128 ==> r == unicode_alphanumeric(c),
{
    c.is_alphanumeric()
}

/// Whether a character may stand in a value without quotes.
pub open spec fn is_plain(c: char) -> bool {
    alphanumeric(c) || c == '.' || c == '_' || c == '/' || c == '-'
}

/// A value with a backslash before each backslash and each quote.
pub open spec fn guarded(s: Seq<char>) -> Seq<char>
    decreases s.len(),
{
    if s.len() == 0 {
        Seq::empty()
    } else if s.last() == '\\' || s.last() == '"' {
        guarded(s.drop_last()) + seq!['\\', s.last()]
    } else {
        guarded(s.drop_last()) + seq![s.last()]
    }
}

/// A value as it is written: bare where all of its characters are plain, else in quotes.
pub open spec fn quoted(s: Seq<char>) -> Seq<char> {
    if forall|i: int| 0 <= i < s.len() ==> is_plain(#[trigger] s[i]) {
        s
    } else {
        seq!['"'] + guarded(s) + seq!['"']
    }
}

pub fn quote(value: &str) -> (r: String)
    ensures
        r@ == quoted(value@),
{
    let source = text::chars(value);
    let mut plain = true;
    for i in 0..source.len()
        invariant
            source@ == value@,
            plain == (forall|k: int| 0 <= k < i ==> is_plain(#[trigger] value@[k])),
    {
        let c = source[i];
        assert(value@[i as int] == c);
        if !(is_alphanumeric(c) || c == '.' || c == '_' || c == '/' || c == '-') {
            plain = false;
        }
    }
    if plain {
        return value.to_owned();
    }
    let mut body = String::new();
    for i in 0..source.len()
        invariant
            source@ == value@,
            body@ == guarded(value@.take(i as int)),
    {
        let c = source[i];
        proof {
            model::step(value@, i as int);
        }
        let ghost before = body@;
        if c == '\\' || c == '"' {
            body.push('\\');
            body.push(c);
            assert(body@ =~= before + seq!['\\', c]);
        } else {
            body.push(c);
            assert(body@ =~= before + seq![c]);
        }
    }
    proof {
        model::whole(value@);
        reveal_strlit("\"");
        assert("\""@ =~= seq!['"']);
    }
    text::concat3("\"", &body, "\"")
}

/// What the text of a value stands for: quotes are dropped, and a backslash gives the character
/// behind it.
pub open spec fn unquoted(s: Seq<char>) -> Seq<char>
    decreases s.len(),
{
    if s.len() == 0 {
        Seq::empty()
    } else if s[0] == '\\' && s.len() > 1 {
        seq![s[1]] + unquoted(s.skip(2))
    } else if s[0] == '"' {
        unquoted(s.drop_first())
    } else {
        seq![s[0]] + unquoted(s.drop_first())
    }
}

proof fn lemma_unquoted_guarded(s: Seq<char>, rest: Seq<char>)
    ensures
        unquoted(guarded(s) + rest) == s + unquoted(rest),
    decreases s.len(),
{
    if s.len() == 0 {
        assert(guarded(s) + rest =~= rest);
        assert(s + unquoted(rest) =~= unquoted(rest));
    } else {
        let c = s.last();
        let init = s.drop_last();
        assert(s =~= init.push(c));
        if c == '\\' || c == '"' {
            let tail = seq!['\\', c] + rest;
            assert(guarded(s) + rest =~= guarded(init) + tail);
            lemma_unquoted_guarded(init, tail);
            assert(tail.skip(2) =~= rest);
            assert(unquoted(tail) == seq![c] + unquoted(rest));
        } else {
            let tail = seq![c] + rest;
            assert(guarded(s) + rest =~= guarded(init) + tail);
            lemma_unquoted_guarded(init, tail);
            assert(tail.drop_first() =~= rest);
            assert(unquoted(tail) == seq![c] + unquoted(rest));
        }
        assert(init + (seq![c] + unquoted(rest)) =~= s + unquoted(rest));
    }
}

proof fn lemma_plain_reads_back(s: Seq<char>)
    requires
        forall|i: int| 0 <= i < s.len() ==> is_plain(#[trigger] s[i]),
    ensures
        unquoted(s) == s,
    decreases s.len(),
{
    if s.len() > 0 {
        assert(is_plain(s[0]));
        let rest = s.drop_first();
        assert forall|i: int| 0 <= i < rest.len() implies is_plain(#[trigger] rest[i]) by {
            assert(rest[i] == s[i + 1]);
        }
        lemma_plain_reads_back(rest);
        assert(seq![s[0]] + rest =~= s);
    }
}

/// A value reads back as it was written.
pub proof fn quotes_read_back(s: Seq<char>)
    ensures
        unquoted(quoted(s)) == s,
{
    if forall|i: int| 0 <= i < s.len() ==> is_plain(#[trigger] s[i]) {
        lemma_plain_reads_back(s);
    }
    let body = guarded(s) + seq!['"'];
    assert((seq!['"'] + guarded(s) + seq!['"']).drop_first() =~= body);
    lemma_unquoted_guarded(s, seq!['"']);
    assert(seq!['"'].drop_first() =~= Seq::<char>::empty());
    assert(unquoted(Seq::<char>::empty()) =~= Seq::<char>::empty());
    assert(unquoted(seq!['"']) =~= Seq::<char>::empty());
    assert(s + unquoted(seq!['"']) =~= s);
}

/// One line of the file.
pub open spec fn setting_line(key: Seq<char>, value: Seq<char>) -> Seq<char> {
    "\t"@ + key + " = "@ + quoted(value)
}

/// The line of an optional setting, if it is there.
pub open spec fn optional_line(key: Seq<char>, value: Option<Seq<char>>) -> Seq<Seq<char>> {
    match value {
        Some(value) => seq![setting_line(key, value)],
        None => Seq::empty(),
    }
}

/// The lines of a repeated setting.
pub open spec fn repeated_lines(key: Seq<char>, values: Seq<Seq<char>>) -> Seq<Seq<char>> {
    values.map_values(|value: Seq<char>| setting_line(key, value))
}

/// The file that settings are written to: a section, then each setting on a line of its own.
pub open spec fn rendered(settings: Settings) -> Seq<char> {
    text::joined(
        seq!["[wt]"@] + optional_line("base"@, settings.base) + optional_line("env"@, settings.env) + repeated_lines(
            "copy"@,
            settings.copies,
        ) + (if settings.compose {
            seq!["\tcompose = true"@]
        } else {
            Seq::empty()
        }) + repeated_lines("port"@, settings.ports) + optional_line("bootstrap"@, settings.bootstrap) + optional_line(
            "teardown"@,
            settings.teardown,
        ) + repeated_lines("disposable"@, settings.disposable) + seq![""@],
        "\n"@,
    )
}

fn push(lines: &mut Vec<String>, key: &str, value: &Option<String>)
    ensures
        model::views(final(lines)@) == model::views(old(lines)@) + optional_line(key@, model::opt(*value)),
{
    match value {
        Some(value) => {
            let mut line = text::concat3("\t", key, " = ");
            line.append(&quote(value));
            let ghost before = model::views(lines@);
            lines.push(line);
            assert(model::views(lines@) =~= before + seq![line@]);
        },
        None => {
            assert(model::views(lines@) =~= model::views(lines@) + Seq::<Seq<char>>::empty());
        },
    }
}

fn push_all(lines: &mut Vec<String>, key: &str, values: &Vec<String>)
    ensures
        model::views(final(lines)@) == model::views(old(lines)@) + repeated_lines(key@, model::views(values@)),
{
    let ghost before = model::views(lines@);
    let ghost wanted = repeated_lines(key@, model::views(values@));
    assert(before + wanted.take(0) =~= before);
    for i in 0..values.len()
        invariant
            wanted == repeated_lines(key@, model::views(values@)),
            model::views(lines@) == before + wanted.take(i as int),
    {
        let mut line = text::concat3("\t", key, " = ");
        line.append(&quote(&values[i]));
        proof {
            model::step(wanted, i as int);
            assert(wanted[i as int] == line@);
            assert(before + wanted.take(i + 1) =~= (before + wanted.take(i as int)).push(line@));
        }
        lines.push(line);
    }
    proof {
        model::whole(wanted);
    }
}

/// A file and what is to be written to it.
pub struct FileText {
    pub path: String,
    pub contents: String,
}

/// By what the commands of a configuration are known: nothing where there are none, else both of
/// them in JSON.
pub open spec fn fingerprint(bootstrap: Option<Seq<char>>, teardown: Option<Seq<char>>) -> Option<Seq<char>> {
    if bootstrap is None && teardown is None {
        None
    } else {
        Some(json::json_pair(bootstrap, teardown))
    }
}

/// Configurations have the same fingerprint exactly where they have the same commands.
pub proof fn fingerprints_tell_commands_apart(
    bootstrap: Option<Seq<char>>,
    teardown: Option<Seq<char>>,
    other_bootstrap: Option<Seq<char>>,
    other_teardown: Option<Seq<char>>,
)
    ensures
        fingerprint(bootstrap, teardown) == fingerprint(other_bootstrap, other_teardown) <==> bootstrap
            == other_bootstrap && teardown == other_teardown,
{
    if fingerprint(bootstrap, teardown) == fingerprint(other_bootstrap, other_teardown) && fingerprint(
        bootstrap,
        teardown,
    ) is Some {
        json::json_pairs_are_distinct(bootstrap, teardown, other_bootstrap, other_teardown);
    }
}

fn borrowed(s: &Option<String>) -> (r: Option<&str>)
    ensures
        model::opt_str(r) == model::opt(*s),
{
    match s {
        Some(s) => Some(s.as_str()),
        None => None,
    }
}

impl Config {
    /// Reads the settings from what `git config --null --list` printed for the file; a repository
    /// without the file has none.
    pub fn load(file: &str, output: Option<&Output>) -> (r: Result<Config, String>)
        ensures
            model::outcome(r) == loaded(
                file@,
                match output {
                    Some(output) => Some(*output),
                    None => None,
                },
            ),
    {
        let output = match output {
            Some(output) => output,
            None => {
                return Ok(Config::default());
            },
        };
        let entries = match entries(file, output) {
            Ok(entries) => entries,
            Err(message) => {
                return Err(message);
            },
        };
        let config = Config {
            base: value(&entries, "wt.base"),
            env: value(&entries, "wt.env"),
            copies: values(&entries, "wt.copy"),
            compose: match value(&entries, "wt.compose") {
                Some(value) => is_true(&value),
                None => false,
            },
            ports: values(&entries, "wt.port"),
            bootstrap: value(&entries, "wt.bootstrap"),
            teardown: value(&entries, "wt.teardown"),
            disposable: values(&entries, "wt.disposable"),
        };
        assert(config@ =~= settings_of(model::pairs(entries@)));
        match config.validate_paths() {
            Ok(()) => Ok(config),
            Err(message) => Err(message),
        }
    }

    pub fn copied_files(&self) -> (r: Vec<String>)
        ensures
            model::views(r@) == files_to_copy(self@),
    {
        let mut found: Vec<String> = Vec::new();
        match &self.env {
            Some(env) => {
                found.push(env.clone());
                assert(model::views(found@) =~= seq![env@]);
            },
            None => {
                assert(model::views(found@) =~= Seq::empty());
            },
        }
        let ghost first = model::views(found@);
        let ghost copies = model::views(self.copies@);
        assert(copies.take(0) =~= Seq::<Seq<char>>::empty());
        for i in 0..self.copies.len()
            invariant
                copies == model::views(self.copies@),
                model::views(found@) == gathered(first, copies.take(i as int)),
        {
            proof {
                model::step(copies, i as int);
            }
            if !paths::list_contains(&found, &self.copies[i]) {
                found.push(self.copies[i].clone());
            }
        }
        proof {
            model::whole(copies);
        }
        found
    }

    /// By what trust in the commands is given.
    pub fn command_fingerprint(&self) -> (r: Result<Option<String>, String>)
        ensures
            model::outcome_opt(r) == Ok::<Option<Seq<char>>, Seq<char>>(fingerprint(self@.bootstrap, self@.teardown)),
    {
        if self.bootstrap.is_none() && self.teardown.is_none() {
            return Ok(None);
        }
        match json::pair_to_string(borrowed(&self.bootstrap), borrowed(&self.teardown)) {
            Ok(s) => Ok(Some(s)),
            Err(_) => Err("cannot fingerprint commands".to_owned()),
        }
    }

    /// The file to write, and its contents.
    pub fn write(&self, repo: &str) -> (r: FileText)
        ensures
            r.path@ == paths::joined(repo@, ".wtconfig"@),
            r.contents@ == rendered(self@),
    {
        FileText { path: paths::join(repo, ".wtconfig"), contents: self.render() }
    }

    pub fn validate_for_write(&self) -> (r: Result<(), String>)
        ensures
            model::outcome(r) == writable(self@),
    {
        match self.validate_paths() {
            Ok(()) => {},
            Err(message) => {
                return Err(message);
            },
        }
        if self.compose && self.env.is_none() {
            return Err("wt.compose requires --env".to_owned());
        }
        let has_env = self.env.is_some();
        let ghost all = model::views(self.ports@);
        let ghost problem = port_problem(has_env);
        for i in 0..self.ports.len()
            invariant
                all == model::views(self.ports@),
                problem == port_problem(has_env),
                has_env == self.env is Some,
                paths_checked(self@) is Ok,
                !(self.compose && self.env is None),
                forall|k: int| 0 <= k < i ==> problem(#[trigger] all[k]) is None,
        {
            let port = self.ports[i].as_str();
            assert(all[i as int] == port@);
            match parse_port_spec(port) {
                Ok(spec) => {
                    if spec.default.is_none() && !has_env {
                        let mut message = text::concat3(
                            "wt.port = ",
                            port,
                            " requires --env or an explicit default such as ",
                        );
                        message.append(port);
                        message.append(":3000");
                        proof {
                            model::found_some(all, problem, i as int);
                        }
                        return Err(message);
                    }
                },
                Err(message) => {
                    proof {
                        model::found_some(all, problem, i as int);
                    }
                    return Err(message);
                },
            }
        }
        proof {
            model::found_none(all, problem);
        }
        if fits_on_one_line(&self.bootstrap) && fits_on_one_line(&self.teardown) {
            Ok(())
        } else {
            Err("setup commands must fit on one line".to_owned())
        }
    }

    fn render(&self) -> (r: String)
        ensures
            r@ == rendered(self@),
    {
        let mut lines: Vec<String> = Vec::new();
        lines.push("[wt]".to_owned());
        assert(model::views(lines@) =~= seq!["[wt]"@]);
        push(&mut lines, "base", &self.base);
        push(&mut lines, "env", &self.env);
        push_all(&mut lines, "copy", &self.copies);
        let ghost before = model::views(lines@);
        if self.compose {
            lines.push("\tcompose = true".to_owned());
            assert(model::views(lines@) =~= before + seq!["\tcompose = true"@]);
        } else {
            assert(before + Seq::<Seq<char>>::empty() =~= before);
        }
        push_all(&mut lines, "port", &self.ports);
        push(&mut lines, "bootstrap", &self.bootstrap);
        push(&mut lines, "teardown", &self.teardown);
        push_all(&mut lines, "disposable", &self.disposable);
        let ghost body = model::views(lines@);
        lines.push("".to_owned());
        assert(model::views(lines@) =~= body + seq![""@]);
        text::join(&lines, "\n")
    }

    fn validate_paths(&self) -> (r: Result<(), String>)
        ensures
            model::outcome(r) == paths_checked(self@),
    {
        let copied = self.copied_files();
        let ghost all = files_to_copy(self@) + self@.disposable;
        let count: usize = copied.len();
        for i in 0..copied.len()
            invariant
                all == files_to_copy(self@) + self@.disposable,
                model::views(copied@) == files_to_copy(self@),
                forall|k: int| 0 <= k < i ==> outside()(#[trigger] all[k]) is None,
        {
            assert(all[i as int] == copied@[i as int]@);
            if !stays_inside(&copied[i]) {
                proof {
                    model::found_some(all, outside(), i as int);
                }
                return Err(text::concat("configured paths must stay inside the repository: ", &copied[i]));
            }
        }
        for i in 0..self.disposable.len()
            invariant
                count == copied@.len(),
                all == files_to_copy(self@) + self@.disposable,
                model::views(copied@) == files_to_copy(self@),
                forall|k: int| 0 <= k < count + i ==> outside()(#[trigger] all[k]) is None,
        {
            assert(all[count + i] == self.disposable@[i as int]@);
            if !stays_inside(&self.disposable[i]) {
                proof {
                    model::found_some(all, outside(), count + i);
                }
                return Err(
                    text::concat("configured paths must stay inside the repository: ", &self.disposable[i]),
                );
            }
        }
        proof {
            model::found_none(all, outside());
        }
        Ok(())
    }
}

// ---------------------------------------------------------------------------
// What the settings hold
// ---------------------------------------------------------------------------

/// The values of a key are those of its entries, in their order: what two files give one after the
/// other is what the first gives, then what the second gives, and an entry counts exactly under its
/// own key.
pub proof fn values_are_those_of_the_entries(
    entries: Seq<(Seq<char>, Seq<char>)>,
    more: Seq<(Seq<char>, Seq<char>)>,
    key: Seq<char>,
    other: Seq<char>,
    value: Seq<char>,
)
    ensures
        values_of(entries + more, key) == values_of(entries, key) + values_of(more, key),
        values_of(seq![(key, value)], key) == seq![value],
        other != key ==> values_of(seq![(other, value)], key) == Seq::<Seq<char>>::empty(),
        forall|k: int|
            0 <= k < entries.len() && (#[trigger] entries[k]).0 == key ==> values_of(entries, key).contains(
                entries[k].1,
            ),
{
    let f = value_under(key);
    model::filter_map_adds(entries, more, f);
    model::filter_map_one((key, value), f);
    model::filter_map_one((other, value), f);
    model::filter_map_keeps(entries, f);
    assert forall|k: int| 0 <= k < entries.len() && (#[trigger] entries[k]).0 == key implies values_of(
        entries,
        key,
    ).contains(entries[k].1) by {
        assert(f(entries[k]) == Some(entries[k].1));
    }
}

/// The value of a key is the first of its values, and there is none exactly where it has none.
pub proof fn the_value_is_the_first_of_the_values(entries: Seq<(Seq<char>, Seq<char>)>, key: Seq<char>)
    ensures
        value_of(entries, key) == if values_of(entries, key).len() > 0 {
            Some(values_of(entries, key)[0])
        } else {
            None
        },
    decreases entries.len(),
{
    let f = value_under(key);
    if entries.len() > 0 {
        let init = entries.drop_last();
        the_value_is_the_first_of_the_values(init, key);
        assert(entries =~= init.push(entries.last()));
        model::first_some_push(init, entries.last(), f);
        assert(entries =~= init + seq![entries.last()]);
        model::filter_map_adds(init, seq![entries.last()], f);
        model::filter_map_one(entries.last(), f);
        let before = values_of(init, key);
        let all = values_of(entries, key);
        if before.len() > 0 {
            assert(all[0] == before[0]);
        } else {
            assert(all =~= seq![entries.last()].filter_map(f));
        }
    }
}

/// Every setting is read from its own key: lists take every value, single settings the first, and an
/// entry under any other key changes nothing.
pub proof fn settings_are_read_from_their_keys(entries: Seq<(Seq<char>, Seq<char>)>, k: int)
    requires
        0 <= k < entries.len(),
    ensures
        ({
            let settings = settings_of(entries);
            let (key, value) = entries[k];
            &&& key == "wt.copy"@ ==> settings.copies.contains(value)
            &&& key == "wt.port"@ ==> settings.ports.contains(value)
            &&& key == "wt.disposable"@ ==> settings.disposable.contains(value)
            &&& key == "wt.base"@ ==> settings.base is Some
            &&& key == "wt.env"@ ==> settings.env is Some
            &&& key == "wt.bootstrap"@ ==> settings.bootstrap is Some
            &&& key == "wt.teardown"@ ==> settings.teardown is Some
            &&& (forall|i: int| 0 <= i < k ==> (#[trigger] entries[i]).0 != key) ==> {
                &&& key == "wt.base"@ ==> settings.base == Some(value)
                &&& key == "wt.env"@ ==> settings.env == Some(value)
                &&& key == "wt.bootstrap"@ ==> settings.bootstrap == Some(value)
                &&& key == "wt.teardown"@ ==> settings.teardown == Some(value)
                &&& key == "wt.compose"@ ==> settings.compose == switched_on(value)
            }
        }),
{
    let (key, value) = entries[k];
    let none = Seq::<(Seq<char>, Seq<char>)>::empty();
    values_are_those_of_the_entries(entries, none, key, key, value);
    the_value_is_the_first_of_the_values(entries, key);
    assert(values_of(entries, key).contains(value));
    assert(values_of(entries, key).len() > 0);
    if forall|i: int| 0 <= i < k ==> (#[trigger] entries[i]).0 != key {
        let f = value_under(key);
        assert forall|i: int| 0 <= i < k implies f(#[trigger] entries[i]) is None by {
            assert(entries[i].0 != key);
        }
        model::found_some(entries, f, k);
    }
}

/// A setting is there only where an entry under its key is.
pub proof fn settings_come_from_entries(entries: Seq<(Seq<char>, Seq<char>)>, key: Seq<char>)
    ensures
        forall|value: Seq<char>| #[trigger]
            values_of(entries, key).contains(value) ==> exists|k: int|
                0 <= k < entries.len() && #[trigger] entries[k] == (key, value),
{
    let f = value_under(key);
    model::filter_map_keeps(entries, f);
    assert forall|value: Seq<char>| #[trigger] values_of(entries, key).contains(value) implies exists|k: int|
        0 <= k < entries.len() && #[trigger] entries[k] == (key, value) by {
        let k = choose|k: int| 0 <= k < entries.len() && f(#[trigger] entries[k]) == Some(value);
        assert(entries[k] == (key, value));
    }
}

/// The env file and every configured path are copied, each path once, and nothing else is: the env
/// file comes first, and the others follow in their order.
pub proof fn every_configured_file_is_copied(settings: Settings)
    ensures
        settings.env matches Some(env) ==> files_to_copy(settings).len() > 0 && files_to_copy(settings)[0] == env,
        forall|k: int|
            0 <= k < settings.copies.len() ==> paths::listed(files_to_copy(settings), #[trigger] settings.copies[k]),
        forall|p: Seq<char>| #[trigger]
            files_to_copy(settings).contains(p) ==> settings.env == Some(p) || settings.copies.contains(p),
        forall|i: int, j: int|
            0 <= i < j < files_to_copy(settings).len() ==> !paths::same_path(
                #[trigger] files_to_copy(settings)[i],
                #[trigger] files_to_copy(settings)[j],
            ),
{
    let first = match settings.env {
        Some(env) => seq![env],
        None => Seq::empty(),
    };
    lemma_gathered(first, settings.copies);
    let all = files_to_copy(settings);
    assert(all == gathered(first, settings.copies));
    if settings.env is Some {
        assert(all.subrange(0, 1)[0] == first[0]);
    }
    assert forall|p: Seq<char>| #[trigger] all.contains(p) implies settings.env == Some(p) || settings.copies.contains(
        p,
    ) by {
        if first.contains(p) {
            let i = choose|i: int| 0 <= i < first.len() && first[i] == p;
            assert(settings.env == Some(first[0]));
        }
    }
}

proof fn lemma_gathered(first: Seq<Seq<char>>, copies: Seq<Seq<char>>)
    requires
        first.len() <= 1,
    ensures
        first.is_prefix_of(gathered(first, copies)),
        forall|k: int| 0 <= k < copies.len() ==> paths::listed(gathered(first, copies), #[trigger] copies[k]),
        forall|p: Seq<char>| #[trigger]
            gathered(first, copies).contains(p) ==> first.contains(p) || copies.contains(p),
        forall|i: int, j: int|
            0 <= i < j < gathered(first, copies).len() ==> !paths::same_path(
                #[trigger] gathered(first, copies)[i],
                #[trigger] gathered(first, copies)[j],
            ),
    decreases copies.len(),
{
    if copies.len() > 0 {
        let init = copies.drop_last();
        let last = copies[copies.len() - 1];
        let before = gathered(first, init);
        let all = gathered(first, copies);
        lemma_gathered(first, init);
        assert forall|k: int| 0 <= k < copies.len() implies paths::listed(all, #[trigger] copies[k]) by {
            if k < init.len() {
                assert(init[k] == copies[k]);
                let i = choose|i: int| 0 <= i < before.len() && paths::same_path(#[trigger] before[i], init[k]);
                assert(all[i] == before[i]);
            } else if paths::listed(before, last) {
                let i = choose|i: int| 0 <= i < before.len() && paths::same_path(#[trigger] before[i], last);
                assert(all[i] == before[i]);
            } else {
                assert(all[all.len() - 1] == last);
                assert(paths::same_path(all[all.len() - 1], last));
            }
        }
        assert forall|p: Seq<char>| #[trigger] all.contains(p) implies first.contains(p) || copies.contains(p) by {
            let i = choose|i: int| 0 <= i < all.len() && all[i] == p;
            if i < before.len() {
                assert(before[i] == p);
                assert(before.contains(p));
                if init.contains(p) {
                    let k = choose|k: int| 0 <= k < init.len() && init[k] == p;
                    assert(copies[k] == p);
                }
            } else {
                assert(copies[copies.len() - 1] == p);
            }
        }
        assert forall|i: int, j: int| 0 <= i < j < all.len() implies !paths::same_path(
            #[trigger] all[i],
            #[trigger] all[j],
        ) by {
            assert(all[i] == before[i]);
            if j < before.len() {
                assert(all[j] == before[j]);
            } else {
                assert(!paths::same_path(before[i], last));
            }
        }
        assert(first =~= all.subrange(0, first.len() as int));
    } else {
        assert(first =~= first.subrange(0, first.len() as int));
    }
}

/// A configured port is a variable's name, alone or with its default behind a colon: the default is
/// any number from 1 to 65535, and nothing else is accepted.
pub proof fn ports_name_a_variable_and_a_default(key: Seq<char>, port: u16, rest: Seq<char>)
    requires
        is_variable(key),
    ensures
        port_spec(key) == Ok::<(Seq<char>, Option<u16>), Seq<char>>((key, None)),
        port > 0 ==> port_spec(key + ":"@ + text::decimal(port as nat)) == Ok::<(Seq<char>, Option<u16>), Seq<char>>(
            (key, Some(port)),
        ),
        port_spec(key + ":"@ + text::decimal(0)) is Err,
        port_spec(key + ":"@ + rest) is Ok <==> (text::number(rest) matches Some(n) && 0 < n <= 65535),
{
    reveal_strlit(":");
    assert(":"@ =~= seq![':']);
    if key.contains(':') {
        let i = choose|i: int| 0 <= i < key.len() && key[i] == ':';
        assert(key[i] == '_' || text::is_ascii_alphanumeric(key[i]));
    }
    if text::has_part(key, ":"@) {
        let at = choose|at: int| text::occurs_at(key, ":"@, at);
        assert(key.subrange(at, at + 1)[0] == key[at]);
        assert(key.contains(key[at]));
    }
    text::texts_without_the_separator_are_not_cut(key, ":"@);
    text::texts_are_cut_at_the_first_character(key, ':', text::decimal(port as nat));
    text::texts_are_cut_at_the_first_character(key, ':', text::decimal(0));
    text::texts_are_cut_at_the_first_character(key, ':', rest);
    text::decimal_reads_back(port as nat);
    text::decimal_reads_back(0);
}

/// What does not begin with a variable's name is no port.
pub proof fn ports_need_a_variable(value: Seq<char>)
    ensures
        port_spec(value) matches Ok((key, default)) ==> is_variable(key) && key.is_prefix_of(value) && (default is None
            ==> key == value) && (default is Some ==> key.len() < value.len() && value[key.len() as int] == ':'),
{
    reveal_strlit(":");
    text::lemma_first_at(value, ":"@);
    match text::first_at(value, ":"@) {
        Some(at) => {
            assert(value.subrange(at, at + 1)[0] == value[at]);
            assert(value.take(at) =~= value.subrange(0, at));
        },
        None => {
            assert(value =~= value.subrange(0, value.len() as int));
        },
    }
}

/// Settings may be written exactly where every path stays inside the repository, Compose has an env
/// file, every port is well formed and has a default or an env file, and both commands fit on one
/// line.
pub proof fn settings_are_writable_when_complete(settings: Settings)
    ensures
        writable(settings) is Ok <==> {
            &&& forall|i: int| 0 <= i < files_to_copy(settings).len() ==> inside(#[trigger] files_to_copy(settings)[i])
            &&& forall|i: int| 0 <= i < settings.disposable.len() ==> inside(#[trigger] settings.disposable[i])
            &&& settings.compose ==> settings.env is Some
            &&& forall|i: int|
                0 <= i < settings.ports.len() ==> (port_spec(#[trigger] settings.ports[i]) matches Ok((_, default)) && (
                default is Some || settings.env is Some))
            &&& settings.bootstrap matches Some(s) ==> !s.contains('\n') && !s.contains('\r')
            &&& settings.teardown matches Some(s) ==> !s.contains('\n') && !s.contains('\r')
        },
{
    let g = port_problem(settings.env is Some);
    lemma_inside_all(settings);
    if model::first_some(settings.ports, g) is None {
        assert forall|i: int| 0 <= i < settings.ports.len() implies (port_spec(
            #[trigger] settings.ports[i],
        ) matches Ok((_, default)) && (default is Some || settings.env is Some)) by {
            model::none_found(settings.ports, g, i);
        }
    }
    if forall|i: int|
        0 <= i < settings.ports.len() ==> (port_spec(#[trigger] settings.ports[i]) matches Ok((_, default)) && (
        default is Some || settings.env is Some)) {
        assert forall|i: int| 0 <= i < settings.ports.len() implies g(#[trigger] settings.ports[i]) is None by {
            assert(port_spec(settings.ports[i]) is Ok);
        }
        model::found_none(settings.ports, g);
    }
}

proof fn lemma_inside_all(settings: Settings)
    ensures
        paths_checked(settings) is Ok <==> {
            &&& forall|i: int| 0 <= i < files_to_copy(settings).len() ==> inside(#[trigger] files_to_copy(settings)[i])
            &&& forall|i: int| 0 <= i < settings.disposable.len() ==> inside(#[trigger] settings.disposable[i])
        },
{
    let files = files_to_copy(settings);
    let all = files + settings.disposable;
    let f = outside();
    if model::first_some(all, f) is None {
        assert forall|i: int| 0 <= i < files.len() implies inside(#[trigger] files[i]) by {
            model::none_found(all, f, i);
            assert(all[i] == files[i]);
        }
        assert forall|i: int| 0 <= i < settings.disposable.len() implies inside(#[trigger] settings.disposable[i]) by {
            model::none_found(all, f, files.len() + i);
            assert(all[files.len() + i] == settings.disposable[i]);
        }
    }
    if (forall|i: int| 0 <= i < files.len() ==> inside(#[trigger] files[i])) && (forall|i: int|
        0 <= i < settings.disposable.len() ==> inside(#[trigger] settings.disposable[i])) {
        assert forall|i: int| 0 <= i < all.len() implies f(#[trigger] all[i]) is None by {
            if i < files.len() {
                assert(all[i] == files[i]);
            } else {
                assert(all[i] == settings.disposable[i - files.len()]);
            }
        }
        model::found_none(all, f);
    }
}

/// Loaded settings are those of the file's entries, and are refused only where a path leaves the
/// repository.
pub proof fn loading_checks_paths_alone(file: Seq<char>, output: Output, entries: Seq<(Seq<char>, Seq<char>)>)
    requires
        listed_entries(file, output) == Ok::<Seq<(Seq<char>, Seq<char>)>, Seq<char>>(entries),
    ensures
        loaded(file, Some(output)) matches Ok(settings) ==> settings == settings_of(entries),
        loaded(file, Some(output)) is Ok <==> {
            let settings = settings_of(entries);
            &&& forall|i: int| 0 <= i < files_to_copy(settings).len() ==> inside(#[trigger] files_to_copy(settings)[i])
            &&& forall|i: int| 0 <= i < settings.disposable.len() ==> inside(#[trigger] settings.disposable[i])
        },
        loaded(file, None) == Ok::<Settings, Seq<char>>(no_settings()),
{
    lemma_inside_all(settings_of(entries));
}

/// A variable's name is made of letters, digits and underscores and does not begin with a digit.
pub proof fn variables_have_plain_names(key: Seq<char>)
    ensures
        is_variable(key) <==> {
            &&& key.len() > 0
            &&& !('0' <= key[0] && key[0] <= '9')
            &&& forall|i: int|
                0 <= i < key.len() ==> ('a' <= #[trigger] key[i] && key[i] <= 'z') || ('A' <= key[i] && key[i] <= 'Z')
                    || ('0' <= key[i] && key[i] <= '9') || key[i] == '_'
        },
{
    if key.len() > 0 && is_variable(key) {
        assert(key[0] == '_' || text::is_ascii_alphanumeric(key[0]));
    }
}

/// A value of letters, digits, dots, underscores, slashes and hyphens is written as it is; one with
/// any other ASCII character is written in quotes.
pub proof fn plain_values_need_no_quotes(s: Seq<char>, k: int)
    ensures
        (forall|i: int|
            0 <= i < s.len() ==> ('a' <= #[trigger] s[i] && s[i] <= 'z') || ('A' <= s[i] && s[i] <= 'Z') || ('0' <= s[i]
                && s[i] <= '9') || s[i] == '.' || s[i] == '_' || s[i] == '/' || s[i] == '-') ==> quoted(s) == s,
        0 <= k < s.len() && (s[k] as u32) < 128 && !(('a' <= s[k] && s[k] <= 'z') || ('A' <= s[k] && s[k] <= 'Z') || (
        '0' <= s[k] && s[k] <= '9') || s[k] == '.' || s[k] == '_' || s[k] == '/' || s[k] == '-') ==> {
            &&& quoted(s).len() >= 2
            &&& quoted(s)[0] == '"'
            &&& quoted(s).last() == '"'
        },
{
    if forall|i: int|
        0 <= i < s.len() ==> ('a' <= #[trigger] s[i] && s[i] <= 'z') || ('A' <= s[i] && s[i] <= 'Z') || ('0' <= s[i]
            && s[i] <= '9') || s[i] == '.' || s[i] == '_' || s[i] == '/' || s[i] == '-' {
        assert forall|i: int| 0 <= i < s.len() implies is_plain(#[trigger] s[i]) by {
            assert((s[i] as u32) < 128);
        }
    }
    if 0 <= k < s.len() && (s[k] as u32) < 128 && !(('a' <= s[k] && s[k] <= 'z') || ('A' <= s[k] && s[k] <= 'Z') || (
    '0' <= s[k] && s[k] <= '9') || s[k] == '.' || s[k] == '_' || s[k] == '/' || s[k] == '-') {
        assert(!is_plain(s[k]));
    }
}

/// A value switches a setting on exactly where it is `true`, `yes`, `on` or `1`, in large or small
/// letters.
pub proof fn four_words_switch_on(value: Seq<char>, spelled: Seq<char>)
    requires
        text::lower_text(value) == text::lower_text(spelled),
    ensures
        switched_on(value) == switched_on(spelled),
        text::lower_text(value) == "true"@ || text::lower_text(value) == "yes"@ || text::lower_text(value) == "on"@
            || text::lower_text(value) == "1"@ <==> switched_on(value),
{
}

/// What was asked for decides where worktrees go, then the configuration, then the home directory.
pub proof fn the_nearest_root_decides(root: Seq<char>, other: Option<Seq<char>>, home: Option<Seq<char>>)
    ensures
        chosen_root(Some(root), other, home) == Ok::<Seq<char>, Seq<char>>(root),
        chosen_root(None, Some(root), home) == Ok::<Seq<char>, Seq<char>>(root),
        chosen_root(None, None, Some(root)) matches Ok(chosen) && paths::lies_in(chosen, root),
        chosen_root(None, None, None) is Err,
        global_path(Some(root), home) matches Ok(file) && paths::lies_in(file, root),
        global_path(None, Some(root)) matches Ok(file) && paths::lies_in(file, root),
        global_path(None, None) is Err,
{
    reveal_strlit("Developer/worktrees");
    reveal_strlit("wt/config");
    reveal_strlit(".config/wt/config");
    lemma_plain_start("Developer/worktrees"@, root);
    lemma_plain_start("wt/config"@, root);
    lemma_plain_start(".config/wt/config"@, root);
}

proof fn lemma_plain_start(path: Seq<char>, root: Seq<char>)
    requires
        path.len() > 2,
        path[0] != '/',
        path[0] != '.' || path[1] != '/',
    ensures
        paths::lies_in(paths::joined(root, path), root),
{
    if paths::root().is_prefix_of(path) {
        assert(path.subrange(0, 1)[0] == '/');
    }
    paths::a_relative_path_begins_with_a_name(path);
    paths::a_joined_path_lies_in_its_directory(root, path);
}

/// Stored values are the lines that Git prints; that there are none is no failure, and any other
/// failure is one.
pub proof fn stored_values_are_the_printed_lines(file: Seq<char>, output: Output)
    ensures
        output.code == Some(1i32) ==> stored_values(file, output) == Ok::<Seq<Seq<char>>, Seq<char>>(Seq::empty()),
        output.code == Some(0i32) && vstd::utf8::valid_utf8(output.stdout@) ==> stored_values(file, output) == Ok::<
            Seq<Seq<char>>,
            Seq<char>,
        >(text::lines(vstd::utf8::decode_utf8(output.stdout@))),
        output.code != Some(0i32) && output.code != Some(1i32) ==> stored_values(file, output) is Err,
{
}

/// A root is stored exactly where it is absolute and there is a place for the configuration.
pub proof fn only_absolute_roots_are_stored(root: Seq<char>, xdg_config_home: Option<Seq<char>>, home: Option<Seq<char>>)
    ensures
        root_arguments(root, xdg_config_home, home) is Ok <==> root.len() > 0 && root[0] == '/' && (
        xdg_config_home is Some || home is Some),
        root_arguments(root, xdg_config_home, home) matches Ok(arguments) ==> arguments.last() == root
            && arguments.contains("wt.root"@) && global_path(xdg_config_home, home) == Ok::<Seq<char>, Seq<char>>(
            arguments[2],
        ),
{
    if root.len() > 0 {
        assert(root.subrange(0, 1)[0] == root[0]);
        if root[0] == '/' {
            assert(root.subrange(0, 1) =~= paths::root());
        }
    }
    if root_arguments(root, xdg_config_home, home) is Ok {
        let arguments = root_arguments(root, xdg_config_home, home)->Ok_0;
        assert(arguments[3] == "wt.root"@);
    }
}

/// Git's entries are read one by one: the key up to the first line break, the value behind it, and
/// one entry without a value keeps all from being read.
pub proof fn every_entry_is_divided(entries: Seq<Seq<char>>, k: int, key: Seq<char>, value: Seq<char>)
    ensures
        divided(entries) is Some <==> forall|i: int| 0 <= i < entries.len() ==> (#[trigger] entries[i]).contains('\n'),
        divided(entries) matches Some(list) ==> list.len() == entries.len(),
        divided(entries) is Some && 0 <= k < entries.len() && !key.contains('\n') && entries[k] == key + "\n"@ + value
            ==> divided(entries)->0[k] == (key, value),
{
    reveal_strlit("\n");
    assert("\n"@ =~= seq!['\n']);
    assert forall|i: int| 0 <= i < entries.len() implies (text::cut_first(#[trigger] entries[i], "\n"@) is Some
        <==> entries[i].contains('\n')) by {
        lemma_divides(entries[i]);
    }
    if divided(entries) is Some {
        assert forall|i: int| 0 <= i < entries.len() implies (#[trigger] entries[i]).contains('\n') by {
            assert(text::cut_first(entries[i], "\n"@) is Some);
        }
        if 0 <= k < entries.len() && !key.contains('\n') && entries[k] == key + "\n"@ + value {
            text::texts_are_cut_at_the_first_character(key, '\n', value);
        }
    }
}

proof fn lemma_divides(entry: Seq<char>)
    ensures
        text::cut_first(entry, "\n"@) is Some <==> entry.contains('\n'),
{
    reveal_strlit("\n");
    text::lemma_first_at(entry, "\n"@);
    match text::first_at(entry, "\n"@) {
        Some(at) => {
            assert(entry.subrange(at, at + 1)[0] == entry[at]);
            assert(entry.contains(entry[at]));
        },
        None => {
            if entry.contains('\n') {
                let at = choose|at: int| 0 <= at < entry.len() && entry[at] == '\n';
                assert(entry.subrange(at, at + 1) =~= "\n"@);
                assert(text::occurs_at(entry, "\n"@, at));
            }
        },
    }
}

} // verus!
