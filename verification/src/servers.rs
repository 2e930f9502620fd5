//! Finding development servers and their ports in scripts and configuration files.

use vstd::prelude::*;

use crate::model;
use crate::text;

verus! {

broadcast use crate::model::lemma_views_push;

// ---------------------------------------------------------------------------
// Ports on command lines
// ---------------------------------------------------------------------------

/// The port that a command is given: a number, or a variable.
pub enum PortArgument {
    Number(u16),
    Variable(String),
}

pub ghost enum Argument {
    Number(u16),
    Variable(Seq<char>),
}

pub open spec fn opt_argument(argument: Option<PortArgument>) -> Option<Argument> {
    match argument {
        Some(PortArgument::Number(port)) => Some(Argument::Number(port)),
        Some(PortArgument::Variable(key)) => Some(Argument::Variable(key@)),
        None => None,
    }
}

/// A port as it stands on a command line: a number or a variable, perhaps in quotes.
pub open spec fn port_value(value: Seq<char>) -> Option<Argument> {
    let value = text::trimmed_of(value, "'\""@);
    match text::number_upto(value, u16::MAX as nat) {
        Some(port) => Some(Argument::Number(port as u16)),
        None => {
            let braced = match text::after_prefix(value, "${"@) {
                Some(rest) => text::before_suffix(rest, "}"@),
                None => None,
            };
            let key = match braced {
                Some(key) => Some(key),
                None => text::after_prefix(value, "$"@),
            };
            match key {
                Some(key) => if key.len() > 0 {
                    Some(Argument::Variable(key))
                } else {
                    None
                },
                None => None,
            }
        },
    }
}

pub fn parse_port_argument(value: &str) -> (r: Option<PortArgument>)
    ensures
        opt_argument(r) == port_value(value@),
{
    let value = text::trim_matches(value, "'\"");
    match text::parse_u16(&value) {
        Some(port) => {
            return Some(PortArgument::Number(port));
        },
        None => {},
    }
    let braced = match text::strip_prefix(&value, "${") {
        Some(rest) => text::strip_suffix(&rest, "}"),
        None => None,
    };
    let key = match braced {
        Some(key) => Some(key),
        None => text::strip_prefix(&value, "$"),
    };
    match key {
        Some(key) => {
            if key.as_str().is_empty() {
                None
            } else {
                Some(PortArgument::Variable(key))
            }
        },
        None => None,
    }
}

/// The port among the words of a command: behind `--port=`, or the word after `-p` or `--port`.
pub open spec fn port_in(words: Seq<Seq<char>>) -> Option<Argument>
    decreases words.len(),
{
    if words.len() == 0 {
        None
    } else {
        match text::after_prefix(words[0], "--port="@) {
            Some(value) => port_value(value),
            None => if words[0] == "-p"@ || words[0] == "--port"@ {
                if words.len() > 1 {
                    port_value(words[1])
                } else {
                    None
                }
            } else {
                port_in(words.drop_first())
            },
        }
    }
}

pub fn port_argument(command: &str) -> (r: Option<PortArgument>)
    ensures
        opt_argument(r) == port_in(text::words(command@)),
{
    let words = text::split_whitespace(command);
    let ghost all = text::words(command@);
    let mut i: usize = 0;
    assert(all.skip(0) =~= all);
    while i < words.len()
        invariant
            all == model::views(words@),
            i <= all.len(),
            port_in(all) == port_in(all.skip(i as int)),
            all == text::words(command@),
        decreases all.len() - i,
    {
        let ghost rest = all.skip(i as int);
        assert(rest[0] == words@[i as int]@);
        assert(rest.drop_first() =~= all.skip(i + 1));
        match text::strip_prefix(&words[i], "--port=") {
            Some(value) => {
                return parse_port_argument(&value);
            },
            None => {},
        }
        if text::same(&words[i], "-p") || text::same(&words[i], "--port") {
            if i + 1 < words.len() {
                assert(rest[1] == words@[i + 1]@);
                return parse_port_argument(&words[i + 1]);
            }
            return None;
        }
        i += 1;
    }
    None
}

/// Whether a character is part of a word of a script.
pub open spec fn is_word_char(c: char) -> bool {
    text::is_ascii_alphanumeric(c) || c == '_' || c == '-'
}

/// What follows an executable in a script, where its first occurrence is a word of its own.
pub open spec fn command_after(script: Seq<char>, executable: Seq<char>) -> Option<Seq<char>> {
    match text::first_at(script, executable) {
        Some(at) => {
            let end = at + executable.len();
            if (at == 0 || !is_word_char(script[at - 1])) && (end == script.len() || !is_word_char(script[end])) {
                Some(script.skip(end))
            } else {
                None
            }
        },
        None => None,
    }
}

fn is_word(c: char) -> (r: bool)
    ensures
        r == is_word_char(c),
{
    text::ascii_alphanumeric(c) || c == '_' || c == '-'
}

pub fn server_command(script: &str, executable: &str) -> (r: Option<String>)
    ensures
        model::opt(r) == command_after(script@, executable@),
{
    match text::find(script, executable) {
        Some(at) => {
            let source = text::chars(script);
            let size: usize = text::chars(executable).len();
            let end: usize = at + size;
            if (at == 0 || !is_word(source[at - 1])) && (end == source.len() || !is_word(source[end])) {
                let rest = text::text_of(&source, end, source.len());
                assert(rest@ =~= script@.skip(end as int));
                Some(rest)
            } else {
                None
            }
        },
        None => None,
    }
}

/// Whether one of the words of a command is `wanted`.
pub fn has_word(command: &str, wanted: &str) -> (r: bool)
    ensures
        r == text::words(command@).contains(wanted@),
{
    text::list_contains(&text::split_whitespace(command), wanted)
}

// ---------------------------------------------------------------------------
// What was found
// ---------------------------------------------------------------------------

/// What was found about servers: ports to lease, lines about servers, and warnings.
pub struct Findings {
    pub ports: Vec<String>,
    pub development: Vec<String>,
    pub warnings: Vec<String>,
}

#[verifier::ext_equal]
pub ghost struct FindingsData {
    pub ports: Seq<Seq<char>>,
    pub development: Seq<Seq<char>>,
    pub warnings: Seq<Seq<char>>,
}

impl View for Findings {
    type V = FindingsData;

    open spec fn view(&self) -> FindingsData {
        FindingsData {
            ports: model::views(self.ports@),
            development: model::views(self.development@),
            warnings: model::views(self.warnings@),
        }
    }
}

pub open spec fn nothing_found() -> FindingsData {
    FindingsData { ports: Seq::empty(), development: Seq::empty(), warnings: Seq::empty() }
}

/// A server whose port is leased through a variable.
pub open spec fn with_managed(found: FindingsData, label: Seq<char>, key: Seq<char>, default: u16) -> FindingsData {
    FindingsData {
        ports: found.ports.push(key + ":"@ + text::decimal(default as nat)),
        development: found.development.push(
            label + ": "@ + text::decimal(default as nat) + " → isolated via "@ + key,
        ),
        warnings: found.warnings,
    }
}

pub open spec fn with_line(found: FindingsData, line: Seq<char>) -> FindingsData {
    FindingsData { development: found.development.push(line), ..found }
}

pub open spec fn with_warning(found: FindingsData, warning: Seq<char>) -> FindingsData {
    FindingsData { warnings: found.warnings.push(warning), ..found }
}

/// What a server is called: where it is not at the root, with the directory that it is in.
pub open spec fn label_of(root: Seq<char>, server: Seq<char>) -> Seq<char> {
    if root.len() == 0 {
        server
    } else {
        server + " ("@ + root + ")"@
    }
}

pub fn source_label(root: &str, server: &str) -> (r: String)
    ensures
        r@ == label_of(root@, server@),
{
    if root.is_empty() {
        server.to_owned()
    } else {
        let mut label = text::concat3(server, " (", root);
        label.append(")");
        label
    }
}

impl Findings {
    pub fn new() -> (r: Findings)
        ensures
            r@ == nothing_found(),
    {
        let r = Findings { ports: Vec::new(), development: Vec::new(), warnings: Vec::new() };
        assert(r@ =~= nothing_found());
        r
    }

    fn manage(&mut self, label: &str, key: &str, default: u16)
        ensures
            final(self)@ == with_managed(old(self)@, label@, key@, default),
    {
        let number = text::to_decimal(default as u64);
        self.ports.push(text::concat3(key, ":", &number));
        let mut line = text::concat3(label, ": ", &number);
        line.append(" → isolated via ");
        line.append(key);
        self.development.push(line);
    }

    fn line(&mut self, line: String)
        ensures
            final(self)@ == with_line(old(self)@, line@),
    {
        self.development.push(line);
    }

    fn warn(&mut self, warning: String)
        ensures
            final(self)@ == with_warning(old(self)@, warning@),
    {
        self.warnings.push(warning);
    }
}

pub open spec fn fixed_line(label: Seq<char>, port: u16) -> Seq<char> {
    label + ": fixed "@ + text::decimal(port as nat)
}

fn fixed(label: &str, port: u16) -> (r: String)
    ensures
        r@ == fixed_line(label@, port),
{
    text::concat3(label, ": fixed ", &text::to_decimal(port as u64))
}

/// A Next.js server: its port is leased unless it is fixed.
pub open spec fn next_found(found: FindingsData, command: Seq<char>, root: Seq<char>) -> FindingsData {
    let words = text::words(command);
    let label = label_of(root, "Next.js"@);
    if !words.contains("dev"@) && !words.contains("start"@) {
        found
    } else {
        match port_in(words) {
            Some(Argument::Number(port)) => with_warning(
                with_line(found, fixed_line(label, port)),
                label + " fixes port "@ + text::decimal(port as nat)
                    + "; replace the flag with -p $PORT so wt can isolate it."@,
            ),
            Some(Argument::Variable(key)) => with_managed(found, label, key, 3000),
            None => with_managed(found, label, "PORT"@, 3000),
        }
    }
}

pub fn detect_next(found: &mut Findings, command: &str, root: &str)
    ensures
        final(found)@ == next_found(old(found)@, command@, root@),
{
    if !has_word(command, "dev") && !has_word(command, "start") {
        return;
    }
    let label = source_label(root, "Next.js");
    match port_argument(command) {
        Some(PortArgument::Number(port)) => {
            found.line(fixed(&label, port));
            let mut warning = text::concat3(&label, " fixes port ", &text::to_decimal(port as u64));
            warning.append("; replace the flag with -p $PORT so wt can isolate it.");
            found.warn(warning);
        },
        Some(PortArgument::Variable(key)) => {
            found.manage(&label, &key, 3000);
        },
        None => {
            found.manage(&label, "PORT", 3000);
        },
    }
}

/// A Vite server: its port is leased where a variable gives it; otherwise Vite finds a free one by
/// itself, unless the port is strict.
pub open spec fn vite_found(found: FindingsData, command: Seq<char>, root: Seq<char>) -> FindingsData {
    let label = label_of(root, "Vite"@);
    match port_in(text::words(command)) {
        Some(Argument::Variable(key)) => with_managed(found, label, key, 5173),
        Some(Argument::Number(port)) => if text::has_part(command, "--strictPort"@) {
            with_warning(
                with_line(found, fixed_line(label, port)),
                label + " uses strict port "@ + text::decimal(port as nat) + "; it can collide."@,
            )
        } else {
            with_line(found, label + ": starts at "@ + text::decimal(port as nat) + ", automatic fallback"@)
        },
        None => with_line(found, label + ": starts at 5173, automatic fallback"@),
    }
}

pub fn detect_vite(found: &mut Findings, command: &str, root: &str)
    ensures
        final(found)@ == vite_found(old(found)@, command@, root@),
{
    let label = source_label(root, "Vite");
    match port_argument(command) {
        Some(PortArgument::Variable(key)) => {
            found.manage(&label, &key, 5173);
        },
        Some(PortArgument::Number(port)) => {
            if text::contains(command, "--strictPort") {
                found.line(fixed(&label, port));
                let mut warning = text::concat3(&label, " uses strict port ", &text::to_decimal(port as u64));
                warning.append("; it can collide.");
                found.warn(warning);
            } else {
                let mut line = text::concat3(&label, ": starts at ", &text::to_decimal(port as u64));
                line.append(", automatic fallback");
                found.line(line);
            }
        },
        None => {
            found.line(text::concat(&label, ": starts at 5173, automatic fallback"));
        },
    }
}

/// A Wrangler server: its port is leased only where a variable gives it.
pub open spec fn wrangler_found(found: FindingsData, command: Seq<char>, root: Seq<char>) -> FindingsData {
    let label = label_of(root, "Wrangler"@);
    if !text::words(command).contains("dev"@) {
        found
    } else {
        match port_in(text::words(command)) {
            Some(Argument::Variable(key)) => with_managed(found, label, key, 8787),
            Some(Argument::Number(port)) => with_warning(
                with_line(found, fixed_line(label, port)),
                label + " uses fixed port "@ + text::decimal(port as nat) + "; it can collide."@,
            ),
            None => with_line(found, label + ": default port 8787, not reserved"@),
        }
    }
}

pub fn detect_wrangler(found: &mut Findings, command: &str, root: &str)
    ensures
        final(found)@ == wrangler_found(old(found)@, command@, root@),
{
    if !has_word(command, "dev") {
        return;
    }
    let label = source_label(root, "Wrangler");
    match port_argument(command) {
        Some(PortArgument::Variable(key)) => {
            found.manage(&label, &key, 8787);
        },
        Some(PortArgument::Number(port)) => {
            found.line(fixed(&label, port));
            let mut warning = text::concat3(&label, " uses fixed port ", &text::to_decimal(port as u64));
            warning.append("; it can collide.");
            found.warn(warning);
        },
        None => {
            found.line(text::concat(&label, ": default port 8787, not reserved"));
        },
    }
}

// ---------------------------------------------------------------------------
// Configuration files
// ---------------------------------------------------------------------------

/// The port that a line like `port: 3000,` sets.
pub open spec fn port_property() -> spec_fn(Seq<char>) -> Option<u16> {
    |line: Seq<char>|
        {
            let line = text::trimmed(line);
            match text::cut_first(line, ":"@) {
                Some((_, value)) => if "port:"@.is_prefix_of(line) {
                    match text::number_upto(
                        text::trimmed_end_of(text::trimmed(value), ","@),
                        u16::MAX as nat,
                    ) {
                        Some(port) => Some(port as u16),
                        None => None,
                    }
                } else {
                    None
                },
                None => None,
            }
        }
}

pub fn numeric_port_property(line: &str) -> (r: Option<u16>)
    ensures
        r == port_property()(line@),
{
    let line = text::trim(line);
    match text::split_once(&line, ":") {
        Some((_, value)) => {
            if text::starts_with(&line, "port:") {
                text::parse_u16(&text::trim_end_matches(&text::trim(&value), ","))
            } else {
                None
            }
        },
        None => None,
    }
}

pub open spec fn number_order() -> spec_fn(u16, u16) -> bool {
    |a: u16, b: u16| a < b
}

/// Numbers in order, each once.
pub open spec fn sorted_numbers(list: Seq<u16>) -> Seq<u16> {
    model::deduped(model::sorted(list, number_order()), model::equal())
}

/// Sorted numbers ascend strictly and are exactly those of the list.
pub proof fn sorted_numbers_are_the_set(list: Seq<u16>)
    ensures
        model::strictly_ascending(sorted_numbers(list), number_order()),
        forall|n: u16| #[trigger] sorted_numbers(list).contains(n) <==> list.contains(n),
{
    assert(model::total_order(number_order()));
    model::sorting_orders(list, number_order());
    model::deduping_keeps_one_of_each(model::sorted(list, number_order()), number_order());
}

pub fn sort_numbers(list: &Vec<u16>) -> (r: Vec<u16>)
    ensures
        r@ == sorted_numbers(list@),
{
    let ghost before_fn = number_order();
    let mut ordered: Vec<u16> = Vec::new();
    assert(ordered@ =~= model::sorted(list@.take(0), before_fn));
    for i in 0..list.len()
        invariant
            before_fn == number_order(),
            ordered@ == model::sorted(list@.take(i as int), before_fn),
    {
        let mut at: usize = ordered.len();
        while at > 0 && list[i] < ordered[at - 1]
            invariant
                i < list@.len(),
                at <= ordered@.len(),
                before_fn == number_order(),
                forall|k: int| at <= k < ordered@.len() ==> #[trigger] before_fn(list@[i as int], ordered@[k]),
            decreases at,
        {
            at -= 1;
        }
        proof {
            model::step(list@, i as int);
            model::lemma_inserted(ordered@, list@[i as int], before_fn, at as int);
        }
        ordered.insert(at, list[i]);
    }
    proof {
        model::whole(list@);
    }
    let ghost all = ordered@;
    let mut out: Vec<u16> = Vec::new();
    assert(out@ =~= model::deduped(all.take(0), model::equal()));
    for i in 0..ordered.len()
        invariant
            all == ordered@,
            out@ == model::deduped(all.take(i as int), model::equal()),
    {
        proof {
            model::step(all, i as int);
        }
        if out.len() == 0 || out[out.len() - 1] != ordered[i] {
            out.push(ordered[i]);
        }
    }
    proof {
        model::whole(all);
    }
    out
}

pub fn numeric_port_properties(contents: &str) -> (r: Vec<u16>)
    ensures
        r@ == sorted_numbers(text::lines(contents@).filter_map(port_property())),
{
    let lines = text::lines_of(contents);
    let ghost all = text::lines(contents@);
    let mut found: Vec<u16> = Vec::new();
    proof {
        model::start_filter_map(all, port_property());
    }
    for i in 0..lines.len()
        invariant
            all == model::views(lines@),
            found@ == all.take(i as int).filter_map(port_property()),
    {
        proof {
            model::step_filter_map(all, i as int, port_property());
            assert(all[i as int] == lines@[i as int]@);
        }
        match numeric_port_property(&lines[i]) {
            Some(port) => {
                found.push(port);
            },
            None => {},
        }
    }
    proof {
        model::whole(all);
    }
    sort_numbers(&found)
}

/// Whether a line sets a property to true.
pub open spec fn sets_true(key: Seq<char>) -> spec_fn(Seq<char>) -> Option<bool> {
    |line: Seq<char>|
        match text::after_prefix(text::trimmed(line), key + ":"@) {
            Some(value) => if text::trimmed_end_of(text::trimmed(value), ","@) == "true"@ {
                Some(true)
            } else {
                None
            },
            None => None,
        }
}

/// Whether a file sets a property to true.
pub open spec fn has_true(contents: Seq<char>, key: Seq<char>) -> bool {
    model::first_some(text::lines(contents), sets_true(key)) is Some
}

pub fn contains_true_property(contents: &str, key: &str) -> (r: bool)
    ensures
        r == has_true(contents@, key@),
{
    let prefix = text::concat(key, ":");
    let lines = text::lines_of(contents);
    let ghost all = text::lines(contents@);
    for i in 0..lines.len()
        invariant
            prefix@ == key@ + ":"@,
            all == model::views(lines@),
            all == text::lines(contents@),
            forall|k: int| 0 <= k < i ==> sets_true(key@)(#[trigger] all[k]) is None,
    {
        assert(all[i as int] == lines@[i as int]@);
        match text::strip_prefix(&text::trim(&lines[i]), &prefix) {
            Some(value) => {
                if text::same(&text::trim_end_matches(&text::trim(&value), ","), "true") {
                    proof {
                        model::found_some(all, sets_true(key@), i as int);
                    }
                    return true;
                }
            },
            None => {},
        }
    }
    proof {
        model::found_none(all, sets_true(key@));
    }
    false
}

/// Numbers in decimal notation.
pub open spec fn decimals(list: Seq<u16>) -> Seq<Seq<char>> {
    list.map_values(|n: u16| text::decimal(n as nat))
}

fn decimal_list(list: &Vec<u16>) -> (r: Vec<String>)
    ensures
        model::views(r@) == decimals(list@),
{
    let mut out: Vec<String> = Vec::new();
    for i in 0..list.len()
        invariant
            model::views(out@) == decimals(list@).take(i as int),
    {
        proof {
            model::step(decimals(list@), i as int);
        }
        out.push(text::to_decimal(list[i] as u64));
    }
    proof {
        model::whole(decimals(list@));
    }
    out
}

/// What a Vite configuration says of its ports.
pub open spec fn vite_config_found(found: FindingsData, path: Seq<char>, contents: Seq<char>) -> FindingsData {
    let ports = sorted_numbers(text::lines(contents).filter_map(port_property()));
    let shown = text::joined(decimals(ports), ", "@);
    let label = "Vite ("@ + path + ")"@;
    if ports.len() == 0 {
        found
    } else if has_true(contents, "strictPort"@) {
        with_warning(
            with_line(found, label + ": fixed "@ + shown),
            label + " uses strict ports "@ + shown + "; they can collide."@,
        )
    } else {
        with_line(found, label + ": starts at "@ + shown + ", automatic fallback"@)
    }
}

pub fn detect_vite_config(found: &mut Findings, path: &str, contents: &str)
    ensures
        final(found)@ == vite_config_found(old(found)@, path@, contents@),
{
    let ports = numeric_port_properties(contents);
    if ports.len() == 0 {
        return;
    }
    let shown = text::join(&decimal_list(&ports), ", ");
    let label = text::concat3("Vite (", path, ")");
    if contains_true_property(contents, "strictPort") {
        found.line(text::concat3(&label, ": fixed ", &shown));
        let mut warning = text::concat3(&label, " uses strict ports ", &shown);
        warning.append("; they can collide.");
        found.warn(warning);
    } else {
        let mut line = text::concat3(&label, ": starts at ", &shown);
        line.append(", automatic fallback");
        found.line(line);
    }
}

/// The port that a line like `port = 8787` or `port: 8787,` sets.
pub open spec fn wrangler_port_line() -> spec_fn(Seq<char>) -> Option<u16> {
    |line: Seq<char>|
        match text::after_prefix(text::trimmed(line), "port"@) {
            Some(rest) => {
                let rest = text::trimmed_start(rest);
                let value = match text::after_prefix(rest, "="@) {
                    Some(value) => Some(value),
                    None => text::after_prefix(rest, ":"@),
                };
                match value {
                    Some(value) => match text::number_upto(
                        text::trimmed_end_of(text::trimmed(value), ","@),
                        u16::MAX as nat,
                    ) {
                        Some(port) => Some(port as u16),
                        None => None,
                    },
                    None => None,
                }
            },
            None => None,
        }
}

pub fn wrangler_port(line: &str) -> (r: Option<u16>)
    ensures
        r == wrangler_port_line()(line@),
{
    match text::strip_prefix(&text::trim(line), "port") {
        Some(rest) => {
            let rest = text::trim_start(&rest);
            let value = match text::strip_prefix(&rest, "=") {
                Some(value) => Some(value),
                None => text::strip_prefix(&rest, ":"),
            };
            match value {
                Some(value) => text::parse_u16(&text::trim_end_matches(&text::trim(&value), ",")),
                None => None,
            }
        },
        None => None,
    }
}

/// What a Wrangler configuration says of its port.
pub open spec fn wrangler_config_found(found: FindingsData, path: Seq<char>, contents: Seq<char>) -> FindingsData {
    let label = "Wrangler ("@ + path + ")"@;
    match model::first_some(text::lines(contents), wrangler_port_line()) {
        Some(port) => with_warning(
            with_line(found, fixed_line(label, port)),
            label + " uses fixed port "@ + text::decimal(port as nat) + "; it can collide."@,
        ),
        None => with_line(found, label + ": default port 8787, not reserved"@),
    }
}

fn first_wrangler_port(contents: &str) -> (r: Option<u16>)
    ensures
        r == model::first_some(text::lines(contents@), wrangler_port_line()),
{
    let lines = text::lines_of(contents);
    let ghost all = text::lines(contents@);
    for i in 0..lines.len()
        invariant
            all == model::views(lines@),
            all == text::lines(contents@),
            forall|k: int| 0 <= k < i ==> wrangler_port_line()(#[trigger] all[k]) is None,
    {
        assert(all[i as int] == lines@[i as int]@);
        match wrangler_port(&lines[i]) {
            Some(port) => {
                proof {
                    model::found_some(all, wrangler_port_line(), i as int);
                }
                return Some(port);
            },
            None => {},
        }
    }
    proof {
        model::found_none(all, wrangler_port_line());
    }
    None
}

pub fn detect_wrangler_config(found: &mut Findings, path: &str, contents: &str)
    ensures
        final(found)@ == wrangler_config_found(old(found)@, path@, contents@),
{
    let label = text::concat3("Wrangler (", path, ")");
    match first_wrangler_port(contents) {
        Some(port) => {
            found.line(fixed(&label, port));
            let mut warning = text::concat3(&label, " uses fixed port ", &text::to_decimal(port as u64));
            warning.append("; it can collide.");
            found.warn(warning);
        },
        None => {
            found.line(text::concat(&label, ": default port 8787, not reserved"));
        },
    }
}

// ---------------------------------------------------------------------------
// Compose files
// ---------------------------------------------------------------------------

/// The characters at the start of a text that may stand in the name of a variable.
pub open spec fn name_at_start(s: Seq<char>) -> Seq<char>
    decreases s.len(),
{
    if s.len() > 0 && (text::is_ascii_alphanumeric(s[0]) || s[0] == '_') {
        seq![s[0]] + name_at_start(s.drop_first())
    } else {
        Seq::empty()
    }
}

/// The variables that a text refers to as `${..}`, each with what follows it.
pub open spec fn expressions(value: Seq<char>) -> Seq<(Seq<char>, Seq<char>)>
    decreases value.len(),
{
    match text::first_at(value, "${"@) {
        Some(start) => {
            let expression = value.skip(start + 2);
            match text::first_at(expression, "}"@) {
                Some(end) => {
                    let after = expression.skip(end + 1);
                    if 0 <= start && start + 2 <= value.len() && 0 <= end && end + 1 <= expression.len() {
                        seq![(name_at_start(expression.take(end)), after)] + expressions(after)
                    } else {
                        Seq::empty()
                    }
                },
                None => Seq::empty(),
            }
        },
        None => Seq::empty(),
    }
}

fn leading_name(s: &str) -> (r: String)
    ensures
        r@ == name_at_start(s@),
{
    let source = text::chars(s);
    let mut out = String::new();
    let mut i: usize = 0;
    assert(s@.skip(0) =~= s@);
    assert(out@ + name_at_start(s@) =~= name_at_start(s@));
    while i < source.len()
        invariant_except_break
            source@ == s@,
            i <= s@.len(),
            out@ + name_at_start(s@.skip(i as int)) == name_at_start(s@),
        ensures
            out@ == name_at_start(s@),
        decreases s@.len() - i,
    {
        let c = source[i];
        let ghost before = out@;
        let ghost rest = s@.skip(i as int);
        assert(rest.drop_first() =~= s@.skip(i + 1));
        if !(text::ascii_alphanumeric(c) || c == '_') {
            assert(before + name_at_start(rest) =~= before);
            break;
        }
        out.push(c);
        i += 1;
        assert(out@ + name_at_start(s@.skip(i as int)) =~= before + name_at_start(rest));
        if i == source.len() {
            assert(out@ + name_at_start(s@.skip(i as int)) =~= out@);
        }
    }
    out
}

pub fn variable_expressions(value: &str) -> (r: Vec<(String, String)>)
    ensures
        model::pairs(r@) == expressions(value@),
{
    broadcast use crate::model::lemma_pairs_push;

    let mut out: Vec<(String, String)> = Vec::new();
    let mut left = value.to_owned();
    assert(model::pairs(out@) + expressions(left@) =~= expressions(value@));
    loop
        invariant
            model::pairs(out@) + expressions(left@) == expressions(value@),
        ensures
            model::pairs(out@) == expressions(value@),
        decreases left@.len(),
    {
        let ghost before = model::pairs(out@);
        proof {
            reveal_strlit("${");
            reveal_strlit("}");
        }
        let start: usize = match text::find(&left, "${") {
            Some(start) => start,
            None => {
                assert(before + expressions(left@) =~= before);
                break;
            },
        };
        let source = text::chars(&left);
        let expression = text::text_of(&source, start + 2, source.len());
        assert(expression@ =~= left@.skip(start + 2));
        let end: usize = match text::find(&expression, "}") {
            Some(end) => end,
            None => {
                assert(before + expressions(left@) =~= before);
                break;
            },
        };
        let source = text::chars(&expression);
        let inside = text::text_of(&source, 0, end);
        assert(inside@ =~= expression@.take(end as int));
        let after = text::text_of(&source, end + 1, source.len());
        assert(after@ =~= expression@.skip(end + 1));
        let pair = (leading_name(&inside), after.clone());
        out.push(pair);
        assert(model::pairs(out@) + expressions(after@) =~= before + expressions(left@));
        left = after;
    }
    out
}

/// A variable that names a port of the host: one before a colon, or the published one.
pub open spec fn host_variable(published: bool) -> spec_fn((Seq<char>, Seq<char>)) -> Option<Seq<char>> {
    |e: (Seq<char>, Seq<char>)|
        if published || ":"@.is_prefix_of(text::trimmed_start_of(e.1, "'\""@)) {
            Some(e.0)
        } else {
            None
        }
}

/// The variables of a line of a Compose file that name ports of the host.
pub open spec fn host_variables(line: Seq<char>) -> Seq<Seq<char>> {
    let line = text::trimmed(line);
    let published = "published:"@.is_prefix_of(line);
    if !"-"@.is_prefix_of(line) && !published {
        Seq::empty()
    } else {
        expressions(line).filter_map(host_variable(published))
    }
}

pub fn compose_variables_in_line(line: &str) -> (r: Vec<String>)
    ensures
        model::views(r@) == host_variables(line@),
{
    let line = text::trim(line);
    let published = text::starts_with(&line, "published:");
    let mut out: Vec<String> = Vec::new();
    if !text::starts_with(&line, "-") && !published {
        assert(model::views(out@) =~= Seq::empty());
        return out;
    }
    let found = variable_expressions(&line);
    let ghost all = model::pairs(found@);
    let ghost f = host_variable(published);
    proof {
        model::start_filter_map(all, f);
    }
    for i in 0..found.len()
        invariant
            all == model::pairs(found@),
            f == host_variable(published),
            model::views(out@) == all.take(i as int).filter_map(f),
    {
        proof {
            model::step_filter_map(all, i as int, f);
            assert(all[i as int] == (found@[i as int].0@, found@[i as int].1@));
        }
        if published || text::starts_with(&text::trim_start_matches(&found[i].1, "'\""), ":") {
            out.push(found[i].0.clone());
        }
    }
    proof {
        model::whole(all);
    }
    out
}

/// The variables of a Compose file that name ports of the host, line by line.
pub open spec fn host_variables_of(lines: Seq<Seq<char>>) -> Seq<Seq<char>>
    decreases lines.len(),
{
    if lines.len() == 0 {
        Seq::empty()
    } else {
        host_variables_of(lines.drop_last()) + host_variables(lines.last())
    }
}

pub fn compose_variables(contents: &str) -> (r: Vec<String>)
    ensures
        model::views(r@) == host_variables_of(text::lines(contents@)),
{
    let lines = text::lines_of(contents);
    let ghost all = text::lines(contents@);
    let mut out: Vec<String> = Vec::new();
    assert(all.take(0) =~= Seq::empty());
    assert(model::views(out@) =~= Seq::empty());
    for i in 0..lines.len()
        invariant
            all == model::views(lines@),
            model::views(out@) == host_variables_of(all.take(i as int)),
    {
        proof {
            model::step(all, i as int);
            assert(all[i as int] == lines@[i as int]@);
        }
        let mut more = compose_variables_in_line(&lines[i]);
        let ghost before = model::views(out@);
        let ghost extra = model::views(more@);
        out.append(&mut more);
        assert(model::views(out@) =~= before + extra);
    }
    proof {
        model::whole(all);
    }
    out
}

// ---------------------------------------------------------------------------
// What is recognised
// ---------------------------------------------------------------------------

/// A port on a command line is a number, or a variable with or without braces; quotes around it do
/// not count.
pub proof fn ports_are_numbers_or_variables(port: u16, key: Seq<char>)
    requires
        key.len() > 0,
        key[0] != '{',
        !key.contains('\''),
        !key.contains('"'),
    ensures
        port_value(text::decimal(port as nat)) == Some(Argument::Number(port)),
        port_value("$"@ + key) == Some(Argument::Variable(key)),
        port_value("${"@ + key + "}"@) == Some(Argument::Variable(key)),
{
    reveal_strlit("$");
    reveal_strlit("${");
    reveal_strlit("}");
    let digits = text::decimal(port as nat);
    text::lemma_decimal(port as nat);
    text::decimal_reads_back(port as nat);
    assert(text::is_ascii_digit(digits[0]));
    assert(text::is_ascii_digit(digits[digits.len() - 1]));
    lemma_unquoted(digits);
    let plain = "$"@ + key;
    assert(plain[0] == '$');
    assert(plain.last() == key.last());
    assert(key.contains(key.last()));
    lemma_unquoted(plain);
    text::only_digits_are_numbers(plain, 0);
    if "${"@.is_prefix_of(plain) {
        assert(plain.subrange(0, 2)[1] == key[0]);
    }
    assert(plain.subrange(0, 1) =~= "$"@);
    assert(plain.skip(1) =~= key);
    let braced = "${"@ + key + "}"@;
    assert(braced[0] == '$');
    assert(braced.last() == '}');
    lemma_unquoted(braced);
    text::only_digits_are_numbers(braced, 0);
    assert(braced.subrange(0, 2) =~= "${"@);
    let rest = braced.skip(2);
    assert(rest =~= key + "}"@);
    assert(rest.subrange(rest.len() - 1, rest.len() as int) =~= "}"@);
    assert(rest.take(rest.len() - 1) =~= key);
}

/// Quotes around a port do not count.
pub proof fn quotes_around_a_port_do_not_count(quote: char, value: Seq<char>)
    requires
        quote == '\'' || quote == '"',
        value.len() > 0,
        value[0] != '\'' && value[0] != '"',
        value.last() != '\'' && value.last() != '"',
    ensures
        port_value(seq![quote] + value + seq![quote]) == port_value(value),
{
    reveal_strlit("'\"");
    let set = "'\""@;
    let drop = |c: char| set.contains(c);
    let s = seq![quote] + value + seq![quote];
    assert(set[0] == '\'' && set[1] == '"' && set.len() == 2);
    assert(set.contains(quote));
    lemma_unquoted(value);
    text::lemma_trim_start_by(s, drop, 1);
    let rest = value + seq![quote];
    assert(s.skip(1) =~= rest);
    assert(!set.contains(value[0]));
    assert(rest[0] == value[0]);
    assert(text::trimmed_start_of(s, set) == rest);
    text::trimming_the_end_leaves_the_start(value, seq![quote], set);
}

proof fn lemma_unquoted(value: Seq<char>)
    requires
        value.len() > 0,
        value[0] != '\'' && value[0] != '"',
        value.last() != '\'' && value.last() != '"',
    ensures
        text::trimmed_of(value, "'\""@) == value,
{
    reveal_strlit("'\"");
    let set = "'\""@;
    assert(set[0] == '\'' && set[1] == '"' && set.len() == 2);
    assert(!set.contains(value[0]));
    assert(!set.contains(value.last()));
}

/// Whether a word says that a port follows, or holds one.
pub open spec fn is_port_flag(word: Seq<char>) -> bool {
    word == "-p"@ || word == "--port"@ || "--port="@.is_prefix_of(word)
}

/// A command's port is the value of its first port flag, written in any of the three ways; without
/// such a flag it has none.
pub proof fn the_first_flag_gives_the_port(before: Seq<Seq<char>>, value: Seq<char>, after: Seq<Seq<char>>)
    requires
        forall|i: int| 0 <= i < before.len() ==> !is_port_flag(#[trigger] before[i]),
    ensures
        port_in(before + seq!["-p"@, value] + after) == port_value(value),
        port_in(before + seq!["--port"@, value] + after) == port_value(value),
        port_in(before + seq!["--port="@ + value] + after) == port_value(value),
        port_in(before) is None,
    decreases before.len(),
{
    let short = before + seq!["-p"@, value] + after;
    let long = before + seq!["--port"@, value] + after;
    let joined = before + seq!["--port="@ + value] + after;
    if before.len() == 0 {
        reveal_strlit("-p");
        reveal_strlit("--port");
        reveal_strlit("--port=");
        assert(short[0] == "-p"@ && short[1] == value);
        assert(long[0] == "--port"@ && long[1] == value);
        let word = "--port="@ + value;
        assert(joined[0] == word);
        assert(word.subrange(0, "--port="@.len() as int) =~= "--port="@);
        assert(word.skip("--port="@.len() as int) =~= value);
    } else {
        let rest = before.drop_first();
        assert(!is_port_flag(before[0]));
        assert forall|i: int| 0 <= i < rest.len() implies !is_port_flag(#[trigger] rest[i]) by {
            assert(rest[i] == before[i + 1]);
        }
        the_first_flag_gives_the_port(rest, value, after);
        assert(short.drop_first() =~= rest + seq!["-p"@, value] + after);
        assert(long.drop_first() =~= rest + seq!["--port"@, value] + after);
        assert(joined.drop_first() =~= rest + seq!["--port="@ + value] + after);
        assert(short[0] == before[0] && long[0] == before[0] && joined[0] == before[0]);
    }
}

/// A script runs a program where its name first stands as a word of its own; what follows is what the
/// program is given. A name inside a longer word does not count.
pub proof fn programs_are_words_of_their_own(before: Seq<char>, executable: Seq<char>, after: Seq<char>)
    requires
        executable.len() > 0,
        forall|k: int| 0 <= k < before.len() ==> !text::occurs_at(before + executable + after, executable, k),
    ensures
        (before.len() == 0 || !is_word_char(before.last())) && (after.len() == 0 || !is_word_char(after[0]))
            ==> command_after(before + executable + after, executable) == Some(after),
        (before.len() > 0 && is_word_char(before.last())) || (after.len() > 0 && is_word_char(after[0]))
            ==> command_after(before + executable + after, executable) is None,
{
    let script = before + executable + after;
    let at = before.len() as int;
    text::the_first_occurrence_is_found(before, executable, after);
    assert(script.skip(at + executable.len()) =~= after);
    if before.len() > 0 {
        assert(script[at - 1] == before.last());
    }
    if after.len() > 0 {
        assert(script[at + executable.len()] == after[0]);
    }
}

/// Letters, digits, underscores and hyphens belong to a word; nothing else does.
pub proof fn words_are_made_of_word_characters(c: char)
    ensures
        is_word_char(c) <==> ('a' <= c && c <= 'z') || ('A' <= c && c <= 'Z') || ('0' <= c && c <= '9') || c == '_' || c
            == '-',
{
}

/// A script that does not name a program does not run it.
pub proof fn unnamed_programs_are_not_run(script: Seq<char>, executable: Seq<char>)
    requires
        !text::has_part(script, executable),
    ensures
        command_after(script, executable) is None,
{
    text::lemma_first_at(script, executable);
}

proof fn lemma_white_led(gap: Seq<char>, core: Seq<char>)
    requires
        forall|i: int| 0 <= i < gap.len() ==> text::white(#[trigger] gap[i]),
        core.len() > 0,
        !text::white(core[0]),
        !text::white(core.last()),
    ensures
        text::trimmed(gap + core) == core,
        text::trimmed_start(gap + core) == core,
{
    let none = Seq::<char>::empty();
    text::trimming_leaves_the_core(gap, core, none);
    assert(gap + core + none =~= gap + core);
    assert(core + none =~= core);
}

proof fn lemma_number_with_comma(gap: Seq<char>, port: u16, commas: Seq<char>)
    requires
        forall|i: int| 0 <= i < gap.len() ==> text::white(#[trigger] gap[i]),
        forall|i: int| 0 <= i < commas.len() ==> #[trigger] commas[i] == ',',
    ensures
        text::number_upto(
            text::trimmed_end_of(text::trimmed(gap + (text::decimal(port as nat) + commas)), ","@),
            u16::MAX as nat,
        ) == Some(port as nat),
{
    reveal_strlit(",");
    let digits = text::decimal(port as nat);
    text::lemma_decimal(port as nat);
    text::decimal_reads_back(port as nat);
    let core = digits + commas;
    assert(text::is_ascii_digit(digits[0]));
    assert(text::is_ascii_digit(digits[digits.len() - 1]));
    assert(core[0] == digits[0]);
    if commas.len() > 0 {
        assert(core.last() == commas[commas.len() - 1]);
    }
    lemma_white_led(gap, core);
    let set = ","@;
    assert(set[0] == ',');
    assert forall|i: int| 0 <= i < commas.len() implies set.contains(#[trigger] commas[i]) by {
        assert(commas[i] == set[0]);
    }
    assert(!set.contains(digits.last()));
    text::trimming_the_end_leaves_the_start(digits, commas, set);
}

/// A line of a configuration fixes a port where it sets `port` to a number, however it is indented
/// and spaced, with or without a comma behind it.
pub proof fn port_properties_are_recognised(lead: Seq<char>, gap: Seq<char>, port: u16, commas: Seq<char>)
    requires
        forall|i: int| 0 <= i < lead.len() ==> text::white(#[trigger] lead[i]),
        forall|i: int| 0 <= i < gap.len() ==> text::white(#[trigger] gap[i]),
        forall|i: int| 0 <= i < commas.len() ==> #[trigger] commas[i] == ',',
    ensures
        port_property()(lead + ("port:"@ + (gap + (text::decimal(port as nat) + commas)))) == Some(port),
{
    reveal_strlit("port:");
    reveal_strlit(":");
    let value = gap + (text::decimal(port as nat) + commas);
    let core = "port:"@ + value;
    lemma_number_with_comma(gap, port, commas);
    text::lemma_decimal(port as nat);
    assert(core[0] == 'p');
    assert(!text::white(core.last())) by {
        let digits = text::decimal(port as nat);
        if commas.len() > 0 {
            assert(core.last() == commas[commas.len() - 1]);
        } else {
            assert(core.last() == digits[digits.len() - 1]);
            assert(text::is_ascii_digit(digits[digits.len() - 1]));
        }
    }
    lemma_white_led(lead, core);
    let key = seq!['p', 'o', 'r', 't'];
    assert(":"@ =~= seq![':']);
    assert(core =~= key + seq![':'] + value);
    text::texts_are_cut_at_the_first_character(key, ':', value);
    assert(core.subrange(0, 5) =~= "port:"@);
}

/// A line of a Wrangler configuration fixes a port where it sets `port` to a number, with an equals
/// sign or a colon.
pub proof fn wrangler_ports_are_recognised(
    lead: Seq<char>,
    space: Seq<char>,
    sign: char,
    gap: Seq<char>,
    port: u16,
    commas: Seq<char>,
)
    requires
        forall|i: int| 0 <= i < lead.len() ==> text::white(#[trigger] lead[i]),
        forall|i: int| 0 <= i < space.len() ==> text::white(#[trigger] space[i]),
        sign == '=' || sign == ':',
        forall|i: int| 0 <= i < gap.len() ==> text::white(#[trigger] gap[i]),
        forall|i: int| 0 <= i < commas.len() ==> #[trigger] commas[i] == ',',
    ensures
        wrangler_port_line()(
            lead + ("port"@ + (space + (seq![sign] + (gap + (text::decimal(port as nat) + commas))))),
        ) == Some(port),
{
    reveal_strlit("port");
    reveal_strlit("=");
    reveal_strlit(":");
    let value = gap + (text::decimal(port as nat) + commas);
    let signed = seq![sign] + value;
    let core = "port"@ + (space + signed);
    lemma_number_with_comma(gap, port, commas);
    text::lemma_decimal(port as nat);
    assert(core[0] == 'p');
    assert(!text::white(signed.last()) && signed.last() == core.last()) by {
        let digits = text::decimal(port as nat);
        if commas.len() > 0 {
            assert(signed.last() == commas[commas.len() - 1]);
        } else {
            assert(signed.last() == digits[digits.len() - 1]);
            assert(text::is_ascii_digit(digits[digits.len() - 1]));
        }
    }
    lemma_white_led(lead, core);
    assert(core.subrange(0, 4) =~= "port"@);
    assert(core.skip(4) =~= space + signed);
    assert(signed[0] == sign);
    lemma_white_led(space, signed);
    assert(signed.skip(1) =~= value);
    if sign == '=' {
        assert(signed.subrange(0, 1) =~= "="@);
    } else {
        assert(signed.subrange(0, 1) =~= ":"@);
        if "="@.is_prefix_of(signed) {
            assert(signed.subrange(0, 1)[0] == '=');
        }
    }
}

/// A line of a configuration switches a property on where it sets it to `true`, however it is
/// indented and spaced, with or without a comma.
pub proof fn true_properties_are_recognised(key: Seq<char>, lead: Seq<char>, gap: Seq<char>, commas: Seq<char>)
    requires
        key.len() > 0,
        !text::white(key[0]),
        forall|i: int| 0 <= i < lead.len() ==> text::white(#[trigger] lead[i]),
        forall|i: int| 0 <= i < gap.len() ==> text::white(#[trigger] gap[i]),
        forall|i: int| 0 <= i < commas.len() ==> #[trigger] commas[i] == ',',
    ensures
        sets_true(key)(lead + (key + ":"@ + (gap + ("true"@ + commas)))) == Some(true),
{
    reveal_strlit(":");
    reveal_strlit("true");
    reveal_strlit(",");
    let word = "true"@ + commas;
    let value = gap + word;
    let core = key + ":"@ + value;
    assert(core[0] == key[0]);
    assert(word[0] == 't');
    assert(word.last() == core.last() && !text::white(word.last())) by {
        if commas.len() > 0 {
            assert(word.last() == commas[commas.len() - 1]);
        } else {
            assert(word.last() == 'e');
        }
    }
    lemma_white_led(lead, core);
    let start = key + ":"@;
    assert(core.subrange(0, start.len() as int) =~= start);
    assert(core.skip(start.len() as int) =~= value);
    lemma_white_led(gap, word);
    let set = ","@;
    assert(set[0] == ',');
    assert forall|i: int| 0 <= i < commas.len() implies set.contains(#[trigger] commas[i]) by {
        assert(commas[i] == set[0]);
    }
    assert("true"@.last() == 'e');
    assert(!set.contains('e'));
    text::trimming_the_end_leaves_the_start("true"@, commas, set);
}

/// Every line that switches a property on counts, wherever it stands in the text.
pub proof fn every_line_may_switch_on(contents: Seq<char>, key: Seq<char>)
    ensures
        has_true(contents, key) <==> exists|i: int|
            0 <= i < text::lines(contents).len() && sets_true(key)(#[trigger] text::lines(contents)[i]) is Some,
{
    let lines = text::lines(contents);
    let f = sets_true(key);
    if model::first_some(lines, f) is None {
        assert forall|i: int| 0 <= i < lines.len() implies f(#[trigger] lines[i]) is None by {
            model::none_found(lines, f, i);
        }
    } else if forall|i: int| 0 <= i < lines.len() ==> f(#[trigger] lines[i]) is None {
        model::found_none(lines, f);
    }
}

/// Every port that a text fixes is listed, once and in order, and no other is.
pub proof fn every_fixed_port_is_listed(contents: Seq<char>, port: u16)
    ensures
        sorted_numbers(text::lines(contents).filter_map(port_property())).contains(port) <==> exists|i: int|
            0 <= i < text::lines(contents).len() && port_property()(#[trigger] text::lines(contents)[i]) == Some(port),
{
    let lines = text::lines(contents);
    let f = port_property();
    model::filter_map_keeps(lines, f);
    sorted_numbers_are_the_set(lines.filter_map(f));
}

/// A name ends at the first character that is no letter, digit or underscore.
pub proof fn names_end_at_the_first_other_character(name: Seq<char>, rest: Seq<char>)
    requires
        forall|i: int| 0 <= i < name.len() ==> text::is_ascii_alphanumeric(#[trigger] name[i]) || name[i] == '_',
        rest.len() > 0 ==> !text::is_ascii_alphanumeric(rest[0]) && rest[0] != '_',
    ensures
        name_at_start(name + rest) == name,
    decreases name.len(),
{
    let s = name + rest;
    if name.len() == 0 {
        assert(s =~= rest);
        assert(name_at_start(s) =~= name);
    } else {
        let shorter = name.drop_first();
        assert forall|i: int| 0 <= i < shorter.len() implies text::is_ascii_alphanumeric(#[trigger] shorter[i])
            || shorter[i] == '_' by {
            assert(shorter[i] == name[i + 1]);
        }
        names_end_at_the_first_other_character(shorter, rest);
        assert(s.drop_first() =~= shorter + rest);
        assert(s[0] == name[0]);
        assert(seq![name[0]] + shorter =~= name);
    }
}

/// Every expression in braces behind a dollar sign is found, from left to right: its variable, and
/// what follows it.
pub proof fn every_expression_is_found(before: Seq<char>, expression: Seq<char>, after: Seq<char>)
    requires
        forall|k: int|
            0 <= k < before.len() ==> !text::occurs_at(before + "${"@ + (expression + "}"@ + after), "${"@, k),
        !expression.contains('}'),
    ensures
        expressions(before + "${"@ + (expression + "}"@ + after)) == seq![(name_at_start(expression), after)]
            + expressions(after),
{
    reveal_strlit("${");
    reveal_strlit("}");
    let value = before + "${"@ + (expression + "}"@ + after);
    let start = before.len() as int;
    text::the_first_occurrence_is_found(before, "${"@, expression + "}"@ + after);
    let inner = value.skip(start + 2);
    assert(inner =~= expression + "}"@ + after);
    let end = expression.len() as int;
    assert("}"@ =~= seq!['}']);
    text::the_first_character_is_found(expression, '}', after);
    assert(inner.skip(end + 1) =~= after);
    assert(inner.take(end) =~= expression);
}

/// Without an expression there is nothing to find.
pub proof fn texts_without_expressions_hold_none(value: Seq<char>)
    requires
        !text::has_part(value, "${"@),
    ensures
        expressions(value) == Seq::<(Seq<char>, Seq<char>)>::empty(),
{
    text::lemma_first_at(value, "${"@);
}

/// In a list of ports the variable before a colon is the host's; behind `published:` every variable
/// is; other lines name none.
pub proof fn host_ports_stand_before_a_colon(line: Seq<char>, i: int)
    ensures
        ({
            let s = text::trimmed(line);
            let found = expressions(s);
            &&& "published:"@.is_prefix_of(s) && 0 <= i < found.len() ==> host_variables(line).contains(found[i].0)
            &&& "-"@.is_prefix_of(s) && 0 <= i < found.len() && ":"@.is_prefix_of(
                text::trimmed_start_of(found[i].1, "'\""@),
            ) ==> host_variables(line).contains(found[i].0)
            &&& "-"@.is_prefix_of(s) && !"published:"@.is_prefix_of(s) ==> forall|key: Seq<char>| #[trigger]
                host_variables(line).contains(key) ==> exists|k: int|
                    0 <= k < found.len() && (#[trigger] found[k]).0 == key && ":"@.is_prefix_of(
                        text::trimmed_start_of(found[k].1, "'\""@),
                    )
            &&& !"-"@.is_prefix_of(s) && !"published:"@.is_prefix_of(s) ==> host_variables(line).len() == 0
        }),
{
    let s = text::trimmed(line);
    let found = expressions(s);
    let published = "published:"@.is_prefix_of(s);
    let f = host_variable(published);
    model::filter_map_keeps(found, f);
    if 0 <= i < found.len() && f(found[i]) is Some {
        assert(f(found[i]) == Some(found[i].0));
    }
    if "-"@.is_prefix_of(s) && !published {
        assert forall|key: Seq<char>| #[trigger] host_variables(line).contains(key) implies exists|k: int|
            0 <= k < found.len() && (#[trigger] found[k]).0 == key && ":"@.is_prefix_of(
                text::trimmed_start_of(found[k].1, "'\""@),
            ) by {
            let k = choose|k: int| 0 <= k < found.len() && f(#[trigger] found[k]) == Some(key);
            assert(found[k].0 == key);
        }
    }
}

/// Every line of a Compose file is looked at, in order.
pub proof fn every_line_names_its_host_ports(lines: Seq<Seq<char>>, more: Seq<Seq<char>>, line: Seq<char>)
    ensures
        host_variables_of(lines + more) == host_variables_of(lines) + host_variables_of(more),
        host_variables_of(seq![line]) == host_variables(line),
    decreases more.len(),
{
    let one = seq![line];
    assert(one.drop_last() =~= Seq::<Seq<char>>::empty());
    assert(host_variables_of(one.drop_last()) == Seq::<Seq<char>>::empty());
    assert(host_variables_of(one) =~= host_variables(line));
    if more.len() == 0 {
        assert(lines + more =~= lines);
        assert(host_variables_of(lines) + host_variables_of(more) =~= host_variables_of(lines));
    } else {
        let init = more.drop_last();
        every_line_names_its_host_ports(lines, init, line);
        assert((lines + more).drop_last() =~= lines + init);
        assert(host_variables_of(lines + more) =~= host_variables_of(lines) + host_variables_of(more));
    }
}

/// Whether findings hold all that others do, in the same places, and maybe more.
pub open spec fn extends(found: FindingsData, before: FindingsData) -> bool {
    before.ports.is_prefix_of(found.ports) && before.development.is_prefix_of(found.development)
        && before.warnings.is_prefix_of(found.warnings)
}

pub proof fn lemma_extends(found: FindingsData, before: FindingsData, first: FindingsData)
    requires
        extends(before, first),
    ensures
        extends(first, first),
        extends(found, before) ==> extends(found, first),
{
    assert(first.ports =~= first.ports.subrange(0, first.ports.len() as int));
    assert(first.development =~= first.development.subrange(0, first.development.len() as int));
    assert(first.warnings =~= first.warnings.subrange(0, first.warnings.len() as int));
    if extends(found, before) {
        assert(first.ports =~= found.ports.subrange(0, first.ports.len() as int)) by {
            assert(found.ports.subrange(0, before.ports.len() as int).subrange(0, first.ports.len() as int)
                =~= found.ports.subrange(0, first.ports.len() as int));
        }
        assert(first.development =~= found.development.subrange(0, first.development.len() as int)) by {
            assert(found.development.subrange(0, before.development.len() as int).subrange(
                0,
                first.development.len() as int,
            ) =~= found.development.subrange(0, first.development.len() as int));
        }
        assert(first.warnings =~= found.warnings.subrange(0, first.warnings.len() as int)) by {
            assert(found.warnings.subrange(0, before.warnings.len() as int).subrange(
                0,
                first.warnings.len() as int,
            ) =~= found.warnings.subrange(0, first.warnings.len() as int));
        }
    }
}

proof fn lemma_pushed<A>(s: Seq<A>, x: A)
    ensures
        s.is_prefix_of(s),
        s.is_prefix_of(s.push(x)),
{
    assert(s =~= s.subrange(0, s.len() as int));
    assert(s =~= s.push(x).subrange(0, s.len() as int));
}

/// A development server of Next.js gets a port of its own wherever its command leaves the port open:
/// under its variable, or under `PORT`; a fixed port is shown and warned about. Nothing found before
/// is lost.
pub proof fn next_servers_get_ports(found: FindingsData, command: Seq<char>, root: Seq<char>)
    ensures
        extends(next_found(found, command, root), found),
        text::words(command).contains("dev"@) || text::words(command).contains("start"@) ==> {
            let label = label_of(root, "Next.js"@);
            let after = next_found(found, command, root);
            &&& after.development.len() == found.development.len() + 1
            &&& port_in(text::words(command)) is None ==> after.ports == found.ports.push("PORT:3000"@)
            &&& port_in(text::words(command)) matches Some(Argument::Variable(key)) ==> after.ports
                == found.ports.push(key + ":3000"@)
            &&& port_in(text::words(command)) matches Some(Argument::Number(port)) ==> after.ports == found.ports
                && after.warnings.len() == found.warnings.len() + 1 && after.development.last() == label + ": fixed "@
                + text::decimal(port as nat)
        },
        !text::words(command).contains("dev"@) && !text::words(command).contains("start"@) ==> next_found(
            found,
            command,
            root,
        ) == found,
{
    let label = label_of(root, "Next.js"@);
    let after = next_found(found, command, root);
    lemma_default_3000();
    lemma_pushed(found.ports, after.ports.last());
    lemma_pushed(found.development, after.development.last());
    lemma_pushed(found.warnings, after.warnings.last());
    match port_in(text::words(command)) {
        Some(Argument::Variable(key)) => {
            assert(key + ":"@ + text::decimal(3000) =~= key + (":"@ + text::decimal(3000)));
        },
        _ => {
            assert("PORT"@ + ":"@ + text::decimal(3000) =~= "PORT"@ + (":"@ + text::decimal(3000)));
        },
    }
}

proof fn lemma_default_3000()
    ensures
        ":"@ + text::decimal(3000) == ":3000"@,
        "PORT"@ + (":"@ + text::decimal(3000)) == "PORT:3000"@,
{
    reveal_strlit(":");
    reveal_strlit(":3000");
    reveal_strlit("PORT");
    reveal_strlit("PORT:3000");
    reveal_with_fuel(text::decimal, 5);
    assert(text::decimal(3000) =~= seq!['3', '0', '0', '0']);
    assert(":"@ + text::decimal(3000) =~= ":3000"@);
    assert("PORT"@ + ":3000"@ =~= "PORT:3000"@);
}

/// A Vite server keeps to a port of its own where its command names a variable; with a number it
/// starts there, and is warned about where the port is strict. Nothing found before is lost.
pub proof fn vite_servers_are_shown(found: FindingsData, command: Seq<char>, root: Seq<char>)
    ensures
        extends(vite_found(found, command, root), found),
        vite_found(found, command, root).development.len() == found.development.len() + 1,
        port_in(text::words(command)) matches Some(Argument::Variable(key)) ==> vite_found(found, command, root).ports
            == found.ports.push(key + ":"@ + text::decimal(5173)),
        !(port_in(text::words(command)) matches Some(Argument::Variable(_))) ==> vite_found(found, command, root).ports
            == found.ports,
        vite_found(found, command, root).warnings.len() == found.warnings.len() + if text::has_part(
            command,
            "--strictPort"@,
        ) && (port_in(text::words(command)) matches Some(Argument::Number(_))) {
            1int
        } else {
            0int
        },
{
    let after = vite_found(found, command, root);
    lemma_pushed(found.ports, after.ports.last());
    lemma_pushed(found.development, after.development.last());
    lemma_pushed(found.warnings, after.warnings.last());
}

/// A Wrangler server keeps to a port of its own where its command names a variable; a fixed port is
/// warned about, and the default one is shown. Nothing found before is lost.
pub proof fn wrangler_servers_are_shown(found: FindingsData, command: Seq<char>, root: Seq<char>)
    ensures
        extends(wrangler_found(found, command, root), found),
        !text::words(command).contains("dev"@) ==> wrangler_found(found, command, root) == found,
        text::words(command).contains("dev"@) ==> {
            let after = wrangler_found(found, command, root);
            &&& after.development.len() == found.development.len() + 1
            &&& port_in(text::words(command)) matches Some(Argument::Variable(key)) ==> after.ports
                == found.ports.push(key + ":"@ + text::decimal(8787)) && after.warnings == found.warnings
            &&& port_in(text::words(command)) matches Some(Argument::Number(_)) ==> after.ports == found.ports
                && after.warnings.len() == found.warnings.len() + 1
            &&& port_in(text::words(command)) is None ==> after.ports == found.ports && after.warnings == found.warnings
        },
{
    let after = wrangler_found(found, command, root);
    lemma_pushed(found.ports, after.ports.last());
    lemma_pushed(found.development, after.development.last());
    lemma_pushed(found.warnings, after.warnings.last());
}

/// A Vite configuration is shown where one of its lines fixes a port, and warned about where the port
/// is strict as well; otherwise it changes nothing. Nothing found before is lost.
pub proof fn vite_configurations_are_shown(found: FindingsData, path: Seq<char>, contents: Seq<char>, i: int)
    ensures
        extends(vite_config_found(found, path, contents), found),
        vite_config_found(found, path, contents).ports == found.ports,
        0 <= i < text::lines(contents).len() && port_property()(text::lines(contents)[i]) is Some ==> {
            let after = vite_config_found(found, path, contents);
            &&& after.development.len() == found.development.len() + 1
            &&& has_true(contents, "strictPort"@) ==> after.warnings.len() == found.warnings.len() + 1
            &&& !has_true(contents, "strictPort"@) ==> after.warnings == found.warnings
        },
        (forall|k: int|
            0 <= k < text::lines(contents).len() ==> port_property()(#[trigger] text::lines(contents)[k]) is None)
            ==> vite_config_found(found, path, contents) == found,
{
    let after = vite_config_found(found, path, contents);
    let lines = text::lines(contents);
    let f = port_property();
    let ports = sorted_numbers(lines.filter_map(f));
    lemma_pushed(found.ports, after.ports.last());
    lemma_pushed(found.development, after.development.last());
    lemma_pushed(found.warnings, after.warnings.last());
    if 0 <= i < lines.len() && f(lines[i]) is Some {
        every_fixed_port_is_listed(contents, f(lines[i])->0);
        assert(ports.contains(f(lines[i])->0));
        assert(ports.len() > 0);
    }
    if forall|k: int| 0 <= k < lines.len() ==> f(#[trigger] lines[k]) is None {
        if ports.len() > 0 {
            every_fixed_port_is_listed(contents, ports[0]);
            assert(ports.contains(ports[0]));
        }
    }
}

/// A Wrangler configuration is shown in any case: with the first port that it fixes, which is warned
/// about, or with the default port. Nothing found before is lost.
pub proof fn wrangler_configurations_are_shown(found: FindingsData, path: Seq<char>, contents: Seq<char>, k: int)
    ensures
        extends(wrangler_config_found(found, path, contents), found),
        wrangler_config_found(found, path, contents).ports == found.ports,
        wrangler_config_found(found, path, contents).development.len() == found.development.len() + 1,
        0 <= k < text::lines(contents).len() && wrangler_port_line()(text::lines(contents)[k]) is Some && (forall|i: int|
            0 <= i < k ==> wrangler_port_line()(#[trigger] text::lines(contents)[i]) is None) ==> {
            let port = wrangler_port_line()(text::lines(contents)[k])->0;
            let after = wrangler_config_found(found, path, contents);
            &&& after.development.last() == "Wrangler ("@ + path + ")"@ + ": fixed "@ + text::decimal(port as nat)
            &&& after.warnings.len() == found.warnings.len() + 1
        },
        (forall|i: int|
            0 <= i < text::lines(contents).len() ==> wrangler_port_line()(#[trigger] text::lines(contents)[i]) is None)
            ==> wrangler_config_found(found, path, contents).warnings == found.warnings,
{
    let after = wrangler_config_found(found, path, contents);
    let lines = text::lines(contents);
    let f = wrangler_port_line();
    lemma_pushed(found.ports, after.ports.last());
    lemma_pushed(found.development, after.development.last());
    lemma_pushed(found.warnings, after.warnings.last());
    if 0 <= k < lines.len() && f(lines[k]) is Some && (forall|i: int| 0 <= i < k ==> f(#[trigger] lines[i]) is None) {
        model::found_some(lines, f, k);
    }
    if forall|i: int| 0 <= i < lines.len() ==> f(#[trigger] lines[i]) is None {
        model::found_none(lines, f);
    }
}

/// A server at the root goes by its name alone; any other is named with its directory.
pub proof fn servers_are_named_with_their_directories(root: Seq<char>, other: Seq<char>, server: Seq<char>)
    ensures
        label_of(Seq::empty(), server) == server,
        server.is_prefix_of(label_of(root, server)),
        root.len() > 0 ==> text::has_part(label_of(root, server), root),
        label_of(root, server) == label_of(other, server) ==> root == other,
{
    reveal_strlit(" (");
    reveal_strlit(")");
    let label = label_of(root, server);
    assert(label.subrange(0, server.len() as int) =~= server);
    if root.len() > 0 {
        let at = server.len() as int + 2;
        assert(label.subrange(at, at + root.len()) =~= root);
        assert(text::occurs_at(label, root, at));
    }
    if label == label_of(other, server) {
        assert(root.len() == other.len());
        if root.len() > 0 {
            let at = server.len() as int + 2;
            assert(label_of(other, server).subrange(at, at + other.len()) =~= other);
        } else {
            assert(root =~= other);
        }
    }
}

} // verus!
