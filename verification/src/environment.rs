//! What a new worktree needs: copied files, leased ports written into them, and `.wt.env`.

use vstd::prelude::*;

use crate::config;
use crate::config::{Config, FileText, PortSpec};
use crate::detection;
use crate::model;
use crate::paths;
use crate::ports;
use crate::ports::{Assignment, AssignmentData, Request, RequestData};
use crate::process;
use crate::process::Output;
use crate::text;

verus! {

broadcast use {crate::model::lemma_views_push, crate::model::lemma_pairs_push};

// ---------------------------------------------------------------------------
// Values in env files
// ---------------------------------------------------------------------------

/// A line without white space and `export` in front of it.
pub open spec fn bare(line: Seq<char>) -> Seq<char> {
    match text::after_prefix(text::trimmed_start(line), "export "@) {
        Some(rest) => rest,
        None => text::trimmed_start(line),
    }
}

/// The value that a line gives to a key; white space and `export` may precede the key.
pub open spec fn line_value(key: Seq<char>) -> spec_fn(Seq<char>) -> Option<Seq<char>> {
    |line: Seq<char>|
        match text::after_prefix(bare(line), key) {
            Some(rest) => match text::after_prefix(rest, "="@) {
                Some(value) => Some(text::trimmed(value)),
                None => None,
            },
            None => None,
        }
}

fn bare_of(line: &str) -> (r: String)
    ensures
        r@ == bare(line@),
{
    let trimmed = text::trim_start(line);
    match text::strip_prefix(&trimmed, "export ") {
        Some(rest) => rest,
        None => trimmed,
    }
}

/// The value of a key: the one that the first line with it gives.
pub open spec fn value_in(contents: Seq<char>, key: Seq<char>) -> Option<Seq<char>> {
    model::first_some(text::lines(contents), line_value(key))
}

fn value_of_line(line: &str, key: &str) -> (r: Option<String>)
    ensures
        model::opt(r) == line_value(key@)(line@),
{
    match text::strip_prefix(&bare_of(line), key) {
        Some(rest) => match text::strip_prefix(&rest, "=") {
            Some(value) => Some(text::trim(&value)),
            None => None,
        },
        None => None,
    }
}

pub fn value(contents: &str, key: &str) -> (r: Option<String>)
    ensures
        model::opt(r) == value_in(contents@, key@),
{
    let lines = text::lines_of(contents);
    let ghost all = text::lines(contents@);
    for i in 0..lines.len()
        invariant
            all == model::views(lines@),
            all == text::lines(contents@),
            forall|k: int| 0 <= k < i ==> line_value(key@)(#[trigger] all[k]) is None,
    {
        assert(all[i as int] == lines@[i as int]@);
        match value_of_line(&lines[i], key) {
            Some(value) => {
                proof {
                    model::found_some(all, line_value(key@), i as int);
                }
                return Some(value);
            },
            None => {},
        }
    }
    proof {
        model::found_none(all, line_value(key@));
    }
    None
}

/// What stands in front of the variable on a line.
pub open spec fn before_variable(line: Seq<char>) -> Seq<char> {
    line.take(line.len() - bare(line).len())
}

/// A line with a new value, where it gives the key one; what stands in front of the key stays.
pub open spec fn line_with(key: Seq<char>, value: Seq<char>) -> spec_fn(Seq<char>) -> Seq<char> {
    |line: Seq<char>|
        if line_value(key)(line) is Some {
            before_variable(line) + key + "="@ + value
        } else {
            line
        }
}

proof fn lemma_trimmed_is_shorter(line: Seq<char>)
    ensures
        text::trimmed_start(line).len() <= line.len(),
    decreases line.len(),
{
    if line.len() > 0 && text::white(line[0]) {
        lemma_trimmed_is_shorter(line.drop_first());
    }
}

fn replace_in_line(line: &str, key: &str, new_value: &str) -> (r: String)
    ensures
        r@ == line_with(key@, new_value@)(line@),
{
    if value_of_line(line, key).is_none() {
        return line.to_owned();
    }
    let source = text::chars(line);
    let rest: usize = text::chars(&bare_of(line)).len();
    proof {
        lemma_trimmed_is_shorter(line@);
    }
    let mut out = text::text_of(&source, 0, source.len() - rest);
    assert(out@ =~= before_variable(line@));
    out.append(key);
    out.append("=");
    out.append(new_value);
    out
}

/// The line feed that ends a text, if one does.
pub open spec fn final_newline(contents: Seq<char>) -> Seq<char> {
    if contents.len() > 0 && contents.last() == '\n' {
        seq!['\n']
    } else {
        Seq::empty()
    }
}

/// The text with a new value on every line that gives the key one.
pub open spec fn value_replaced(contents: Seq<char>, key: Seq<char>, value: Seq<char>) -> Seq<char> {
    text::joined(text::lines(contents).map_values(line_with(key, value)), "\n"@) + final_newline(contents)
}

pub fn replace_value(contents: &str, key: &str, new_value: &str) -> (r: String)
    ensures
        r@ == value_replaced(contents@, key@, new_value@),
{
    let lines = text::lines_of(contents);
    let ghost all = text::lines(contents@).map_values(line_with(key@, new_value@));
    let mut out: Vec<String> = Vec::new();
    for i in 0..lines.len()
        invariant
            model::views(lines@) == text::lines(contents@),
            all == text::lines(contents@).map_values(line_with(key@, new_value@)),
            model::views(out@) == all.take(i as int),
    {
        proof {
            model::step(all, i as int);
            assert(text::lines(contents@)[i as int] == lines@[i as int]@);
        }
        out.push(replace_in_line(&lines[i], key, new_value));
    }
    proof {
        model::whole(all);
        reveal_strlit("\n");
        assert("\n"@ =~= seq!['\n']);
        if contents@.len() > 0 && contents@.last() == '\n' {
            assert(seq!['\n'] =~= contents@.subrange(contents@.len() - 1, contents@.len() as int));
        }
        if seq!['\n'].is_suffix_of(contents@) {
            assert(contents@.subrange(contents@.len() - 1, contents@.len() as int)[0] == '\n');
        }
    }
    let mut joined = text::join(&out, "\n");
    if text::ends_with(contents, "\n") {
        joined.append("\n");
    } else {
        assert(joined@ + Seq::<char>::empty() =~= joined@);
    }
    joined
}

/// The text with a value set: on the lines that have the key, else on a new line at the end.
pub open spec fn value_set(contents: Seq<char>, key: Seq<char>, value: Seq<char>) -> Seq<char> {
    if value_in(contents, key) is Some {
        value_replaced(contents, key, value)
    } else if text::ends_a_line(contents) {
        contents + (key + "="@ + value + "\n"@)
    } else {
        contents + "\n"@ + (key + "="@ + value + "\n"@)
    }
}

pub fn set_value(contents: &str, key: &str, new_value: &str) -> (r: String)
    ensures
        r@ == value_set(contents@, key@, new_value@),
{
    if value(contents, key).is_some() {
        return replace_value(contents, key, new_value);
    }
    let mut line = text::concat3(key, "=", new_value);
    line.append("\n");
    let source = text::chars(contents);
    if source.len() > 0 && source[source.len() - 1] != '\n' {
        text::concat3(contents, "\n", &line)
    } else {
        text::concat(contents, &line)
    }
}

/// The variables of a file that are named like ports and hold one.
pub open spec fn port_variable() -> spec_fn(Seq<char>) -> Option<Seq<char>> {
    |line: Seq<char>|
        match text::cut_first(line, "="@) {
            Some((key, value)) => if "PORT"@.is_suffix_of(key) && text::number_upto(
                text::trimmed(value),
                u16::MAX as nat,
            ) is Some {
                Some(key)
            } else {
                None
            },
            None => None,
        }
}

pub fn discover_ports(contents: &str) -> (r: Vec<String>)
    ensures
        model::views(r@) == text::lines(contents@).filter_map(port_variable()),
{
    let lines = text::lines_of(contents);
    let ghost all = text::lines(contents@);
    let mut out: Vec<String> = Vec::new();
    proof {
        model::start_filter_map(all, port_variable());
    }
    for i in 0..lines.len()
        invariant
            all == model::views(lines@),
            model::views(out@) == all.take(i as int).filter_map(port_variable()),
    {
        proof {
            model::step_filter_map(all, i as int, port_variable());
            assert(all[i as int] == lines@[i as int]@);
        }
        match text::split_once(&lines[i], "=") {
            Some((key, value)) => {
                if text::ends_with(&key, "PORT") && text::parse_u16(&text::trim(&value)).is_some() {
                    out.push(key);
                }
            },
            None => {},
        }
    }
    proof {
        model::whole(all);
    }
    out
}

// ---------------------------------------------------------------------------
// Ports
// ---------------------------------------------------------------------------

/// The port that a specification asks for: its default, else the value in the primary env file.
pub open spec fn asked_port(env: Option<Seq<char>>, contents: Option<Seq<char>>, spec: (Seq<char>, Option<u16>)) -> Result<
    u16,
    Seq<char>,
> {
    match (spec.1, env, contents) {
        (Some(port), _, _) => Ok(port),
        (None, Some(file), Some(contents)) => match value_in(contents, spec.0) {
            None => Err(spec.0 + " is missing from "@ + file),
            Some(value) => match text::number_upto(value, u16::MAX as nat) {
                Some(port) => Ok(port as u16),
                None => Err(spec.0 + " must be a port number"@),
            },
        },
        _ => Err("wt.port requires wt.env"@),
    }
}

pub fn original_port(env: Option<&str>, contents: Option<&str>, spec: &PortSpec) -> (r: Result<u16, String>)
    ensures
        model::outcome(r) == asked_port(model::opt_str(env), model::opt_str(contents), spec@),
{
    match (spec.default, env, contents) {
        (Some(port), _, _) => Ok(port),
        (None, Some(file), Some(contents)) => match value(contents, &spec.key) {
            None => Err(text::concat3(&spec.key, " is missing from ", file)),
            Some(value) => match text::parse_u16(&value) {
                Some(port) => Ok(port),
                None => Err(text::concat(&spec.key, " must be a port number")),
            },
        },
        _ => Err("wt.port requires wt.env".to_owned()),
    }
}

/// The request that a port setting makes.
pub open spec fn request_for(env: Option<Seq<char>>, contents: Option<Seq<char>>) -> spec_fn(Seq<char>) -> Result<
    RequestData,
    Seq<char>,
> {
    |port: Seq<char>|
        match config::port_spec(port) {
            Err(message) => Err(message),
            Ok(spec) => match asked_port(env, contents, spec) {
                Err(message) => Err(message),
                Ok(original) => Ok(RequestData { key: spec.0, original, process: spec.1 is Some }),
            },
        }
}

/// The values of a list of results, or the first error.
pub open spec fn collected<A>(list: Seq<Result<A, Seq<char>>>) -> Result<Seq<A>, Seq<char>>
    decreases list.len(),
{
    if list.len() == 0 {
        Ok(Seq::empty())
    } else {
        match collected(list.drop_last()) {
            Err(message) => Err(message),
            Ok(values) => match list.last() {
                Err(message) => Err(message),
                Ok(value) => Ok(values.push(value)),
            },
        }
    }
}

/// An error among the first results is the error of all of them.
pub proof fn lemma_collected_error<A>(list: Seq<Result<A, Seq<char>>>, n: int)
    requires
        0 <= n <= list.len(),
        collected(list.take(n)) is Err,
    ensures
        collected(list) == collected(list.take(n)),
    decreases list.len() - n,
{
    if n < list.len() {
        model::step(list, n);
        lemma_collected_error(list, n + 1);
    } else {
        model::whole(list);
    }
}

/// Results are collected exactly where each of them is one: every value in its place, or the first
/// error.
pub proof fn collecting_keeps_every_value<A>(list: Seq<Result<A, Seq<char>>>)
    ensures
        collected(list) is Ok <==> forall|i: int| 0 <= i < list.len() ==> #[trigger] list[i] is Ok,
        collected(list) matches Ok(values) ==> values.len() == list.len() && forall|i: int|
            0 <= i < list.len() ==> #[trigger] list[i] == Ok::<A, Seq<char>>(values[i]),
        collected(list) matches Err(message) ==> exists|k: int|
            0 <= k < list.len() && #[trigger] list[k] == Err::<A, Seq<char>>(message) && forall|i: int|
                0 <= i < k ==> #[trigger] list[i] is Ok,
    decreases list.len(),
{
    if list.len() > 0 {
        let init = list.drop_last();
        collecting_keeps_every_value(init);
        assert(list.last() == list[list.len() - 1]);
        assert(forall|i: int| 0 <= i < init.len() ==> #[trigger] list[i] == init[i]);
        match collected(init) {
            Err(message) => {
                let k = choose|k: int|
                    0 <= k < init.len() && #[trigger] init[k] == Err::<A, Seq<char>>(message) && forall|i: int|
                        0 <= i < k ==> #[trigger] init[i] is Ok;
                assert(list[k] == init[k]);
                assert forall|i: int| 0 <= i < k implies #[trigger] list[i] is Ok by {
                    assert(init[i] is Ok);
                }
            },
            Ok(values) => {
                assert forall|i: int| 0 <= i < init.len() implies #[trigger] list[i] == Ok::<A, Seq<char>>(values[i]) by {
                    assert(init[i] == Ok::<A, Seq<char>>(values[i]));
                }
                assert forall|i: int| 0 <= i < list.len() - 1 implies #[trigger] list[i] is Ok by {
                    assert(init[i] is Ok);
                }
                match list.last() {
                    Err(message) => {
                        assert(list[list.len() - 1] == Err::<A, Seq<char>>(message));
                    },
                    Ok(value) => {},
                }
            },
        }
    }
}

/// What finding the requests came to.
pub open spec fn outcome_requests(r: Result<Vec<Request>, String>) -> Result<Seq<RequestData>, Seq<char>> {
    match r {
        Ok(list) => Ok(ports::request_views(list@)),
        Err(message) => Err(message@),
    }
}

/// The ports to lease for a configuration, given the contents of its primary env file.
pub fn requests(config: &Config, contents: Option<&str>) -> (r: Result<Vec<Request>, String>)
    ensures
        outcome_requests(r) == collected(
            config@.ports.map_values(request_for(config@.env, model::opt_str(contents))),
        ),
{
    let ghost all = config@.ports.map_values(request_for(config@.env, model::opt_str(contents)));
    let env: Option<&str> = match &config.env {
        Some(env) => Some(env.as_str()),
        None => None,
    };
    let mut out: Vec<Request> = Vec::new();
    assert(all.take(0) =~= Seq::empty());
    assert(ports::request_views(out@) =~= Seq::empty());
    for i in 0..config.ports.len()
        invariant
            model::opt_str(env) == config@.env,
            all == config@.ports.map_values(request_for(config@.env, model::opt_str(contents))),
            collected(all.take(i as int)) == Ok::<Seq<RequestData>, Seq<char>>(ports::request_views(out@)),
    {
        let ghost before = ports::request_views(out@);
        proof {
            model::step(all, i as int);
            assert(config@.ports[i as int] == config.ports@[i as int]@);
        }
        let spec = match config::parse_port_spec(&config.ports[i]) {
            Ok(spec) => spec,
            Err(message) => {
                proof {
                    lemma_collected_error(all, i + 1);
                }
                return Err(message);
            },
        };
        match original_port(env, contents, &spec) {
            Ok(original) => {
                let request = Request { process: spec.default.is_some(), key: spec.key, original };
                out.push(request);
                assert(ports::request_views(out@) =~= before.push(request@));
            },
            Err(message) => {
                proof {
                    lemma_collected_error(all, i + 1);
                }
                return Err(message);
            },
        }
    }
    proof {
        model::whole(all);
    }
    Ok(out)
}

// ---------------------------------------------------------------------------
// Rewriting
// ---------------------------------------------------------------------------

/// What stands for the port of an assignment while references are rewritten.
pub open spec fn marker(index: nat) -> Seq<char> {
    "__WT_ASSIGNED_PORT_"@ + text::decimal(index) + "__"@
}

/// Whether a text starts with a reference: no digit follows that would make it one to another port.
pub open spec fn starts_with_reference(s: Seq<char>, reference: Seq<char>) -> bool {
    reference.is_prefix_of(s) && (s.len() == reference.len() || !text::is_ascii_digit(s[reference.len() as int]))
}

/// Every occurrence of a reference turned into `to`.
pub open spec fn references_replaced(s: Seq<char>, reference: Seq<char>, to: Seq<char>) -> Seq<char>
    decreases s.len(),
{
    if s.len() == 0 || reference.len() == 0 {
        s
    } else if starts_with_reference(s, reference) {
        to + references_replaced(s.skip(reference.len() as int), reference, to)
    } else {
        seq![s[0]] + references_replaced(s.drop_first(), reference, to)
    }
}

fn replace_references(s: &str, reference: &str, to: &str) -> (r: String)
    requires
        reference@.len() > 0,
    ensures
        r@ == references_replaced(s@, reference@, to@),
{
    let source = text::chars(s);
    let part = text::chars(reference);
    let mut out = String::new();
    let mut i: usize = 0;
    assert(s@.skip(0) =~= s@);
    while i < source.len()
        invariant
            source@ == s@,
            part@ == reference@,
            reference@.len() > 0,
            i <= s@.len(),
            out@ + references_replaced(s@.skip(i as int), reference@, to@) == references_replaced(
                s@,
                reference@,
                to@,
            ),
        decreases s@.len() - i,
    {
        let ghost rest = s@.skip(i as int);
        let ghost before = out@;
        assert(text::occurs_at(s@, reference@, i as int) == reference@.is_prefix_of(rest)) by {
            if i + reference@.len() <= s@.len() {
                assert(s@.subrange(i as int, i + reference@.len()) =~= rest.subrange(0, reference@.len() as int));
            }
        }
        if text::matches_at(&source, &part, i) && (source.len() - i == part.len() || !('0' <= source[i + part.len()]
            && source[i + part.len()] <= '9')) {
            out.append(to);
            i += part.len();
            assert(rest.skip(reference@.len() as int) =~= s@.skip(i as int));
        } else {
            out.push(source[i]);
            i += 1;
            assert(rest.drop_first() =~= s@.skip(i as int));
        }
        assert(out@ + references_replaced(s@.skip(i as int), reference@, to@) =~= before + references_replaced(
            rest,
            reference@,
            to@,
        ));
    }
    assert(out@ + references_replaced(s@.skip(i as int), reference@, to@) =~= out@);
    out
}

/// The text with a marker in place of the port in every local reference, assignment by assignment.
/// A text that already holds a marker is refused.
pub open spec fn marked(contents: Seq<char>, assignments: Seq<AssignmentData>) -> Result<Seq<char>, Seq<char>>
    decreases assignments.len(),
{
    if assignments.len() == 0 {
        Ok(contents)
    } else {
        match marked(contents, assignments.drop_last()) {
            Err(message) => Err(message),
            Ok(before) => {
                let mark = marker((assignments.len() - 1) as nat);
                let port = text::decimal(assignments.last().original as nat);
                if text::has_part(before, mark) {
                    Err("env file contains reserved marker "@ + mark)
                } else {
                    Ok(
                        references_replaced(
                            references_replaced(before, "localhost:"@ + port, "localhost:"@ + mark),
                            "127.0.0.1:"@ + port,
                            "127.0.0.1:"@ + mark,
                        ),
                    )
                }
            },
        }
    }
}

/// The text with the leased ports in place of the markers.
pub open spec fn unmarked(contents: Seq<char>, assignments: Seq<AssignmentData>) -> Seq<char>
    decreases assignments.len(),
{
    if assignments.len() == 0 {
        contents
    } else {
        text::replaced(
            unmarked(contents, assignments.drop_last()),
            marker((assignments.len() - 1) as nat),
            text::decimal(assignments.last().assigned as nat),
        )
    }
}

/// The text with the leased ports in its local references.
pub open spec fn references_rewritten(contents: Seq<char>, assignments: Seq<AssignmentData>) -> Result<
    Seq<char>,
    Seq<char>,
> {
    match marked(contents, assignments) {
        Ok(text) => Ok(unmarked(text, assignments)),
        Err(message) => Err(message),
    }
}

fn marker_text(index: usize) -> (r: String)
    ensures
        r@ == marker(index as nat),
        r@.len() > 0,
{
    proof {
        reveal_strlit("__");
    }
    text::concat3("__WT_ASSIGNED_PORT_", &text::to_decimal(index as u64), "__")
}

proof fn lemma_marked_error(contents: Seq<char>, assignments: Seq<AssignmentData>, n: int)
    requires
        0 <= n <= assignments.len(),
        marked(contents, assignments.take(n)) is Err,
    ensures
        marked(contents, assignments) == marked(contents, assignments.take(n)),
    decreases assignments.len() - n,
{
    if n < assignments.len() {
        model::step(assignments, n);
        lemma_marked_error(contents, assignments, n + 1);
    } else {
        model::whole(assignments);
    }
}

pub fn replace_local_ports(contents: &str, assignments: &Vec<Assignment>) -> (r: Result<String, String>)
    ensures
        model::outcome(r) == references_rewritten(contents@, ports::assignment_views(assignments@)),
{
    let ghost all = ports::assignment_views(assignments@);
    proof {
        reveal_strlit("localhost:");
        reveal_strlit("127.0.0.1:");
        assert(all.take(0) =~= Seq::empty());
    }
    let mut out = contents.to_owned();
    for i in 0..assignments.len()
        invariant
            all == ports::assignment_views(assignments@),
            "localhost:"@.len() > 0,
            "127.0.0.1:"@.len() > 0,
            marked(contents@, all.take(i as int)) == Ok::<Seq<char>, Seq<char>>(out@),
    {
        let mark = marker_text(i);
        let port = text::to_decimal(assignments[i].original as u64);
        proof {
            model::step(all, i as int);
            assert(all[i as int] == assignments@[i as int]@);
        }
        if text::contains(&out, &mark) {
            proof {
                lemma_marked_error(contents@, all, i + 1);
            }
            return Err(text::concat("env file contains reserved marker ", &mark));
        }
        out = replace_references(&out, &text::concat("localhost:", &port), &text::concat("localhost:", &mark));
        out = replace_references(&out, &text::concat("127.0.0.1:", &port), &text::concat("127.0.0.1:", &mark));
    }
    let ghost halfway = out@;
    proof {
        model::whole(all);
    }
    for i in 0..assignments.len()
        invariant
            all == ports::assignment_views(assignments@),
            out@ == unmarked(halfway, all.take(i as int)),
    {
        proof {
            model::step(all, i as int);
            assert(all[i as int] == assignments@[i as int]@);
        }
        out = text::replace(&out, &marker_text(i), &text::to_decimal(assignments[i].assigned as u64));
    }
    proof {
        model::whole(all);
    }
    Ok(out)
}

/// The text with the leased ports on the lines of the variables that env files hold.
pub open spec fn variables_rewritten(contents: Seq<char>, assignments: Seq<AssignmentData>) -> Seq<char>
    decreases assignments.len(),
{
    if assignments.len() == 0 {
        contents
    } else {
        let before = variables_rewritten(contents, assignments.drop_last());
        if assignments.last().process {
            before
        } else {
            value_replaced(before, assignments.last().key, text::decimal(assignments.last().assigned as nat))
        }
    }
}

/// A copied file with the leased ports in it.
pub open spec fn rewritten(contents: Seq<char>, assignments: Seq<AssignmentData>) -> Result<Seq<char>, Seq<char>> {
    references_rewritten(variables_rewritten(contents, assignments), assignments)
}

pub fn rewrite(contents: &str, assignments: &Vec<Assignment>) -> (r: Result<String, String>)
    ensures
        model::outcome(r) == rewritten(contents@, ports::assignment_views(assignments@)),
{
    let ghost all = ports::assignment_views(assignments@);
    let mut out = contents.to_owned();
    assert(all.take(0) =~= Seq::empty());
    for i in 0..assignments.len()
        invariant
            all == ports::assignment_views(assignments@),
            out@ == variables_rewritten(contents@, all.take(i as int)),
    {
        proof {
            model::step(all, i as int);
            assert(all[i as int] == assignments@[i as int]@);
        }
        if !assignments[i].process {
            out = replace_value(
                &out,
                &assignments[i].key,
                &text::to_decimal(assignments[i].assigned as u64),
            );
        }
    }
    proof {
        model::whole(all);
    }
    replace_local_ports(&out, assignments)
}

// ---------------------------------------------------------------------------
// The file that processes read
// ---------------------------------------------------------------------------

/// Whether an `.envrc` loads `.wt.env`.
pub open spec fn loads_process_env(envrc: Option<Seq<char>>) -> bool {
    envrc matches Some(contents) && text::has_part(contents, ".wt.env"@)
}

pub fn envrc_loads_process_env(envrc: Option<&str>) -> (r: bool)
    ensures
        r == loads_process_env(model::opt_str(envrc)),
{
    match envrc {
        Some(contents) => text::contains(contents, ".wt.env"),
        None => false,
    }
}

/// The line of a leased port, where the file lists it: every port where `.envrc` loads the file,
/// else those that processes read.
pub open spec fn port_line(every: bool) -> spec_fn(AssignmentData) -> Option<Seq<char>> {
    |a: AssignmentData|
        if every || a.process {
            Some(a.key + "="@ + text::decimal(a.assigned as nat))
        } else {
            None
        }
}

/// The lines of `.wt.env` after the first.
pub open spec fn process_lines(assignments: Seq<AssignmentData>, every: bool, compose_name: Option<Seq<char>>) -> Seq<
    Seq<char>,
> {
    assignments.filter_map(port_line(every)) + match compose_name {
        Some(name) => if every {
            seq!["COMPOSE_PROJECT_NAME="@ + name]
        } else {
            Seq::empty()
        },
        None => Seq::empty(),
    }
}

/// Lines, each with the line feed that ends it.
pub open spec fn ended(lines: Seq<Seq<char>>) -> Seq<char>
    decreases lines.len(),
{
    if lines.len() == 0 {
        Seq::empty()
    } else {
        ended(lines.drop_last()) + lines.last() + "\n"@
    }
}

/// The contents of `.wt.env`, if there is anything to list in it.
pub open spec fn process_env(assignments: Seq<AssignmentData>, every: bool, compose_name: Option<Seq<char>>) -> Option<
    Seq<char>,
> {
    let lines = process_lines(assignments, every, compose_name);
    if lines.len() == 0 {
        None
    } else {
        Some("# Generated by wt. Do not edit.\n"@ + ended(lines))
    }
}

fn lines_for_processes(assignments: &Vec<Assignment>, every: bool, compose_name: Option<&str>) -> (r: Vec<String>)
    ensures
        model::views(r@) == process_lines(ports::assignment_views(assignments@), every, model::opt_str(compose_name)),
{
    let ghost all = ports::assignment_views(assignments@);
    let mut out: Vec<String> = Vec::new();
    proof {
        model::start_filter_map(all, port_line(every));
    }
    for i in 0..assignments.len()
        invariant
            all == ports::assignment_views(assignments@),
            model::views(out@) == all.take(i as int).filter_map(port_line(every)),
    {
        proof {
            model::step_filter_map(all, i as int, port_line(every));
            assert(all[i as int] == assignments@[i as int]@);
        }
        if every || assignments[i].process {
            out.push(text::concat3(&assignments[i].key, "=", &text::to_decimal(assignments[i].assigned as u64)));
        }
    }
    let ghost listed = model::views(out@);
    proof {
        model::whole(all);
        assert(listed + Seq::<Seq<char>>::empty() =~= listed);
    }
    match compose_name {
        Some(name) => {
            if every {
                out.push(text::concat("COMPOSE_PROJECT_NAME=", name));
                assert(model::views(out@) =~= listed + seq!["COMPOSE_PROJECT_NAME="@ + name@]);
            }
        },
        None => {},
    }
    out
}

pub fn process_env_text(assignments: &Vec<Assignment>, every: bool, compose_name: Option<&str>) -> (r: Option<String>)
    ensures
        model::opt(r) == process_env(ports::assignment_views(assignments@), every, model::opt_str(compose_name)),
{
    let lines = lines_for_processes(assignments, every, compose_name);
    let ghost all = model::views(lines@);
    if lines.len() == 0 {
        return None;
    }
    let mut body = String::new();
    assert(all.take(0) =~= Seq::<Seq<char>>::empty());
    for i in 0..lines.len()
        invariant
            all == model::views(lines@),
            body@ == ended(all.take(i as int)),
    {
        proof {
            model::step(all, i as int);
        }
        body.append(&lines[i]);
        body.append("\n");
    }
    proof {
        model::whole(all);
    }
    Some(text::concat("# Generated by wt. Do not edit.\n", &body))
}

// ---------------------------------------------------------------------------
// Preparing a worktree
// ---------------------------------------------------------------------------

/// What was prepared: the leases, the configured paths to look for again after setup, and the
/// fingerprints of the copied files.
pub struct Prepared {
    pub assignments: Vec<Assignment>,
    pub pending: Vec<String>,
    pub copied_files: Vec<(String, String)>,
}

/// A map in the order of its keys, with one more entry.
pub open spec fn map_with(map: Seq<(Seq<char>, u16)>, key: Seq<char>, port: u16) -> Seq<(Seq<char>, u16)>
    decreases map.len(),
{
    if map.len() == 0 {
        seq![(key, port)]
    } else if map.last().0 == key {
        map.drop_last().push((key, port))
    } else if text::less(key, map.last().0) {
        map_with(map.drop_last(), key, port).push(map.last())
    } else {
        map.push((key, port))
    }
}

/// The leased ports by the names of their variables, in the order of the names; of two leases for
/// one name the later counts.
pub open spec fn ports_by_key(assignments: Seq<AssignmentData>) -> Seq<(Seq<char>, u16)>
    decreases assignments.len(),
{
    if assignments.len() == 0 {
        Seq::empty()
    } else {
        map_with(ports_by_key(assignments.drop_last()), assignments.last().key, assignments.last().assigned)
    }
}

/// The names and numbers of a list of ports.
pub open spec fn pair_views(list: Seq<(String, u16)>) -> Seq<(Seq<char>, u16)> {
    list.map_values(|p: (String, u16)| (p.0@, p.1))
}

proof fn lemma_map_with(map: Seq<(Seq<char>, u16)>, key: Seq<char>, port: u16, at: int)
    requires
        0 <= at <= map.len(),
        forall|i: int| at <= i < map.len() ==> #[trigger] text::less(key, map[i].0) && map[i].0 != key,
    ensures
        at > 0 && map[at - 1].0 == key ==> map_with(map, key, port) == map.update(at - 1, (key, port)),
        at == 0 || (map[at - 1].0 != key && !text::less(key, map[at - 1].0)) ==> map_with(map, key, port) == map.insert(
            at,
            (key, port),
        ),
    decreases map.len(),
{
    if at < map.len() {
        let last = map.last();
        let init = map.drop_last();
        assert(text::less(key, map[map.len() - 1].0));
        assert forall|i: int| at <= i < init.len() implies #[trigger] text::less(key, init[i].0) && init[i].0
            != key by {
            assert(text::less(key, map[i].0));
        }
        lemma_map_with(init, key, port, at);
        if at > 0 && map[at - 1].0 == key {
            assert(init.update(at - 1, (key, port)).push(last) =~= map.update(at - 1, (key, port)));
        } else if at == 0 || (map[at - 1].0 != key && !text::less(key, map[at - 1].0)) {
            assert(init.insert(at, (key, port)).push(last) =~= map.insert(at, (key, port)));
        }
    } else if map.len() == 0 {
        assert(map.insert(0, (key, port)) =~= seq![(key, port)]);
    } else if map.last().0 == key {
        assert(map.drop_last().push((key, port)) =~= map.update(map.len() - 1, (key, port)));
    } else {
        assert(map.push((key, port)) =~= map.insert(map.len() as int, (key, port)));
    }
}

fn insert_port(map: &mut Vec<(String, u16)>, key: &str, port: u16)
    ensures
        pair_views(final(map)@) == map_with(pair_views(old(map)@), key@, port),
{
    let ghost before = pair_views(map@);
    let mut at: usize = map.len();
    while at > 0 && text::precedes(key, &map[at - 1].0) && !text::same(key, &map[at - 1].0)
        invariant
            at <= map@.len(),
            map@ == old(map)@,
            before == pair_views(map@),
            forall|i: int| at <= i < map@.len() ==> #[trigger] text::less(key@, before[i].0) && before[i].0 != key@,
        decreases at,
    {
        assert(before[at - 1].0 == map@[at - 1].0@);
        at -= 1;
    }
    proof {
        lemma_map_with(before, key@, port, at as int);
        if at > 0 {
            assert(before[at - 1].0 == map@[at - 1].0@);
        }
    }
    if at > 0 && text::same(key, &map[at - 1].0) {
        map.set(at - 1, (key.to_owned(), port));
        assert(pair_views(map@) =~= before.update(at - 1, (key@, port)));
    } else {
        map.insert(at, (key.to_owned(), port));
        assert(pair_views(map@) =~= before.insert(at as int, (key@, port)));
    }
}

impl Prepared {
    pub fn ports(&self) -> (r: Vec<(String, u16)>)
        ensures
            pair_views(r@) == ports_by_key(ports::assignment_views(self.assignments@)),
    {
        let ghost all = ports::assignment_views(self.assignments@);
        let mut map: Vec<(String, u16)> = Vec::new();
        assert(all.take(0) =~= Seq::empty());
        assert(pair_views(map@) =~= Seq::empty());
        for i in 0..self.assignments.len()
            invariant
                all == ports::assignment_views(self.assignments@),
                pair_views(map@) == ports_by_key(all.take(i as int)),
        {
            proof {
                model::step(all, i as int);
                assert(all[i as int] == self.assignments@[i as int]@);
            }
            insert_port(&mut map, &self.assignments[i].key, self.assignments[i].assigned);
        }
        proof {
            model::whole(all);
        }
        map
    }
}

/// A file of a worktree by its path and contents.
pub open spec fn file_view(file: FileText) -> (Seq<char>, Seq<char>) {
    (file.path@, file.contents@)
}

pub open spec fn file_views(files: Seq<FileText>) -> Seq<(Seq<char>, Seq<char>)> {
    files.map_values(|f: FileText| file_view(f))
}

/// A copied file as the worktree gets it: with the leased ports, and with the Compose project name
/// where it is the primary env file of a repository that uses Compose.
pub open spec fn prepared_file(
    settings: config::Settings,
    assignments: Seq<AssignmentData>,
    compose_name: Seq<char>,
) -> spec_fn((Seq<char>, Seq<char>)) -> Result<(Seq<char>, Seq<char>), Seq<char>> {
    |file: (Seq<char>, Seq<char>)|
        match rewritten(file.1, assignments) {
            Err(message) => Err(message),
            Ok(contents) => Ok(
                (
                    file.0,
                    if settings.compose && settings.env is Some && paths::same_path(settings.env->0, file.0) {
                        value_set(contents, "COMPOSE_PROJECT_NAME"@, compose_name)
                    } else {
                        contents
                    },
                ),
            ),
        }
}

/// The files of a new worktree: the copied ones, then `.wt.env` where there is anything to list.
pub open spec fn prepared_files(
    settings: config::Settings,
    files: Seq<(Seq<char>, Seq<char>)>,
    assignments: Seq<AssignmentData>,
    compose_name: Seq<char>,
    every: bool,
) -> Result<Seq<(Seq<char>, Seq<char>)>, Seq<char>> {
    if settings.compose && settings.env is None {
        Err("wt.compose requires wt.env"@)
    } else {
        match collected(files.map_values(prepared_file(settings, assignments, compose_name))) {
            Err(message) => Err(message),
            Ok(copied) => Ok(
                match process_env(
                    assignments,
                    every,
                    if settings.compose {
                        Some(compose_name)
                    } else {
                        None
                    },
                ) {
                    Some(contents) => copied.push((".wt.env"@, contents)),
                    None => copied,
                },
            ),
        }
    }
}

/// What preparing files came to.
pub open spec fn outcome_files(r: Result<Vec<FileText>, String>) -> Result<Seq<(Seq<char>, Seq<char>)>, Seq<char>> {
    match r {
        Ok(files) => Ok(file_views(files@)),
        Err(message) => Err(message@),
    }
}

/// The contents of the files that a new worktree gets, from those of the files that are copied.
pub fn prepare(
    config: &Config,
    files: &Vec<FileText>,
    assignments: &Vec<Assignment>,
    compose_name: &str,
    every: bool,
) -> (r: Result<Vec<FileText>, String>)
    ensures
        outcome_files(r) == prepared_files(
            config@,
            file_views(files@),
            ports::assignment_views(assignments@),
            compose_name@,
            every,
        ),
{
    if config.compose && config.env.is_none() {
        return Err("wt.compose requires wt.env".to_owned());
    }
    let mut out = match rewrite_files(config, files, assignments, compose_name) {
        Ok(out) => out,
        Err(message) => {
            return Err(message);
        },
    };
    let name: Option<&str> = if config.compose {
        Some(compose_name)
    } else {
        None
    };
    match process_env_text(assignments, every, name) {
        Some(contents) => {
            let ghost before = file_views(out@);
            let file = FileText { path: ".wt.env".to_owned(), contents };
            out.push(file);
            assert(file_views(out@) =~= before.push((".wt.env"@, contents@)));
        },
        None => {},
    }
    Ok(out)
}

/// The copied files with the leased ports and the Compose project name in them; the files that a
/// setup command generated are treated in the same way.
pub fn rewrite_files(
    config: &Config,
    files: &Vec<FileText>,
    assignments: &Vec<Assignment>,
    compose_name: &str,
) -> (r: Result<Vec<FileText>, String>)
    ensures
        outcome_files(r) == collected(
            file_views(files@).map_values(
                prepared_file(config@, ports::assignment_views(assignments@), compose_name@),
            ),
        ),
{
    let ghost each = prepared_file(config@, ports::assignment_views(assignments@), compose_name@);
    let ghost all = file_views(files@).map_values(each);
    let mut out: Vec<FileText> = Vec::new();
    assert(all.take(0) =~= Seq::empty());
    assert(file_views(out@) =~= Seq::empty());
    for i in 0..files.len()
        invariant
            each == prepared_file(config@, ports::assignment_views(assignments@), compose_name@),
            all == file_views(files@).map_values(each),
            collected(all.take(i as int)) == Ok::<Seq<(Seq<char>, Seq<char>)>, Seq<char>>(file_views(out@)),
    {
        let ghost before = file_views(out@);
        proof {
            model::step(all, i as int);
            assert(file_views(files@)[i as int] == (files@[i as int].path@, files@[i as int].contents@));
        }
        let mut contents = match rewrite(&files[i].contents, assignments) {
            Ok(contents) => contents,
            Err(message) => {
                proof {
                    lemma_collected_error(all, i + 1);
                }
                return Err(message);
            },
        };
        match &config.env {
            Some(env) => {
                if config.compose && paths::same(env, &files[i].path) {
                    contents = set_value(&contents, "COMPOSE_PROJECT_NAME", compose_name);
                }
            },
            None => {},
        }
        let file = FileText { path: files[i].path.clone(), contents };
        out.push(file);
        assert(file_views(out@) =~= before.push((file.path@, file.contents@)));
    }
    proof {
        model::whole(all);
    }
    Ok(out)
}

// ---------------------------------------------------------------------------
// Paths that must not be tracked
// ---------------------------------------------------------------------------

/// Whether a port setting has a default, so that processes read the port.
pub open spec fn is_process_port(port: Seq<char>) -> bool {
    text::has_part(port, ":"@)
}

/// Whether one of the ports is read by processes.
pub open spec fn has_process_port(ports: Seq<Seq<char>>) -> bool {
    exists|i: int| 0 <= i < ports.len() && is_process_port(#[trigger] ports[i])
}

pub fn has_process_ports(config: &Config) -> (r: bool)
    ensures
        r == has_process_port(config@.ports),
{
    for i in 0..config.ports.len()
        invariant
            forall|k: int| 0 <= k < i ==> !is_process_port(#[trigger] config@.ports[k]),
    {
        assert(config@.ports[i as int] == config.ports@[i as int]@);
        if text::contains(&config.ports[i], ":") {
            assert(is_process_port(config@.ports[i as int]));
            return true;
        }
    }
    false
}

/// Whether `.wt.env` is written to a new worktree: where processes read a port from it, and where
/// `.envrc` loads it (`every`) and there is a port or a Compose project to list.
pub open spec fn writes_process_file(settings: config::Settings, every: bool) -> bool {
    has_process_port(settings.ports) || every && (settings.ports.len() > 0 || settings.compose)
}

pub fn writes_process_env(config: &Config, every: bool) -> (r: bool)
    ensures
        r == writes_process_file(config@, every),
{
    has_process_ports(config) || every && (config.ports.len() > 0 || config.compose)
}

/// The `.envrc` that a new worktree has once files are copied: its own, else that of the checkout
/// where it is copied.
pub open spec fn envrc_after(
    own: Option<Seq<char>>,
    checkout: Option<Seq<char>>,
    copies: Seq<(Seq<char>, Option<Seq<char>>)>,
) -> Option<Seq<char>> {
    match own {
        Some(contents) => Some(contents),
        None => if exists|i: int| 0 <= i < copies.len() && (#[trigger] copies[i]).0 == ".envrc"@ {
            checkout
        } else {
            None
        },
    }
}

/// Whether `.envrc` will load `.wt.env` in a new worktree, told before anything is copied.
pub fn will_load_process_env(own: Option<&str>, checkout: Option<&str>, plan: &CopyPlan) -> (r: bool)
    ensures
        r == loads_process_env(
            envrc_after(model::opt_str(own), model::opt_str(checkout), copy_views(plan.copies@)),
        ),
{
    if own.is_some() {
        return envrc_loads_process_env(own);
    }
    let ghost all = copy_views(plan.copies@);
    for i in 0..plan.copies.len()
        invariant
            own is None,
            all == copy_views(plan.copies@),
            forall|k: int| 0 <= k < i ==> (#[trigger] all[k]).0 != ".envrc"@,
    {
        assert(all[i as int].0 == plan.copies@[i as int].path@);
        if text::same(&plan.copies[i].path, ".envrc") {
            return envrc_loads_process_env(checkout);
        }
    }
    false
}

/// The paths that Git must not track: what is copied, what may be discarded, and `.wt.env` where it
/// is written.
pub open spec fn untracked_paths(settings: config::Settings, every: bool) -> Seq<Seq<char>> {
    config::files_to_copy(settings) + settings.disposable + (if writes_process_file(settings, every) {
        seq![".wt.env"@]
    } else {
        Seq::empty()
    })
}

pub fn paths_to_check(config: &Config, every: bool) -> (r: Vec<String>)
    ensures
        model::views(r@) == untracked_paths(config@, every),
{
    let mut out = config.copied_files();
    let ghost first = model::views(out@);
    let ghost more = config@.disposable;
    assert(first + more.take(0) =~= first);
    for i in 0..config.disposable.len()
        invariant
            more == config@.disposable,
            model::views(out@) == first + more.take(i as int),
    {
        proof {
            model::step(more, i as int);
            assert(first + more.take(i + 1) =~= (first + more.take(i as int)).push(more[i as int]));
        }
        out.push(config.disposable[i].clone());
    }
    proof {
        model::whole(more);
        assert(first + more + Seq::<Seq<char>>::empty() =~= first + more);
    }
    if writes_process_env(config, every) {
        out.push(".wt.env".to_owned());
        assert(model::views(out@) =~= first + more + seq![".wt.env"@]);
    }
    out
}

/// The first of the tracked paths that `git ls-files` printed; the configured path where there is
/// none that can be read.
pub open spec fn tracked_path(path: Seq<char>, printed: Seq<u8>) -> Seq<char> {
    let found = process::nul_entries(printed);
    if found.len() > 0 && vstd::utf8::valid_utf8(found[0]) {
        vstd::utf8::decode_utf8(found[0])
    } else {
        path
    }
}

/// Whether `git ls-files` found nothing tracked under a path; what it found is named.
pub open spec fn found_untracked(path: Seq<char>, output: Output) -> Result<(), Seq<char>> {
    if !output.success() {
        Err("cannot inspect configured path "@ + path)
    } else if output.stdout@.len() > 0 {
        Err(
            "configured path is tracked by Git and must not be copied or discarded: "@ + tracked_path(
                path,
                output.stdout@,
            ),
        )
    } else {
        Ok(())
    }
}

fn first_tracked(path: &str, printed: &Vec<u8>) -> (r: String)
    ensures
        r@ == tracked_path(path@, printed@),
{
    let found = process::nul_pieces(printed);
    assert(process::nul_entries(printed@).len() == found@.len());
    if found.len() > 0 {
        assert(process::nul_entries(printed@)[0] == found@[0]@);
        match text::from_utf8(&found[0]) {
            Some(first) => {
                return first;
            },
            None => {},
        }
    }
    path.to_owned()
}

pub fn reject_tracked_path(path: &str, output: &Output) -> (r: Result<(), String>)
    ensures
        model::outcome(r) == found_untracked(path@, *output),
{
    if !output.succeeded() {
        Err(text::concat("cannot inspect configured path ", path))
    } else if output.stdout.len() > 0 {
        Err(
            text::concat(
                "configured path is tracked by Git and must not be copied or discarded: ",
                &first_tracked(path, &output.stdout),
            ),
        )
    } else {
        Ok(())
    }
}

// ---------------------------------------------------------------------------
// Fingerprints of files
// ---------------------------------------------------------------------------

/// What a path of a worktree leads to, without following it.
pub enum Kind {
    File,
    Link(String),
    Other,
}

pub open spec fn link_fingerprint(target: Seq<char>) -> Seq<char> {
    "link:"@ + target
}

/// By what a managed file is known: the hash of a regular file, the target of a link.
pub open spec fn file_fingerprint(path: Seq<char>, kind: Kind, output: Output) -> Result<Seq<char>, Seq<char>> {
    match kind {
        Kind::Link(target) => Ok(link_fingerprint(target@)),
        Kind::Other => Err("changed managed file: "@ + path),
        Kind::File => if !output.success() {
            Err("cannot fingerprint "@ + path)
        } else {
            match process::decoded(output.stdout@) {
                Ok(s) => Ok(text::trimmed(s)),
                Err(message) => Err(message),
            }
        },
    }
}

pub fn fingerprint(path: &str, kind: &Kind, output: &Output) -> (r: Result<String, String>)
    ensures
        model::outcome(r) == file_fingerprint(path@, *kind, *output),
{
    match kind {
        Kind::Link(target) => Ok(text::concat("link:", target)),
        Kind::Other => Err(text::concat("changed managed file: ", path)),
        Kind::File => {
            if !output.succeeded() {
                return Err(text::concat("cannot fingerprint ", path));
            }
            match process::decode(&output.stdout) {
                Ok(s) => Ok(text::trim(&s)),
                Err(message) => Err(message),
            }
        },
    }
}

// ---------------------------------------------------------------------------
// direnv
// ---------------------------------------------------------------------------

/// Whether the `.envrc` of a new worktree may be allowed without asking: where it is the one of the
/// checkout, byte for byte.
pub fn same_envrc(known: &Vec<u8>, copied: &Vec<u8>) -> (r: Result<(), String>)
    ensures
        r is Ok <==> known@ == copied@,
        r is Err ==> r->Err_0@ == ".envrc differs from the checkout's"@,
{
    if same_bytes(known, copied) {
        Ok(())
    } else {
        Err(".envrc differs from the checkout's".to_owned())
    }
}

fn same_bytes(a: &Vec<u8>, b: &Vec<u8>) -> (r: bool)
    ensures
        r == (a@ == b@),
{
    if a.len() != b.len() {
        return false;
    }
    for i in 0..a.len()
        invariant
            a@.len() == b@.len(),
            forall|k: int| 0 <= k < i ==> a@[k] == b@[k],
    {
        if a[i] != b[i] {
            return false;
        }
    }
    assert(a@ =~= b@);
    true
}

/// Whether a line of `direnv status` says that the `.envrc` is allowed.
pub open spec fn allowed_line() -> spec_fn(Seq<char>) -> Option<bool> {
    |line: Seq<char>|
        match text::after_prefix(line, "Found RC allowed "@) {
            Some(rest) => Some(rest == "0"@ || rest == "true"@),
            None => None,
        }
}

/// Whether direnv allows the `.envrc` of a directory; nothing where it has none or cannot say.
pub open spec fn allowed_by(status: Output) -> Option<bool> {
    if status.success() {
        model::first_some(text::lines(text::lossy_text(status.stdout@)), allowed_line())
    } else {
        None
    }
}

pub fn direnv_allowed(status: &Output) -> (r: Option<bool>)
    ensures
        r == allowed_by(*status),
{
    if !status.succeeded() {
        return None;
    }
    let lines = text::lines_of(&text::from_utf8_lossy(&status.stdout));
    let ghost all = text::lines(text::lossy_text(status.stdout@));
    for i in 0..lines.len()
        invariant
            all == model::views(lines@),
            all == text::lines(text::lossy_text(status.stdout@)),
            status.success(),
            forall|k: int| 0 <= k < i ==> allowed_line()(#[trigger] all[k]) is None,
    {
        assert(all[i as int] == lines@[i as int]@);
        match text::strip_prefix(&lines[i], "Found RC allowed ") {
            Some(rest) => {
                proof {
                    model::found_some(all, allowed_line(), i as int);
                }
                return Some(text::same(&rest, "0") || text::same(&rest, "true"));
            },
            None => {},
        }
    }
    proof {
        model::found_none(all, allowed_line());
    }
    None
}

// ---------------------------------------------------------------------------
// What is copied
// ---------------------------------------------------------------------------

/// Whether a file is private to a checkout by its name: `*.local` or `*.local.*`.
pub open spec fn is_local_name(name: Seq<char>) -> bool {
    ".local"@.is_suffix_of(name) || text::has_part(name, ".local."@)
}

pub fn is_local_file(path: &str) -> (r: bool)
    ensures
        r == (paths::name_of(path@) matches Some(name) && is_local_name(name)),
{
    match paths::file_name(path) {
        Some(name) => text::ends_with(&name, ".local") || text::contains(&name, ".local."),
        None => false,
    }
}

/// Every name that ends in `.local` is private to a checkout, and so is every name with `.local.`
/// in it, whatever stands before and after.
pub proof fn local_names_are_private(stem: Seq<char>, rest: Seq<char>)
    ensures
        is_local_name(stem + ".local"@),
        is_local_name(stem + ".local."@ + rest),
{
    let ended = stem + ".local"@;
    assert(ended.subrange(stem.len() as int, ended.len() as int) =~= ".local"@);
    let inner = stem + ".local."@ + rest;
    assert(inner.subrange(stem.len() as int, (stem.len() + ".local."@.len()) as int) =~= ".local."@);
    assert(text::occurs_at(inner, ".local."@, stem.len() as int));
}

/// No other name is private to a checkout.
pub proof fn private_names_are_local(name: Seq<char>)
    requires
        is_local_name(name),
    ensures
        ({
            ||| exists|stem: Seq<char>| name == #[trigger] (stem + ".local"@)
            ||| exists|stem: Seq<char>, rest: Seq<char>| name == #[trigger] (stem + ".local."@ + rest)
        }),
{
    if ".local"@.is_suffix_of(name) {
        let stem = name.take(name.len() - ".local"@.len());
        assert(name =~= stem + ".local"@);
    } else {
        let at = choose|at: int| text::occurs_at(name, ".local."@, at);
        let stem = name.take(at);
        let rest = name.skip(at + ".local."@.len());
        assert(name =~= stem + ".local."@ + rest);
    }
}

/// Whether a configured path is a pattern.
pub open spec fn is_glob(path: Seq<char>) -> bool {
    path.contains('*') || path.contains('?') || path.contains('[')
}

pub fn is_pattern(path: &str) -> (r: bool)
    ensures
        r == is_glob(path@),
{
    text::has_char(path, '*') || text::has_char(path, '?') || text::has_char(path, '[')
}

/// What stands at a configured path: a directory, something else, nothing, or what cannot be
/// inspected.
#[derive(Clone, Copy, PartialEq, Eq, Structural)]
pub enum Entry {
    Directory,
    File,
    Missing,
    Unreadable,
}

/// Where the files that a configured path selects are found: among the untracked files that Git
/// lists for a pathspec, at the path itself, or nowhere.
pub enum Search {
    Untracked(String),
    Itself,
    Nothing,
    Failed,
}

pub ghost enum SearchData {
    Untracked(Seq<char>),
    Itself,
    Nothing,
    Failed,
}

impl View for Search {
    type V = SearchData;

    open spec fn view(&self) -> SearchData {
        match self {
            Search::Untracked(pathspec) => SearchData::Untracked(pathspec@),
            Search::Itself => SearchData::Itself,
            Search::Nothing => SearchData::Nothing,
            Search::Failed => SearchData::Failed,
        }
    }
}

/// What a configured path selects: every file below a directory, a file, or the matches of a
/// pattern that no file is named by.
pub open spec fn search_for(path: Seq<char>, entry: Entry) -> SearchData {
    match entry {
        Entry::Directory => SearchData::Untracked(":(literal)"@ + path),
        Entry::File => SearchData::Itself,
        _ => if is_glob(path) {
            SearchData::Untracked(":(glob)"@ + path)
        } else if entry == Entry::Missing {
            SearchData::Nothing
        } else {
            SearchData::Failed
        },
    }
}

pub fn selected_by(path: &str, entry: Entry) -> (r: Search)
    ensures
        r@ == search_for(path@, entry),
{
    match entry {
        Entry::Directory => Search::Untracked(text::concat(":(literal)", path)),
        Entry::File => Search::Itself,
        _ => {
            if is_pattern(path) {
                Search::Untracked(text::concat(":(glob)", path))
            } else if entry == Entry::Missing {
                Search::Nothing
            } else {
                Search::Failed
            }
        },
    }
}

/// Whether a listed path is a file: directories that are ignored as a whole end with a slash.
pub open spec fn names_file() -> spec_fn(Seq<char>) -> bool {
    |path: Seq<char>| !"/"@.is_suffix_of(path)
}

/// The ignored files outside directories that are ignored as a whole, by what Git listed.
pub fn ignored_files(listing: &Output) -> (r: Result<Vec<String>, String>)
    ensures
        model::outcome_list(r) == match detection::listed_by(*listing) {
            Ok(paths) => Ok(paths.filter(names_file())),
            Err(message) => Err(message),
        },
{
    let paths = match detection::listed_paths(listing) {
        Ok(paths) => paths,
        Err(message) => {
            return Err(message);
        },
    };
    let ghost all = model::views(paths@);
    let mut out: Vec<String> = Vec::new();
    proof {
        model::start_filter(all, names_file());
    }
    for i in 0..paths.len()
        invariant
            all == model::views(paths@),
            model::views(out@) == all.take(i as int).filter(names_file()),
    {
        proof {
            model::step_filter(all, i as int, names_file());
            assert(all[i as int] == paths@[i as int]@);
        }
        if !text::ends_with(&paths[i], "/") {
            out.push(paths[i].clone());
        }
    }
    proof {
        model::whole(all);
    }
    Ok(out)
}

/// A file of the checkout that may be copied: its path, where it leads if it is a link, whether
/// that lies outside the repository, and whether the new worktree already has the path.
pub struct Source {
    pub path: String,
    pub link: Option<String>,
    pub outside: bool,
    pub present: bool,
}

/// Whether a link leads out of the repository: where what it leads to does not lie in the root, or
/// cannot be found.
pub fn points_outside(link: Option<&str>, resolved: Option<&str>, root: Option<&str>) -> (r: bool)
    ensures
        r <==> link is Some && !(resolved is Some && root is Some && paths::lies_in(resolved->0@, root->0@)),
{
    match (link, resolved, root) {
        (None, _, _) => false,
        (Some(_), Some(resolved), Some(root)) => !paths::starts_with(resolved, root),
        _ => true,
    }
}

/// The files that a configured path selects.
pub struct Selection {
    pub path: String,
    pub files: Vec<Source>,
}

/// A file to copy; as a link with this target where there is one.
pub struct Copy {
    pub path: String,
    pub link: Option<String>,
}

/// What is to be copied now, and what is to be looked for again after setup.
pub struct CopyPlan {
    pub copies: Vec<Copy>,
    pub pending: Vec<String>,
}

pub open spec fn copy_views(list: Seq<Copy>) -> Seq<(Seq<char>, Option<Seq<char>>)> {
    list.map_values(|c: Copy| (c.path@, model::opt(c.link)))
}

/// The paths of planned copies.
pub open spec fn copied_paths(copies: Seq<(Seq<char>, Option<Seq<char>>)>) -> Seq<Seq<char>> {
    copies.map_values(|c: (Seq<char>, Option<Seq<char>>)| c.0)
}

/// A link that points outside the repository is recreated; every other source becomes a file.
pub open spec fn copy_of(source: Source) -> (Seq<char>, Option<Seq<char>>) {
    (
        source.path@,
        if source.outside {
            model::opt(source.link)
        } else {
            None
        },
    )
}

/// One more source: it is skipped where the worktree has the path or it is planned already.
pub open spec fn with_source(copies: Seq<(Seq<char>, Option<Seq<char>>)>, source: Source) -> Seq<
    (Seq<char>, Option<Seq<char>>),
> {
    if source.present || paths::listed(copied_paths(copies), source.path@) {
        copies
    } else {
        copies.push(copy_of(source))
    }
}

pub open spec fn with_sources(copies: Seq<(Seq<char>, Option<Seq<char>>)>, sources: Seq<Source>) -> Seq<
    (Seq<char>, Option<Seq<char>>),
>
    decreases sources.len(),
{
    if sources.len() == 0 {
        copies
    } else {
        with_source(with_sources(copies, sources.drop_last()), sources.last())
    }
}

/// What the configured paths select, one after the other.
pub open spec fn with_selections(selections: Seq<Selection>) -> Seq<(Seq<char>, Option<Seq<char>>)>
    decreases selections.len(),
{
    if selections.len() == 0 {
        Seq::empty()
    } else {
        with_sources(with_selections(selections.drop_last()), selections.last().files@)
    }
}

/// The configured path, where it selects nothing.
pub open spec fn pending_path() -> spec_fn(Selection) -> Option<Seq<char>> {
    |s: Selection|
        if s.files@.len() == 0 {
            Some(s.path@)
        } else {
            None
        }
}

/// The ignored files that are copied without being configured.
pub open spec fn is_local_source() -> spec_fn(Source) -> bool {
    |s: Source| paths::name_of(s.path@) matches Some(name) && is_local_name(name)
}

fn push_source(copies: &mut Vec<Copy>, source: &Source)
    ensures
        copy_views(final(copies)@) == with_source(copy_views(old(copies)@), *source),
{
    if source.present {
        return;
    }
    let ghost before = copy_views(copies@);
    for i in 0..copies.len()
        invariant
            copies@ == old(copies)@,
            before == copy_views(copies@),
            !source.present,
            forall|k: int| 0 <= k < i ==> !paths::same_path(#[trigger] copied_paths(before)[k], source.path@),
    {
        assert(copied_paths(before)[i as int] == copies@[i as int].path@);
        if paths::same(&copies[i].path, &source.path) {
            assert(paths::listed(copied_paths(before), source.path@));
            return;
        }
    }
    let copy = Copy {
        path: source.path.clone(),
        link: if source.outside {
            text::copy_of(&source.link)
        } else {
            None
        },
    };
    copies.push(copy);
    assert(copy_views(copies@) =~= before.push(copy_of(*source)));
}

/// What to copy into a new worktree: what the configured paths select, then the ignored files that
/// are private by their names.
pub fn plan_copies(selections: &Vec<Selection>, ignored: &Vec<Source>) -> (r: CopyPlan)
    ensures
        copy_views(r.copies@) == with_sources(
            with_selections(selections@),
            ignored@.filter(is_local_source()),
        ),
        model::views(r.pending@) == selections@.filter_map(pending_path()),
{
    let mut copies: Vec<Copy> = Vec::new();
    let mut pending: Vec<String> = Vec::new();
    proof {
        model::start_filter_map(selections@, pending_path());
        assert(selections@.take(0) =~= Seq::empty());
        assert(copy_views(copies@) =~= Seq::empty());
    }
    for i in 0..selections.len()
        invariant
            copy_views(copies@) == with_selections(selections@.take(i as int)),
            model::views(pending@) == selections@.take(i as int).filter_map(pending_path()),
    {
        proof {
            model::step(selections@, i as int);
            model::step_filter_map(selections@, i as int, pending_path());
        }
        let selection = &selections[i];
        let ghost start = copy_views(copies@);
        let files = &selection.files;
        assert(files@.take(0) =~= Seq::empty());
        for j in 0..files.len()
            invariant
                copy_views(copies@) == with_sources(start, files@.take(j as int)),
        {
            proof {
                model::step(files@, j as int);
            }
            push_source(&mut copies, &files[j]);
        }
        proof {
            model::whole(files@);
        }
        if files.len() == 0 {
            pending.push(selection.path.clone());
        }
    }
    proof {
        model::whole(selections@);
    }
    let ghost start = copy_views(copies@);
    let ghost keep = is_local_source();
    proof {
        model::start_filter(ignored@, keep);
    }
    for i in 0..ignored.len()
        invariant
            keep == is_local_source(),
            copy_views(copies@) == with_sources(start, ignored@.take(i as int).filter(keep)),
    {
        proof {
            model::step_filter(ignored@, i as int, keep);
            let before = ignored@.take(i as int).filter(keep);
            assert(before.push(ignored@[i as int]).drop_last() =~= before);
        }
        if is_local_file(&ignored[i].path) {
            push_source(&mut copies, &ignored[i]);
        }
    }
    proof {
        model::whole(ignored@);
    }
    CopyPlan { copies, pending }
}

/// The configured paths that are still missing after setup.
pub fn complete(selections: &Vec<Selection>) -> (r: Vec<String>)
    ensures
        model::views(r@) == selections@.filter_map(pending_path()),
{
    let nothing: Vec<Source> = Vec::new();
    plan_copies(selections, &nothing).pending
}

} // verus!
