//! What may be wrong with a worktree.

use vstd::prelude::*;

use crate::detection;
use crate::model;
use crate::paths;
use crate::process;
use crate::process::Output;
use crate::state;
use crate::state::{Record, RecordData};
use crate::text;
use crate::ui::Screen;

verus! {

broadcast use crate::model::lemma_views_push;

/// Something that may be wrong, with details and what to do about it.
pub struct Finding {
    pub title: String,
    pub details: Vec<String>,
    pub hint: Option<String>,
}

#[verifier::ext_equal]
pub ghost struct FindingData {
    pub title: Seq<char>,
    pub details: Seq<Seq<char>>,
    pub hint: Option<Seq<char>>,
}

impl View for Finding {
    type V = FindingData;

    open spec fn view(&self) -> FindingData {
        FindingData {
            title: self.title@,
            details: model::views(self.details@),
            hint: model::opt(self.hint),
        }
    }
}

pub open spec fn finding_views(list: Seq<Finding>) -> Seq<FindingData> {
    list.map_values(|f: Finding| f@)
}

// ---------------------------------------------------------------------------
// Which worktree
// ---------------------------------------------------------------------------

/// The main checkout, which the common directory of Git lies in.
pub fn checkout_of(common: &str) -> (r: Result<String, String>)
    ensures
        model::outcome(r) == match paths::parent_of(common@) {
            Some(parent) => Ok::<Seq<char>, Seq<char>>(parent),
            None => Err("git common directory has no parent"@),
        },
{
    match paths::parent(common) {
        Some(parent) => Ok(parent),
        None => Err("git common directory has no parent".to_owned()),
    }
}

/// Refuses the main checkout.
pub fn ensure_worktree(worktree: &str, checkout: &str) -> (r: Result<(), String>)
    ensures
        model::outcome(r) == if paths::same_path(worktree@, checkout@) {
            Err::<(), Seq<char>>("run wt doctor inside a worktree created by wt, not in the main checkout"@)
        } else {
            Ok(())
        },
{
    if paths::same(worktree, checkout) {
        Err("run wt doctor inside a worktree created by wt, not in the main checkout".to_owned())
    } else {
        Ok(())
    }
}

/// Whether two paths lead to the same place: by what they resolve to, where both do.
pub open spec fn same_place(
    recorded: Seq<char>,
    resolved: Option<Seq<char>>,
    current: Seq<char>,
    current_resolved: Option<Seq<char>>,
) -> bool {
    match (resolved, current_resolved) {
        (Some(a), Some(b)) => paths::same_path(a, b),
        _ => paths::same_path(recorded, current),
    }
}

pub fn same_path(recorded: &str, resolved: &Option<String>, current: &str, current_resolved: &Option<String>) -> (r: bool)
    ensures
        r == same_place(recorded@, model::opt(*resolved), current@, model::opt(*current_resolved)),
{
    match (resolved, current_resolved) {
        (Some(a), Some(b)) => paths::same(a, b),
        _ => paths::same(recorded, current),
    }
}

/// The records with what their paths resolve to.
pub open spec fn resolved_records(records: Seq<Record>, resolved: Seq<Option<String>>) -> Seq<
    (RecordData, Option<Seq<char>>),
> {
    Seq::new(records.len(), |i: int| (records[i]@, model::opt(resolved[i])))
}

/// The record of a repository's worktree at this place.
pub open spec fn recorded_here(
    repository: Seq<char>,
    worktree: Seq<char>,
    worktree_resolved: Option<Seq<char>>,
) -> spec_fn((RecordData, Option<Seq<char>>)) -> Option<RecordData> {
    |r: (RecordData, Option<Seq<char>>)|
        if text::same_ignoring_case(r.0.repository, repository) && same_place(
            r.0.path,
            r.1,
            worktree,
            worktree_resolved,
        ) {
            Some(r.0)
        } else {
            None
        }
}

/// The record of the current worktree, given what the paths of the records resolve to.
pub fn own_record(
    records: &Vec<Record>,
    resolved: &Vec<Option<String>>,
    repository: &str,
    worktree: &str,
    worktree_resolved: &Option<String>,
) -> (r: Result<Record, String>)
    requires
        records@.len() == resolved@.len(),
    ensures
        model::outcome(r) == match model::first_some(
            resolved_records(records@, resolved@),
            recorded_here(repository@, worktree@, model::opt(*worktree_resolved)),
        ) {
            Some(record) => Ok::<RecordData, Seq<char>>(record),
            None => Err("this worktree was not created by wt"@),
        },
{
    let ghost all = resolved_records(records@, resolved@);
    let ghost f = recorded_here(repository@, worktree@, model::opt(*worktree_resolved));
    for i in 0..records.len()
        invariant
            records@.len() == resolved@.len(),
            all == resolved_records(records@, resolved@),
            f == recorded_here(repository@, worktree@, model::opt(*worktree_resolved)),
            forall|k: int| 0 <= k < i ==> f(#[trigger] all[k]) is None,
    {
        assert(all[i as int] == (records@[i as int]@, model::opt(resolved@[i as int])));
        if text::eq_ignore_ascii_case(&records[i].repository, repository) && same_path(
            &records[i].path,
            &resolved[i],
            worktree,
            worktree_resolved,
        ) {
            proof {
                model::found_some(all, f, i as int);
            }
            return Ok(records[i].clone());
        }
    }
    proof {
        model::found_none(all, f);
    }
    Err("this worktree was not created by wt".to_owned())
}

// ---------------------------------------------------------------------------
// Private files
// ---------------------------------------------------------------------------

/// Whether a directory is generated or cached in any checkout and never worth copying.
pub open spec fn is_noise_directory(c: Seq<char>) -> bool {
    c == ".cache"@ || c == ".devbox"@ || c == ".direnv"@ || c == ".git"@ || c == ".idea"@ || c == ".next"@ || c
        == ".pytest_cache"@ || c == ".ruff_cache"@ || c == ".turbo"@ || c == ".venv"@ || c == ".vscode"@ || c
        == ".wt-trash"@ || c == "__pycache__"@ || c == "build"@ || c == "coverage"@ || c == "dist"@ || c
        == "node_modules"@ || c == "target"@ || c == "tmp"@ || c == "vendor"@
}

fn noise_directory(c: &str) -> (r: bool)
    ensures
        r == is_noise_directory(c@),
{
    text::same(c, ".cache") || text::same(c, ".devbox") || text::same(c, ".direnv") || text::same(c, ".git")
        || text::same(c, ".idea") || text::same(c, ".next") || text::same(c, ".pytest_cache") || text::same(
        c,
        ".ruff_cache",
    ) || text::same(c, ".turbo") || text::same(c, ".venv") || text::same(c, ".vscode") || text::same(c, ".wt-trash")
        || text::same(c, "__pycache__") || text::same(c, "build") || text::same(c, "coverage") || text::same(
        c,
        "dist",
    ) || text::same(c, "node_modules") || text::same(c, "target") || text::same(c, "tmp") || text::same(c, "vendor")
}

/// Whether a file is generated, by its name.
pub open spec fn is_noise_file(name: Seq<char>) -> bool {
    name == ".DS_Store"@ || name == ".wt.env"@ || name == "Thumbs.db"@ || ".cache"@.is_prefix_of(name)
        || "coverage"@.is_prefix_of(name)
}

/// Whether a file is generated, by its extension.
pub open spec fn is_noise_extension(e: Seq<char>) -> bool {
    e == "bak"@ || e == "html"@ || e == "log"@ || e == "orig"@ || e == "out"@ || e == "pid"@ || e == "swp"@ || e
        == "tmp"@ || e == "tsbuildinfo"@
}

/// Whether a path is generated or cached in any checkout.
pub open spec fn noise(path: Seq<char>) -> bool {
    let parts = paths::components(path);
    ||| exists|i: int| 0 <= i < parts.len() && is_noise_directory(#[trigger] parts[i])
    ||| parts.len() == 0
    ||| is_noise_file(parts.last())
    ||| paths::extension_of(path) matches Some(e) && is_noise_extension(e)
}

pub fn is_noise(path: &str) -> (r: bool)
    ensures
        r == noise(path@),
{
    let parts = paths::components_of(path);
    let ghost all = paths::components(path@);
    for i in 0..parts.len()
        invariant
            all == model::views(parts@),
            all == paths::components(path@),
            forall|k: int| 0 <= k < i ==> !is_noise_directory(#[trigger] all[k]),
    {
        assert(all[i as int] == parts@[i as int]@);
        if noise_directory(&parts[i]) {
            return true;
        }
    }
    if parts.len() == 0 {
        return true;
    }
    let name = parts[parts.len() - 1].as_str();
    assert(all.last() == name@);
    if text::same(name, ".DS_Store") || text::same(name, ".wt.env") || text::same(name, "Thumbs.db")
        || text::starts_with(name, ".cache") || text::starts_with(name, "coverage") {
        return true;
    }
    match paths::extension(path) {
        Some(extension) => {
            let e = extension.as_str();
            text::same(e, "bak") || text::same(e, "html") || text::same(e, "log") || text::same(e, "orig")
                || text::same(e, "out") || text::same(e, "pid") || text::same(e, "swp") || text::same(e, "tmp")
                || text::same(e, "tsbuildinfo")
        },
        None => false,
    }
}

/// Whether a name suggests configuration, such as certificates.
pub open spec fn suggests_configuration(path: Seq<char>) -> bool {
    let name = match paths::name_of(path) {
        Some(name) => text::lower_text(name),
        None => Seq::empty(),
    };
    text::has_part(name, "cert"@) || text::has_part(name, "ssl"@) || text::has_part(name, "tls"@) || text::has_part(
        name,
        "key"@,
    ) || text::has_part(name, "secret"@) || text::has_part(name, "credential"@) || text::has_part(name, "config"@)
        || text::has_part(name, "env"@)
}

pub fn looks_like_configuration(path: &str) -> (r: bool)
    ensures
        r == suggests_configuration(path@),
{
    let name = match paths::file_name(path) {
        Some(name) => text::to_ascii_lowercase(&name),
        None => {
            let none = String::new();
            assert(none@ =~= Seq::<char>::empty());
            none
        },
    };
    text::contains(&name, "cert") || text::contains(&name, "ssl") || text::contains(&name, "tls") || text::contains(
        &name,
        "key",
    ) || text::contains(&name, "secret") || text::contains(&name, "credential") || text::contains(&name, "config")
        || text::contains(&name, "env")
}

/// Executables without an extension are compiled binaries, not configuration.
pub fn is_build_output(path: &str, executables: &Vec<String>) -> (r: bool)
    ensures
        r == built(path@, model::views(executables@)),
{
    match paths::extension(path) {
        Some(_) => false,
        None => paths::list_contains(executables, path),
    }
}

pub open spec fn built(path: Seq<char>, executables: Seq<Seq<char>>) -> bool {
    paths::extension_of(path) is None && paths::listed(executables, path)
}

pub fn is_disposable(path: &str, record: &Record) -> (r: bool)
    ensures
        r == paths::covered(record@.disposable, path@),
{
    paths::list_covers(&record.disposable, path)
}

/// The path that an entry of a listing stands for; directories end with a separator there.
pub fn entry_path(entry: &str) -> (r: String)
    ensures
        r@ == text::trimmed_end_of(entry@, "/"@),
{
    text::trim_end_matches(entry, "/")
}

/// Whether an ignored entry of the main checkout is missing from a worktree and worth copying.
/// Wholly ignored directories are mostly build output or uploads; only those whose names suggest
/// configuration count.
pub open spec fn missing_entry(
    record: RecordData,
    executables: Seq<Seq<char>>,
    present: Seq<Seq<char>>,
) -> spec_fn(Seq<char>) -> bool {
    |entry: Seq<char>|
        {
            let directory = "/"@.is_suffix_of(entry);
            let path = text::trimmed_end_of(entry, "/"@);
            &&& !noise(path)
            &&& !paths::covered(record.disposable, path)
            &&& directory ==> suggests_configuration(path)
            &&& !directory ==> !built(path, executables)
            &&& !paths::listed(present, path)
        }
}

pub open spec fn deleted_copy(present: Seq<Seq<char>>) -> spec_fn((Seq<char>, Seq<char>)) -> Option<Seq<char>> {
    |copy: (Seq<char>, Seq<char>)|
        if paths::listed(present, copy.0) {
            None
        } else {
            Some(copy.0)
        }
}

/// A finding about a list, where there is anything on it.
pub open spec fn counted(list: Seq<Seq<char>>, title: Seq<char>, hint: Seq<char>) -> Seq<FindingData> {
    if list.len() == 0 {
        Seq::empty()
    } else {
        seq![FindingData { title: text::decimal(list.len()) + title, details: list, hint: Some(hint) }]
    }
}

fn add_counted(findings: &mut Vec<Finding>, list: Vec<String>, title: &str, hint: &str)
    ensures
        finding_views(final(findings)@) == finding_views(old(findings)@) + counted(
            model::views(list@),
            title@,
            hint@,
        ),
{
    let ghost before = finding_views(findings@);
    assert(model::views(list@).len() == list@.len());
    if list.len() == 0 {
        assert(before + Seq::<FindingData>::empty() =~= before);
        return;
    }
    let count = text::to_decimal_wide(list.len() as u128);
    let finding = Finding { title: text::concat(&count, title), details: list, hint: Some(hint.to_owned()) };
    let ghost added = finding@;
    findings.push(finding);
    assert(finding_views(findings@) =~= before.push(added));
    assert(before.push(added) =~= before + seq![added]);
}

/// What is wrong with the private files of a worktree: ignored files of the main checkout that it
/// lacks, and managed files that were deleted from it.
pub open spec fn private_findings(
    record: RecordData,
    output: Output,
    executables: Seq<Seq<char>>,
    present: Seq<Seq<char>>,
) -> Result<Seq<FindingData>, Seq<char>> {
    match detection::listed_by(output) {
        Err(message) => Err(process::in_context("list ignored files in the main checkout"@, message)),
        Ok(entries) => Ok(
            counted(
                entries.filter(missing_entry(record, executables, present)),
                " ignored file(s) of the main checkout are missing here"@,
                "add `copy = <path>` to .wtconfig or copy them by hand"@,
            ) + counted(
                record.copied_files.filter_map(deleted_copy(present)),
                " managed file(s) were deleted from this worktree"@,
                "copy them again from the main checkout"@,
            ),
        ),
    }
}

pub open spec fn outcome_findings(r: Result<Vec<Finding>, String>) -> Result<Seq<FindingData>, Seq<char>> {
    match r {
        Ok(list) => Ok(finding_views(list@)),
        Err(message) => Err(message@),
    }
}

/// Checks private files, given the ignored entries of the main checkout, which of them are
/// executable files there, and which paths exist in the worktree.
pub fn check_private_files(
    record: &Record,
    output: &Output,
    executables: &Vec<String>,
    present: &Vec<String>,
) -> (r: Result<Vec<Finding>, String>)
    ensures
        outcome_findings(r) == private_findings(
            record@,
            *output,
            model::views(executables@),
            model::views(present@),
        ),
{
    let entries = match detection::listed_paths(output) {
        Ok(entries) => entries,
        Err(message) => {
            return Err(process::with_context("list ignored files in the main checkout", &message));
        },
    };
    let ghost all = model::views(entries@);
    let ghost keep = missing_entry(record@, model::views(executables@), model::views(present@));
    let mut missing: Vec<String> = Vec::new();
    proof {
        model::start_filter(all, keep);
    }
    for i in 0..entries.len()
        invariant
            all == model::views(entries@),
            keep == missing_entry(record@, model::views(executables@), model::views(present@)),
            model::views(missing@) == all.take(i as int).filter(keep),
    {
        proof {
            model::step_filter(all, i as int, keep);
            assert(all[i as int] == entries@[i as int]@);
        }
        let entry = entries[i].as_str();
        let directory = text::ends_with(entry, "/");
        let path = entry_path(entry);
        if !is_noise(&path) && !is_disposable(&path, record) && (!directory || looks_like_configuration(&path)) && (
        directory || !is_build_output(&path, executables)) && !paths::list_contains(present, &path) {
            missing.push(entry.to_owned());
        }
    }
    proof {
        model::whole(all);
    }
    let ghost copies = record@.copied_files;
    let ghost gone = deleted_copy(model::views(present@));
    let mut lost: Vec<String> = Vec::new();
    proof {
        model::start_filter_map(copies, gone);
    }
    for i in 0..record.copied_files.len()
        invariant
            copies == record@.copied_files,
            gone == deleted_copy(model::views(present@)),
            model::views(lost@) == copies.take(i as int).filter_map(gone),
    {
        proof {
            model::step_filter_map(copies, i as int, gone);
            assert(copies[i as int] == (record.copied_files@[i as int].0@, record.copied_files@[i as int].1@));
        }
        if !paths::list_contains(present, &record.copied_files[i].0) {
            lost.push(record.copied_files[i].0.clone());
        }
    }
    proof {
        model::whole(copies);
    }
    let mut findings: Vec<Finding> = Vec::new();
    assert(finding_views(findings@) =~= Seq::empty());
    add_counted(
        &mut findings,
        missing,
        " ignored file(s) of the main checkout are missing here",
        "add `copy = <path>` to .wtconfig or copy them by hand",
    );
    add_counted(
        &mut findings,
        lost,
        " managed file(s) were deleted from this worktree",
        "copy them again from the main checkout",
    );
    assert(finding_views(findings@) =~= private_findings(
        record@,
        *output,
        model::views(executables@),
        model::views(present@),
    )->Ok_0);
    Ok(findings)
}

// ---------------------------------------------------------------------------
// direnv and ports
// ---------------------------------------------------------------------------

/// Whether direnv was asked and did not allow the environment of a worktree.
pub open spec fn direnv_findings(envrc: bool, allowed: Option<bool>) -> Seq<FindingData> {
    if envrc && allowed == Some(false) {
        seq![
            FindingData {
                title: "direnv has not allowed .envrc, so leased ports in .wt.env are not loaded"@,
                details: Seq::empty(),
                hint: Some("run: direnv allow"@),
            },
        ]
    } else {
        Seq::empty()
    }
}

pub fn check_direnv(envrc: bool, allowed: Option<bool>) -> (r: Vec<Finding>)
    ensures
        finding_views(r@) == direnv_findings(envrc, allowed),
{
    let refused = match allowed {
        Some(allowed) => !allowed,
        None => false,
    };
    let mut findings: Vec<Finding> = Vec::new();
    if envrc && refused {
        let details: Vec<String> = Vec::new();
        assert(model::views(details@) =~= Seq::empty());
        findings.push(
            Finding {
                title: "direnv has not allowed .envrc, so leased ports in .wt.env are not loaded".to_owned(),
                details,
                hint: Some("run: direnv allow".to_owned()),
            },
        );
    }
    assert(finding_views(findings@) =~= direnv_findings(envrc, allowed));
    findings
}

pub open spec fn value_under(key: Seq<char>) -> spec_fn((Seq<char>, Seq<char>)) -> Option<Seq<char>> {
    |v: (Seq<char>, Seq<char>)|
        if v.0 == key {
            Some(v.1)
        } else {
            None
        }
}

pub open spec fn port_under(key: Seq<char>) -> spec_fn((Seq<char>, u16)) -> Option<u16> {
    |p: (Seq<char>, u16)|
        if p.0 == key {
            Some(p.1)
        } else {
            None
        }
}

pub open spec fn shadowed(key: Seq<char>, value: Seq<char>, place: Seq<char>, port: u16) -> Seq<char> {
    key + "="@ + value + place + " (worktree: "@ + text::decimal(port as nat) + ")"@
}

fn shadowed_line(key: &str, value: &str, place: &str, port: u16) -> (r: String)
    ensures
        r@ == shadowed(key@, value@, place@, port),
{
    let mut line = text::concat3(key, "=", value);
    line.append(place);
    line.append(" (worktree: ");
    line.append(&text::to_decimal(port as u64));
    line.append(")");
    line
}

/// A leased port whose variable has another value in the shell.
pub open spec fn shadowed_by_shell(shell: Seq<(Seq<char>, Seq<char>)>) -> spec_fn((Seq<char>, u16)) -> Option<Seq<char>> {
    |p: (Seq<char>, u16)|
        match model::first_some(shell, value_under(p.0)) {
            Some(value) => if value == text::decimal(p.1 as nat) {
                None
            } else {
                Some(shadowed(p.0, value, " in this shell"@, p.1))
            },
            None => None,
        }
}

pub open spec fn export_views(list: Seq<(String, Option<String>)>) -> Seq<(Seq<char>, Option<Seq<char>>)> {
    list.map_values(|p: (String, Option<String>)| (p.0@, model::opt(p.1)))
}

/// The members of a JSON object of texts and nulls, by their keys in order, as `serde_json` reads
/// them; nothing where the bytes hold no such object.
pub uninterp spec fn exports_in(bytes: Seq<u8>) -> Option<Seq<(Seq<char>, Option<Seq<char>>)>>;

/// Reads a map of optional texts with `serde_json::from_slice`. The result is named: it is a
/// function of the bytes, and an error exactly where the name has no value. The grammar of JSON is
/// left unsaid.
#[verifier::external_body]
fn parse_exports(bytes: &Vec<u8>) -> (r: Result<Vec<(String, Option<String>)>, serde_json::Error>)
    ensures
        match exports_in(bytes@) {
            Some(list) => r matches Ok(members) && export_views(members@) == list,
            None => r is Err,
        },
{
    let members: std::collections::BTreeMap<String, Option<String>> = serde_json::from_slice(bytes)?;
    Ok(members.into_iter().collect())
}

/// A variable that is set; those that `.envrc` unsets have no value.
pub open spec fn exported() -> spec_fn((Seq<char>, Option<Seq<char>>)) -> Option<(Seq<char>, Seq<char>)> {
    |member: (Seq<char>, Option<Seq<char>>)|
        match member.1 {
            Some(value) => Some((member.0, value)),
            None => None,
        }
}

/// The variables that are set among those that direnv lists.
pub fn exported_variables(members: Vec<(String, Option<String>)>) -> (r: Vec<(String, String)>)
    ensures
        model::pairs(r@) == export_views(members@).filter_map(exported()),
{
    let ghost all = export_views(members@);
    let mut out: Vec<(String, String)> = Vec::new();
    proof {
        model::start_filter_map(all, exported());
    }
    for i in 0..members.len()
        invariant
            all == export_views(members@),
            model::pairs(out@) == all.take(i as int).filter_map(exported()),
    {
        proof {
            model::step_filter_map(all, i as int, exported());
            assert(all[i as int] == (members@[i as int].0@, model::opt(members@[i as int].1)));
        }
        let ghost before = out@;
        match &members[i].1 {
            Some(value) => {
                out.push((members[i].0.clone(), value.clone()));
                assert(model::pairs(out@) =~= model::pairs(before).push((members@[i as int].0@, value@)));
            },
            None => {},
        }
    }
    proof {
        model::whole(all);
    }
    out
}

/// The variables that `.envrc` exports, by what `direnv export json` printed: none where direnv
/// failed or printed nothing.
pub fn direnv_exports(output: &Output) -> (r: Result<Vec<(String, String)>, String>)
    ensures
        !output.success() || output.stdout@.len() == 0 ==> r is Ok && model::pairs(r->Ok_0@) == Seq::<
            (Seq<char>, Seq<char>),
        >::empty(),
        output.success() && output.stdout@.len() > 0 ==> match exports_in(output.stdout@) {
            Some(list) => r is Ok && model::pairs(r->Ok_0@) == list.filter_map(exported()),
            None => r is Err && r->Err_0@ == "parse direnv export"@,
        },
{
    if !output.succeeded() || output.stdout.len() == 0 {
        let none: Vec<(String, String)> = Vec::new();
        assert(model::pairs(none@) =~= Seq::empty());
        return Ok(none);
    }
    match parse_exports(&output.stdout) {
        Ok(members) => Ok(exported_variables(members)),
        Err(_) => Err("parse direnv export".to_owned()),
    }
}

/// A variable that direnv sets to another value than the leased port.
pub open spec fn shadowed_by_envrc(ports: Seq<(Seq<char>, u16)>) -> spec_fn((Seq<char>, Seq<char>)) -> Option<
    Seq<char>,
> {
    |v: (Seq<char>, Seq<char>)|
        match model::first_some(ports, port_under(v.0)) {
            Some(port) => if v.1 == text::decimal(port as nat) {
                None
            } else {
                Some(shadowed(v.0, v.1, " from .envrc"@, port))
            },
            None => None,
        }
}

/// Ports leased for a worktree that the shell or `.envrc` overrides.
pub open spec fn port_findings(
    ports: Seq<(Seq<char>, u16)>,
    shell: Seq<(Seq<char>, Seq<char>)>,
    envrc: bool,
    allowed: Option<bool>,
    exports: Seq<(Seq<char>, Seq<char>)>,
) -> Seq<FindingData> {
    let in_shell = ports.filter_map(shadowed_by_shell(shell));
    let in_envrc = if envrc && allowed == Some(true) {
        exports.filter_map(shadowed_by_envrc(ports))
    } else {
        Seq::empty()
    };
    counted(
        in_shell + in_envrc,
        " leased port(s) are shadowed by the environment"@,
        "remove port values from user-wide env files, or load .wt.env last in .envrc"@,
    )
}

fn shell_value(shell: &Vec<(String, String)>, key: &str) -> (r: Option<String>)
    ensures
        model::opt(r) == model::first_some(model::pairs(shell@), value_under(key@)),
{
    let ghost all = model::pairs(shell@);
    let ghost f = value_under(key@);
    for i in 0..shell.len()
        invariant
            all == model::pairs(shell@),
            f == value_under(key@),
            forall|k: int| 0 <= k < i ==> f(#[trigger] all[k]) is None,
    {
        assert(all[i as int] == (shell@[i as int].0@, shell@[i as int].1@));
        if text::same(&shell[i].0, key) {
            proof {
                model::found_some(all, f, i as int);
            }
            return Some(shell[i].1.clone());
        }
    }
    proof {
        model::found_none(all, f);
    }
    None
}

fn leased_port(ports: &Vec<(String, u16)>, key: &str) -> (r: Option<u16>)
    ensures
        r == model::first_some(state::port_views(ports@), port_under(key@)),
{
    let ghost all = state::port_views(ports@);
    let ghost f = port_under(key@);
    for i in 0..ports.len()
        invariant
            all == state::port_views(ports@),
            f == port_under(key@),
            forall|k: int| 0 <= k < i ==> f(#[trigger] all[k]) is None,
    {
        assert(all[i as int] == (ports@[i as int].0@, ports@[i as int].1));
        if text::same(&ports[i].0, key) {
            proof {
                model::found_some(all, f, i as int);
            }
            return Some(ports[i].1);
        }
    }
    proof {
        model::found_none(all, f);
    }
    None
}

/// Checks whether leased ports are overridden. Docker Compose and most tools prefer the
/// environment over env files, so a user-wide value silently points a worktree at the ports of
/// another checkout.
pub fn check_shadowed_ports(
    record: &Record,
    shell: &Vec<(String, String)>,
    envrc: bool,
    allowed: Option<bool>,
    exports: &Vec<(String, String)>,
) -> (r: Vec<Finding>)
    ensures
        finding_views(r@) == port_findings(
            record@.ports,
            model::pairs(shell@),
            envrc,
            allowed,
            model::pairs(exports@),
        ),
{
    let ghost ports = record@.ports;
    let ghost by_shell = shadowed_by_shell(model::pairs(shell@));
    let mut lines: Vec<String> = Vec::new();
    proof {
        model::start_filter_map(ports, by_shell);
    }
    for i in 0..record.ports.len()
        invariant
            ports == record@.ports,
            by_shell == shadowed_by_shell(model::pairs(shell@)),
            model::views(lines@) == ports.take(i as int).filter_map(by_shell),
    {
        let key = record.ports[i].0.as_str();
        let port: u16 = record.ports[i].1;
        proof {
            model::step_filter_map(ports, i as int, by_shell);
            assert(ports[i as int] == (key@, port));
        }
        match shell_value(shell, key) {
            Some(value) => {
                if !text::same(&value, &text::to_decimal(port as u64)) {
                    lines.push(shadowed_line(key, &value, " in this shell", port));
                }
            },
            None => {},
        }
    }
    proof {
        model::whole(ports);
    }
    let ghost in_shell = model::views(lines@);
    let evaluated = match allowed {
        Some(allowed) => envrc && allowed,
        None => false,
    };
    if evaluated {
        let ghost all = model::pairs(exports@);
        let ghost by_envrc = shadowed_by_envrc(ports);
        proof {
            model::start_filter_map(all, by_envrc);
            assert(in_shell + Seq::<Seq<char>>::empty() =~= in_shell);
        }
        for i in 0..exports.len()
            invariant
                ports == record@.ports,
                all == model::pairs(exports@),
                by_envrc == shadowed_by_envrc(ports),
                model::views(lines@) == in_shell + all.take(i as int).filter_map(by_envrc),
        {
            let ghost before = all.take(i as int).filter_map(by_envrc);
            proof {
                model::step_filter_map(all, i as int, by_envrc);
                assert(all[i as int] == (exports@[i as int].0@, exports@[i as int].1@));
            }
            match leased_port(&record.ports, &exports[i].0) {
                Some(port) => {
                    if !text::same(&exports[i].1, &text::to_decimal(port as u64)) {
                        let line = shadowed_line(&exports[i].0, &exports[i].1, " from .envrc", port);
                        assert(in_shell + before.push(line@) =~= (in_shell + before).push(line@));
                        lines.push(line);
                    }
                },
                None => {},
            }
        }
        proof {
            model::whole(all);
        }
    } else {
        assert(in_shell + Seq::<Seq<char>>::empty() =~= in_shell);
    }
    let mut findings: Vec<Finding> = Vec::new();
    assert(finding_views(findings@) =~= Seq::empty());
    add_counted(
        &mut findings,
        lines,
        " leased port(s) are shadowed by the environment",
        "remove port values from user-wide env files, or load .wt.env last in .envrc",
    );
    assert(finding_views(findings@) =~= port_findings(
        record@.ports,
        model::pairs(shell@),
        envrc,
        allowed,
        model::pairs(exports@),
    ));
    findings
}

// ---------------------------------------------------------------------------
// The report
// ---------------------------------------------------------------------------

/// How a finding is shown.
pub open spec fn shown(screen: Screen, finding: FindingData) -> Seq<Seq<char>> {
    seq![screen.styled("!"@, 33) + " "@ + finding.title] + finding.details.map_values(
        |line: Seq<char>| "    "@ + line,
    ) + (match finding.hint {
        Some(hint) => seq!["    "@ + screen.styled(hint, 2)],
        None => Seq::empty(),
    })
}

pub open spec fn all_shown(screen: Screen, findings: Seq<FindingData>) -> Seq<Seq<char>>
    decreases findings.len(),
{
    if findings.len() == 0 {
        Seq::empty()
    } else {
        all_shown(screen, findings.drop_last()) + shown(screen, findings.last())
    }
}

/// The lines to print, and how the check ends: it fails where anything was found.
pub fn run(screen: &Screen, findings: &Vec<Finding>) -> (r: (Vec<String>, Result<(), String>))
    ensures
        findings@.len() == 0 ==> model::views(r.0@) == seq!["No problems found."@] && r.1 is Ok,
        findings@.len() > 0 ==> {
            &&& model::views(r.0@) == all_shown(*screen, finding_views(findings@))
            &&& model::outcome(r.1) == Err::<(), Seq<char>>(
                text::decimal(findings@.len()) + " problem(s) found"@,
            )
        },
{
    let mut lines: Vec<String> = Vec::new();
    if findings.len() == 0 {
        lines.push("No problems found.".to_owned());
        assert(model::views(lines@) =~= seq!["No problems found."@]);
        return (lines, Ok(()));
    }
    let ghost all = finding_views(findings@);
    assert(all.take(0) =~= Seq::empty());
    assert(model::views(lines@) =~= Seq::empty());
    for i in 0..findings.len()
        invariant
            all == finding_views(findings@),
            model::views(lines@) == all_shown(*screen, all.take(i as int)),
    {
        proof {
            model::step(all, i as int);
            assert(all[i as int] == findings@[i as int]@);
        }
        let ghost before = model::views(lines@);
        let details = &findings[i].details;
        let ghost first = screen.styled("!"@, 33) + " "@ + findings@[i as int].title@;
        let ghost shown_details = model::views(details@).map_values(|line: Seq<char>| "    "@ + line);
        lines.push(text::concat3(&screen.style("!", 33), " ", &findings[i].title));
        assert(before.push(first) =~= before + seq![first] + shown_details.take(0));
        for j in 0..details.len()
            invariant
                shown_details == model::views(details@).map_values(|line: Seq<char>| "    "@ + line),
                model::views(lines@) == before + seq![first] + shown_details.take(j as int),
        {
            proof {
                model::step(shown_details, j as int);
                assert(model::views(details@)[j as int] == details@[j as int]@);
                assert(before + seq![first] + shown_details.take(j + 1) =~= (before + seq![first]
                    + shown_details.take(j as int)).push(shown_details[j as int]));
            }
            lines.push(text::concat("    ", &details[j]));
        }
        proof {
            model::whole(shown_details);
        }
        match &findings[i].hint {
            Some(hint) => {
                lines.push(text::concat("    ", &screen.style(hint, 2)));
            },
            None => {},
        }
        assert(model::views(lines@) =~= before + shown(*screen, all[i as int]));
    }
    proof {
        model::whole(all);
    }
    let count = text::to_decimal_wide(findings.len() as u128);
    (lines, Err(text::concat(&count, " problem(s) found")))
}

// ---------------------------------------------------------------------------
// What is found
// ---------------------------------------------------------------------------

/// A worktree's own record is the first of its repository that stands for the same place: by where
/// both paths lead, or by the paths as written where that is not known of both.
pub proof fn the_own_record_is_found(
    records: Seq<Record>,
    resolved: Seq<Option<String>>,
    repository: Seq<char>,
    worktree: Seq<char>,
    worktree_resolved: Option<Seq<char>>,
    k: int,
)
    requires
        records.len() == resolved.len(),
        0 <= k < records.len(),
        text::lower_text(records[k]@.repository) == text::lower_text(repository),
        ({
            ||| resolved[k] matches Some(a) && (worktree_resolved matches Some(b) && paths::same_path(a@, b))
            ||| (resolved[k] is None || worktree_resolved is None) && paths::same_path(records[k]@.path, worktree)
        }),
    ensures
        model::first_some(
            resolved_records(records, resolved),
            recorded_here(repository, worktree, worktree_resolved),
        ) matches Some(found) && text::lower_text(found.repository) == text::lower_text(repository),
        (forall|i: int|
            0 <= i < k ==> text::lower_text((#[trigger] records[i])@.repository) != text::lower_text(repository))
            ==> model::first_some(
            resolved_records(records, resolved),
            recorded_here(repository, worktree, worktree_resolved),
        ) == Some(records[k]@),
{
    let all = resolved_records(records, resolved);
    let f = recorded_here(repository, worktree, worktree_resolved);
    assert(all[k] == (records[k]@, model::opt(resolved[k])));
    assert(f(all[k]) == Some(records[k]@));
    lemma_found_from(all, f);
    if model::first_some(all, f) is None {
        model::none_found(all, f, k);
    }
    if forall|i: int|
        0 <= i < k ==> text::lower_text((#[trigger] records[i])@.repository) != text::lower_text(repository) {
        assert forall|i: int| 0 <= i < k implies f(#[trigger] all[i]) is None by {
            assert(text::lower_text(records[i]@.repository) != text::lower_text(repository));
        }
        model::found_some(all, f, k);
    }
}

proof fn lemma_found_from<A, B>(s: Seq<A>, f: spec_fn(A) -> Option<B>)
    ensures
        model::first_some(s, f) matches Some(b) ==> exists|i: int| 0 <= i < s.len() && f(#[trigger] s[i]) == Some(b),
    decreases s.len(),
{
    if s.len() > 0 && f(s[0]) is None {
        lemma_found_from(s.drop_first(), f);
        if model::first_some(s, f) is Some {
            let b = model::first_some(s, f)->0;
            let rest = s.drop_first();
            let i = choose|i: int| 0 <= i < rest.len() && f(#[trigger] rest[i]) == Some(b);
            assert(s[i + 1] == rest[i]);
        }
    }
}

/// What lies in a directory of generated or private files is no finding, at any depth.
pub proof fn generated_directories_are_noise(path: Seq<char>, i: int)
    requires
        0 <= i < paths::components(path).len(),
        ({
            let c = paths::components(path)[i];
            ||| c == ".cache"@ || c == ".devbox"@ || c == ".direnv"@ || c == ".git"@ || c == ".idea"@
            ||| c == ".next"@ || c == ".pytest_cache"@ || c == ".ruff_cache"@ || c == ".turbo"@ || c == ".venv"@
            ||| c == ".vscode"@ || c == ".wt-trash"@ || c == "__pycache__"@ || c == "build"@ || c == "coverage"@
            ||| c == "dist"@ || c == "node_modules"@ || c == "target"@ || c == "tmp"@ || c == "vendor"@
        }),
    ensures
        noise(path),
{
    assert(is_noise_directory(paths::components(path)[i]));
}

/// Whether a file name is one that is never missed.
pub open spec fn never_missed(name: Seq<char>) -> bool {
    ||| name == ".DS_Store"@ || name == ".wt.env"@ || name == "Thumbs.db"@
    ||| exists|rest: Seq<char>| name == #[trigger] (".cache"@ + rest)
    ||| exists|rest: Seq<char>| name == #[trigger] ("coverage"@ + rest)
}

/// Below no such directory, a path is no finding exactly where its name is one that is never missed,
/// or its ending is one of a temporary or generated file.
pub proof fn names_and_endings_are_noise(path: Seq<char>)
    requires
        paths::components(path).len() > 0,
        forall|i: int|
            0 <= i < paths::components(path).len() ==> {
                let c = #[trigger] paths::components(path)[i];
                &&& c != ".cache"@ && c != ".devbox"@ && c != ".direnv"@ && c != ".git"@ && c != ".idea"@
                &&& c != ".next"@ && c != ".pytest_cache"@ && c != ".ruff_cache"@ && c != ".turbo"@ && c != ".venv"@
                &&& c != ".vscode"@ && c != ".wt-trash"@ && c != "__pycache__"@ && c != "build"@ && c != "coverage"@
                &&& c != "dist"@ && c != "node_modules"@ && c != "target"@ && c != "tmp"@ && c != "vendor"@
            },
    ensures
        noise(path) <==> never_missed(paths::components(path).last()) || (paths::extension_of(path) matches Some(e) && (e
            == "bak"@ || e == "html"@ || e == "log"@ || e == "orig"@ || e == "out"@ || e == "pid"@ || e == "swp"@ || e
            == "tmp"@ || e == "tsbuildinfo"@)),
{
    let name = paths::components(path).last();
    assert forall|i: int| 0 <= i < paths::components(path).len() implies !is_noise_directory(
        #[trigger] paths::components(path)[i],
    ) by {
        assert(paths::components(path)[i] != ".cache"@);
    }
    lemma_begins(name, ".cache"@);
    lemma_begins(name, "coverage"@);
}

proof fn lemma_begins(name: Seq<char>, start: Seq<char>)
    ensures
        start.is_prefix_of(name) <==> exists|rest: Seq<char>| name == #[trigger] (start + rest),
{
    if start.is_prefix_of(name) {
        assert(name =~= start + name.skip(start.len() as int));
    }
    if exists|rest: Seq<char>| name == #[trigger] (start + rest) {
        let rest = choose|rest: Seq<char>| name == #[trigger] (start + rest);
        assert(name.subrange(0, start.len() as int) =~= start);
    }
}

/// A directory whose name holds a word of configuration is looked for, in large or small letters,
/// whatever stands around the word.
pub proof fn words_suggest_configuration(path: Seq<char>, name: Seq<char>, word: Seq<char>, at: int)
    requires
        paths::name_of(path) == Some(name),
        text::occurs_at(text::lower_text(name), word, at),
        word == "cert"@ || word == "ssl"@ || word == "tls"@ || word == "key"@ || word == "secret"@ || word
            == "credential"@ || word == "config"@ || word == "env"@,
    ensures
        suggests_configuration(path),
{
    assert(text::has_part(text::lower_text(name), word));
}

/// A name without any such word suggests none.
pub proof fn other_names_suggest_no_configuration(path: Seq<char>, name: Seq<char>)
    requires
        paths::name_of(path) == Some(name),
        forall|word: Seq<char>, at: int| #[trigger]
            text::occurs_at(text::lower_text(name), word, at) ==> word != "cert"@ && word != "ssl"@ && word != "tls"@
                && word != "key"@ && word != "secret"@ && word != "credential"@ && word != "config"@ && word != "env"@,
    ensures
        !suggests_configuration(path),
{
    let lower = text::lower_text(name);
    assert forall|word: Seq<char>| #[trigger] text::has_part(lower, word) implies word != "cert"@ && word != "ssl"@
        && word != "tls"@ && word != "key"@ && word != "secret"@ && word != "credential"@ && word != "config"@ && word
        != "env"@ by {
        let at = choose|at: int| text::occurs_at(lower, word, at);
        assert(text::occurs_at(lower, word, at));
    }
}

/// A build output is a file without an extension that may be executed, however its path is spelled.
pub proof fn build_outputs_are_plain_executables(path: Seq<char>, executables: Seq<Seq<char>>)
    ensures
        built(path, executables) <==> paths::extension_of(path) is None && exists|i: int|
            0 <= i < executables.len() && paths::components(#[trigger] executables[i]) == paths::components(path),
{
    if built(path, executables) {
        let i = choose|i: int| 0 <= i < executables.len() && paths::same_path(#[trigger] executables[i], path);
        assert(paths::components(executables[i]) == paths::components(path));
    }
    if exists|i: int|
        0 <= i < executables.len() && paths::components(#[trigger] executables[i]) == paths::components(path) {
        let i = choose|i: int|
            0 <= i < executables.len() && paths::components(#[trigger] executables[i]) == paths::components(path);
        assert(paths::same_path(executables[i], path));
    }
}

/// Variables that direnv would set are kept with their values; those that it would unset are not
/// compared.
pub proof fn set_variables_are_kept(members: Seq<(Seq<char>, Option<Seq<char>>)>, name: Seq<char>, value: Seq<char>)
    ensures
        members.filter_map(exported()).contains((name, value)) <==> members.contains((name, Some(value))),
{
    let f = exported();
    model::filter_map_keeps(members, f);
    if members.contains((name, Some(value))) {
        let k = choose|k: int| 0 <= k < members.len() && members[k] == (name, Some(value));
        assert(f(members[k]) == Some((name, value)));
    }
    if members.filter_map(f).contains((name, value)) {
        let k = choose|k: int| 0 <= k < members.len() && f(#[trigger] members[k]) == Some((name, value));
        assert(members[k] == (name, Some(value)));
    }
}

/// Every ignored file of the main checkout that is no noise, may not be discarded, is no build
/// output and is not here is reported; of directories, those that suggest configuration.
pub proof fn every_missing_file_is_reported(
    record: RecordData,
    output: Output,
    executables: Seq<Seq<char>>,
    present: Seq<Seq<char>>,
    entries: Seq<Seq<char>>,
    k: int,
)
    requires
        detection::listed_by(output) == Ok::<Seq<Seq<char>>, Seq<char>>(entries),
        0 <= k < entries.len(),
        ({
            let path = text::trimmed_end_of(entries[k], "/"@);
            &&& !noise(path)
            &&& forall|i: int|
                0 <= i < record.disposable.len() ==> !paths::lies_in(path, #[trigger] record.disposable[i])
            &&& forall|i: int| 0 <= i < present.len() ==> !paths::same_path(#[trigger] present[i], path)
            &&& if entries[k].len() > 0 && entries[k].last() == '/' {
                suggests_configuration(path)
            } else {
                paths::extension_of(path) is Some || forall|i: int|
                    0 <= i < executables.len() ==> !paths::same_path(#[trigger] executables[i], path)
            }
        }),
    ensures
        private_findings(record, output, executables, present) matches Ok(findings) && findings.len() > 0
            && findings[0].details.contains(entries[k]) && findings[0].title == text::decimal(
            findings[0].details.len(),
        ) + " ignored file(s) of the main checkout are missing here"@,
{
    let keep = missing_entry(record, executables, present);
    let missing = entries.filter(keep);
    lemma_slash(entries[k]);
    model::filter_keeps(entries, keep);
    assert(keep(entries[k]));
    assert(missing.contains(entries[k]));
    assert(missing.len() > 0);
}

proof fn lemma_slash(entry: Seq<char>)
    ensures
        "/"@.is_suffix_of(entry) <==> entry.len() > 0 && entry.last() == '/',
{
    reveal_strlit("/");
    if entry.len() > 0 {
        assert(entry.subrange(entry.len() - 1, entry.len() as int)[0] == entry.last());
        if entry.last() == '/' {
            assert(entry.subrange(entry.len() - 1, entry.len() as int) =~= "/"@);
        }
    }
}

/// Every managed file that is not here any more is reported.
pub proof fn every_deleted_copy_is_reported(
    record: RecordData,
    output: Output,
    executables: Seq<Seq<char>>,
    present: Seq<Seq<char>>,
    k: int,
)
    requires
        detection::listed_by(output) is Ok,
        0 <= k < record.copied_files.len(),
        forall|i: int| 0 <= i < present.len() ==> !paths::same_path(#[trigger] present[i], record.copied_files[k].0),
    ensures
        private_findings(record, output, executables, present) matches Ok(findings) && findings.len() > 0
            && findings.last().details.contains(record.copied_files[k].0) && findings.last().title == text::decimal(
            findings.last().details.len(),
        ) + " managed file(s) were deleted from this worktree"@,
{
    let f = deleted_copy(present);
    model::filter_map_keeps(record.copied_files, f);
    assert(f(record.copied_files[k]) == Some(record.copied_files[k].0));
    let gone = record.copied_files.filter_map(f);
    assert(gone.contains(record.copied_files[k].0));
    assert(gone.len() > 0);
}

/// Only what is missing is reported: where every ignored file and every managed file is here, there
/// is no finding; and what a finding names is either an entry of the main checkout that is not here
/// or a managed file that is not.
pub proof fn only_missing_files_are_reported(
    record: RecordData,
    output: Output,
    executables: Seq<Seq<char>>,
    present: Seq<Seq<char>>,
    entries: Seq<Seq<char>>,
)
    requires
        detection::listed_by(output) == Ok::<Seq<Seq<char>>, Seq<char>>(entries),
    ensures
        private_findings(record, output, executables, present) matches Ok(findings) && forall|i: int, p: Seq<char>|
            0 <= i < findings.len() && #[trigger] findings[i].details.contains(p) ==> {
                ||| entries.contains(p) && !noise(text::trimmed_end_of(p, "/"@)) && forall|j: int|
                    0 <= j < present.len() ==> !paths::same_path(#[trigger] present[j], text::trimmed_end_of(p, "/"@))
                ||| exists|k: int|
                    0 <= k < record.copied_files.len() && (#[trigger] record.copied_files[k]).0 == p && forall|j: int|
                        0 <= j < present.len() ==> !paths::same_path(#[trigger] present[j], p)
            },
{
    let keep = missing_entry(record, executables, present);
    let f = deleted_copy(present);
    let missing = entries.filter(keep);
    let gone = record.copied_files.filter_map(f);
    model::filter_keeps(entries, keep);
    model::filter_map_keeps(record.copied_files, f);
    let findings = private_findings(record, output, executables, present)->Ok_0;
    assert forall|i: int, p: Seq<char>| 0 <= i < findings.len() && #[trigger] findings[i].details.contains(p) implies {
        ||| entries.contains(p) && !noise(text::trimmed_end_of(p, "/"@)) && forall|j: int|
            0 <= j < present.len() ==> !paths::same_path(#[trigger] present[j], text::trimmed_end_of(p, "/"@))
        ||| exists|k: int|
            0 <= k < record.copied_files.len() && (#[trigger] record.copied_files[k]).0 == p && forall|j: int|
                0 <= j < present.len() ==> !paths::same_path(#[trigger] present[j], p)
    } by {
        if findings[i].details == missing {
            assert(missing.contains(p));
            assert(keep(p));
        } else {
            assert(findings[i].details == gone);
            assert(gone.contains(p));
            let k = choose|k: int|
                0 <= k < record.copied_files.len() && f(#[trigger] record.copied_files[k]) == Some(p);
            assert(record.copied_files[k].0 == p);
        }
    }
}

/// Every leased port that this shell has under its own name with another value is reported, and none
/// that it has with the leased value or not at all.
pub proof fn every_port_of_the_shell_is_compared(shell: Seq<(Seq<char>, Seq<char>)>, port: (Seq<char>, u16), k: int)
    requires
        0 <= k < shell.len(),
        shell[k].0 == port.0,
        forall|i: int| 0 <= i < k ==> (#[trigger] shell[i]).0 != port.0,
    ensures
        shadowed_by_shell(shell)(port) is None <==> shell[k].1 == text::decimal(port.1 as nat),
        shadowed_by_shell(shell)(port) matches Some(line) ==> line == port.0 + "="@ + shell[k].1 + " in this shell"@
            + " (worktree: "@ + text::decimal(port.1 as nat) + ")"@,
{
    let f = value_under(port.0);
    assert forall|i: int| 0 <= i < k implies f(#[trigger] shell[i]) is None by {
        assert(shell[i].0 != port.0);
    }
    model::found_some(shell, f, k);
}

/// A variable that this shell does not have shadows nothing.
pub proof fn absent_variables_shadow_nothing(shell: Seq<(Seq<char>, Seq<char>)>, port: (Seq<char>, u16))
    requires
        forall|i: int| 0 <= i < shell.len() ==> (#[trigger] shell[i]).0 != port.0,
    ensures
        shadowed_by_shell(shell)(port) is None,
{
    let f = value_under(port.0);
    assert forall|i: int| 0 <= i < shell.len() implies f(#[trigger] shell[i]) is None by {
        assert(shell[i].0 != port.0);
    }
    model::found_none(shell, f);
}

/// A variable that `.envrc` sets is compared with the port leased under its name, and with no other.
pub proof fn every_export_is_compared(ports: Seq<(Seq<char>, u16)>, export: (Seq<char>, Seq<char>), k: int)
    ensures
        0 <= k < ports.len() && ports[k].0 == export.0 && (forall|i: int|
            0 <= i < k ==> (#[trigger] ports[i]).0 != export.0) ==> (shadowed_by_envrc(ports)(export) is None
            <==> export.1 == text::decimal(ports[k].1 as nat)) && (shadowed_by_envrc(ports)(export) matches Some(line)
            ==> line == export.0 + "="@ + export.1 + " from .envrc"@ + " (worktree: "@ + text::decimal(
            ports[k].1 as nat,
        ) + ")"@),
        (forall|i: int| 0 <= i < ports.len() ==> (#[trigger] ports[i]).0 != export.0) ==> shadowed_by_envrc(ports)(
            export,
        ) is None,
{
    let f = port_under(export.0);
    if 0 <= k < ports.len() && ports[k].0 == export.0 && (forall|i: int|
        0 <= i < k ==> (#[trigger] ports[i]).0 != export.0) {
        assert forall|i: int| 0 <= i < k implies f(#[trigger] ports[i]) is None by {
            assert(ports[i].0 != export.0);
        }
        model::found_some(ports, f, k);
    }
    if forall|i: int| 0 <= i < ports.len() ==> (#[trigger] ports[i]).0 != export.0 {
        assert forall|i: int| 0 <= i < ports.len() implies f(#[trigger] ports[i]) is None by {
            assert(ports[i].0 != export.0);
        }
        model::found_none(ports, f);
    }
}

/// Every shadowed port is named in the finding: those of the shell in any case, those of `.envrc`
/// where direnv loads it. Where none is shadowed there is no finding.
pub proof fn every_shadowed_port_is_named(
    ports: Seq<(Seq<char>, u16)>,
    shell: Seq<(Seq<char>, Seq<char>)>,
    envrc: bool,
    allowed: Option<bool>,
    exports: Seq<(Seq<char>, Seq<char>)>,
    k: int,
)
    ensures
        0 <= k < ports.len() && shadowed_by_shell(shell)(ports[k]) is Some ==> {
            let found = port_findings(ports, shell, envrc, allowed, exports);
            found.len() == 1 && found[0].details.contains(shadowed_by_shell(shell)(ports[k])->0)
        },
        envrc && allowed == Some(true) && 0 <= k < exports.len() && shadowed_by_envrc(ports)(exports[k]) is Some ==> {
            let found = port_findings(ports, shell, envrc, allowed, exports);
            found.len() == 1 && found[0].details.contains(shadowed_by_envrc(ports)(exports[k])->0)
        },
        (forall|i: int| 0 <= i < ports.len() ==> shadowed_by_shell(shell)(#[trigger] ports[i]) is None) && (envrc
            && allowed == Some(true) ==> forall|i: int|
            0 <= i < exports.len() ==> shadowed_by_envrc(ports)(#[trigger] exports[i]) is None) ==> port_findings(
            ports,
            shell,
            envrc,
            allowed,
            exports,
        ).len() == 0,
{
    let f = shadowed_by_shell(shell);
    let g = shadowed_by_envrc(ports);
    let in_shell = ports.filter_map(f);
    let in_envrc = if envrc && allowed == Some(true) {
        exports.filter_map(g)
    } else {
        Seq::empty()
    };
    let all = in_shell + in_envrc;
    model::filter_map_keeps(ports, f);
    model::filter_map_keeps(exports, g);
    if 0 <= k < ports.len() && f(ports[k]) is Some {
        let i = choose|i: int| 0 <= i < in_shell.len() && in_shell[i] == f(ports[k])->0;
        assert(all[i] == f(ports[k])->0);
    }
    if envrc && allowed == Some(true) && 0 <= k < exports.len() && g(exports[k]) is Some {
        let i = choose|i: int| 0 <= i < in_envrc.len() && in_envrc[i] == g(exports[k])->0;
        assert(all[in_shell.len() + i] == g(exports[k])->0);
    }
    if (forall|i: int| 0 <= i < ports.len() ==> f(#[trigger] ports[i]) is None) && (envrc && allowed == Some(true)
        ==> forall|i: int| 0 <= i < exports.len() ==> g(#[trigger] exports[i]) is None) {
        if in_shell.len() > 0 {
            assert(in_shell.contains(in_shell[0]));
        }
        if in_envrc.len() > 0 {
            assert(in_envrc.contains(in_envrc[0]));
        }
    }
}

/// Every finding is shown, in order: its title, each of its details and its hint, one line each.
pub proof fn every_finding_is_shown(screen: Screen, findings: Seq<FindingData>, more: Seq<FindingData>, k: int)
    ensures
        all_shown(screen, findings + more) == all_shown(screen, findings) + all_shown(screen, more),
        0 <= k < findings.len() ==> {
            let lines = shown(screen, findings[k]);
            &&& lines.len() == 1 + findings[k].details.len() + if findings[k].hint is Some {
                1int
            } else {
                0int
            }
            &&& findings[k].title.is_suffix_of(lines[0])
            &&& forall|i: int|
                0 <= i < findings[k].details.len() ==> lines[i + 1] == "    "@ + #[trigger] findings[k].details[i]
            &&& forall|line: Seq<char>| #[trigger] lines.contains(line) ==> all_shown(screen, findings).contains(line)
        },
    decreases more.len(), findings.len(),
{
    if more.len() == 0 {
        assert(findings + more =~= findings);
        assert(all_shown(screen, findings) + all_shown(screen, more) =~= all_shown(screen, findings));
    } else {
        let init = more.drop_last();
        every_finding_is_shown(screen, findings, init, k);
        let all = findings + more;
        assert(all.drop_last() =~= findings + init);
        assert(all_shown(screen, all) =~= all_shown(screen, findings) + all_shown(screen, more));
    }
    if 0 <= k < findings.len() {
        let lines = shown(screen, findings[k]);
        let title = findings[k].title;
        assert(lines[0].subrange(lines[0].len() - title.len(), lines[0].len() as int) =~= title);
        let init = findings.drop_last();
        let before = all_shown(screen, init);
        let last = shown(screen, findings.last());
        let whole = all_shown(screen, findings);
        if k == findings.len() - 1 {
            assert forall|line: Seq<char>| #[trigger] lines.contains(line) implies whole.contains(line) by {
                let i = choose|i: int| 0 <= i < lines.len() && lines[i] == line;
                assert(whole[before.len() + i] == line);
            }
        } else {
            assert(init[k] == findings[k]);
            every_finding_is_shown(screen, init, Seq::empty(), k);
            assert forall|line: Seq<char>| #[trigger] lines.contains(line) implies whole.contains(line) by {
                assert(before.contains(line));
                let i = choose|i: int| 0 <= i < before.len() && before[i] == line;
                assert(whole[i] == line);
            }
        }
    }
}

/// A `.envrc` that direnv refuses is reported, and nothing else about it is: one that is not there,
/// one that is allowed, and one that direnv says nothing of.
pub proof fn only_a_refused_envrc_is_reported(envrc: bool, allowed: Option<bool>)
    ensures
        direnv_findings(envrc, allowed).len() == if envrc && allowed == Some(false) {
            1nat
        } else {
            0nat
        },
{
}

} // verus!
