//! Local changes that removing a worktree would lose.

use vstd::prelude::*;

use crate::environment;
use crate::model;
use crate::paths;
use crate::process;
use crate::process::Output;
use crate::state::{Record, RecordData};
use crate::text;

verus! {

broadcast use {crate::model::lemma_views_push, crate::model::lemma_pairs_push};

// ---------------------------------------------------------------------------
// What Git reports
// ---------------------------------------------------------------------------

/// An entry of `git status --porcelain=v1 -z`: two characters for the kind, a space, the path.
pub open spec fn status_entry(entry: Seq<u8>) -> Result<(Seq<char>, Seq<char>), Seq<char>> {
    if entry.len() < 4 {
        Err("unexpected git status output"@)
    } else {
        match (process::decoded(entry.take(2)), process::decoded(entry.skip(3))) {
            (Err(message), _) => Err(message),
            (_, Err(message)) => Err(message),
            (Ok(kind), Ok(path)) => Ok((kind, path)),
        }
    }
}

/// What reading an entry came to.
pub open spec fn outcome_entry(r: Result<(String, String), String>) -> Result<(Seq<char>, Seq<char>), Seq<char>> {
    match r {
        Ok((kind, path)) => Ok((kind@, path@)),
        Err(message) => Err(message@),
    }
}

fn part(bytes: &Vec<u8>, from: usize, to: usize) -> (r: Vec<u8>)
    requires
        from <= to <= bytes@.len(),
    ensures
        r@ == bytes@.subrange(from as int, to as int),
{
    let mut out: Vec<u8> = Vec::new();
    let mut i: usize = from;
    while i < to
        invariant
            from <= i <= to <= bytes@.len(),
            out@ == bytes@.subrange(from as int, i as int),
        decreases to - i,
    {
        out.push(bytes[i]);
        i += 1;
    }
    out
}

pub fn parse_status_entry(entry: &Vec<u8>) -> (r: Result<(String, String), String>)
    ensures
        outcome_entry(r) == status_entry(entry@),
{
    if entry.len() < 4 {
        return Err("unexpected git status output".to_owned());
    }
    let kind = part(entry, 0, 2);
    let path = part(entry, 3, entry.len());
    assert(kind@ =~= entry@.take(2));
    assert(path@ =~= entry@.skip(3));
    match process::decode(&kind) {
        Err(message) => Err(message),
        Ok(kind) => match process::decode(&path) {
            Err(message) => Err(message),
            Ok(path) => Ok((kind, path)),
        },
    }
}

/// What `git status` reports: the kind and the path of each change.
pub open spec fn reported(output: Output) -> Result<Seq<(Seq<char>, Seq<char>)>, Seq<char>> {
    match process::required(output) {
        Err(message) => Err(message),
        Ok(()) => environment::collected(
            process::nul_entries(output.stdout@).map_values(|e: Seq<u8>| status_entry(e)),
        ),
    }
}

/// What reading the report came to.
pub open spec fn outcome_report(r: Result<Vec<(String, String)>, String>) -> Result<
    Seq<(Seq<char>, Seq<char>)>,
    Seq<char>,
> {
    match r {
        Ok(list) => Ok(model::pairs(list@)),
        Err(message) => Err(message@),
    }
}

pub fn worktree_changes(output: &Output) -> (r: Result<Vec<(String, String)>, String>)
    ensures
        outcome_report(r) == reported(*output),
{
    match process::run(output) {
        Ok(()) => {},
        Err(message) => {
            return Err(message);
        },
    }
    let entries = process::nul_pieces(&output.stdout);
    let ghost each = |e: Seq<u8>| status_entry(e);
    let ghost all = process::nul_entries(output.stdout@).map_values(each);
    let mut out: Vec<(String, String)> = Vec::new();
    assert(all.take(0) =~= Seq::empty());
    assert(model::pairs(out@) =~= Seq::empty());
    for i in 0..entries.len()
        invariant
            process::required(*output) is Ok,
            each == (|e: Seq<u8>| status_entry(e)),
            all == process::nul_entries(output.stdout@).map_values(each),
            process::byte_views(entries@) == process::nul_entries(output.stdout@),
            environment::collected(all.take(i as int)) == Ok::<Seq<(Seq<char>, Seq<char>)>, Seq<char>>(
                model::pairs(out@),
            ),
    {
        proof {
            model::step(all, i as int);
            assert(process::nul_entries(output.stdout@)[i as int] == entries@[i as int]@);
        }
        match parse_status_entry(&entries[i]) {
            Ok(pair) => {
                out.push(pair);
            },
            Err(message) => {
                proof {
                    environment::lemma_collected_error(all, i + 1);
                }
                return Err(message);
            },
        }
    }
    proof {
        model::whole(all);
    }
    Ok(out)
}

// ---------------------------------------------------------------------------
// Directories
// ---------------------------------------------------------------------------

/// An entry of a directory, with what a directory holds; links are not followed.
pub enum Node {
    Directory { name: String, entries: Vec<Node> },
    Entry { name: String },
}

/// Whether a directory holds nothing but directories, at any depth.
pub open spec fn only_directories(node: Node) -> bool
    decreases node,
{
    match node {
        Node::Directory { entries, .. } => forall|i: int|
            0 <= i < entries@.len() ==> only_directories(#[trigger] entries@[i]),
        Node::Entry { .. } => false,
    }
}

pub fn contains_only_directories(node: &Node) -> (r: bool)
    ensures
        r == only_directories(*node),
    decreases node,
{
    match node {
        Node::Directory { entries, .. } => {
            for i in 0..entries.len()
                invariant
                    *node matches Node::Directory { entries: all, .. } && all == *entries,
                    forall|k: int| 0 <= k < i ==> only_directories(#[trigger] entries@[k]),
            {
                if !contains_only_directories(&entries[i]) {
                    return false;
                }
            }
            true
        },
        Node::Entry { .. } => false,
    }
}

/// Whether `n` is `node` itself or stands at any depth below it.
pub open spec fn below(node: Node, n: Node) -> bool
    decreases node,
{
    n == node || (node matches Node::Directory { entries, .. } && exists|i: int|
        0 <= i < entries@.len() && below(#[trigger] entries@[i], n))
}

/// A directory holds nothing but directories exactly where no file stands at any depth below it.
pub proof fn only_directories_means_no_file_below(node: Node)
    ensures
        only_directories(node) <==> forall|n: Node| #[trigger] below(node, n) ==> n is Directory,
    decreases node,
{
    match node {
        Node::Directory { entries, .. } => {
            assert forall|i: int| 0 <= i < entries@.len() implies (only_directories(#[trigger] entries@[i])
                <==> forall|n: Node| #[trigger] below(entries@[i], n) ==> n is Directory) by {
                only_directories_means_no_file_below(entries@[i]);
            }
            if only_directories(node) {
                assert forall|n: Node| #[trigger] below(node, n) implies n is Directory by {
                    if n != node {
                        let i = choose|i: int| 0 <= i < entries@.len() && below(#[trigger] entries@[i], n);
                        assert(only_directories(entries@[i]));
                    }
                }
            }
            if forall|n: Node| #[trigger] below(node, n) ==> n is Directory {
                assert forall|i: int| 0 <= i < entries@.len() implies only_directories(#[trigger] entries@[i]) by {
                    assert forall|n: Node| #[trigger] below(entries@[i], n) implies n is Directory by {
                        assert(below(node, n));
                    }
                }
            }
        },
        Node::Entry { .. } => {
            assert(below(node, node));
        },
    }
}

/// Whether a path is a key of a map from paths.
pub open spec fn has_key(map: Seq<(Seq<char>, Seq<char>)>, path: Seq<char>) -> bool {
    exists|i: int| 0 <= i < map.len() && paths::same_path((#[trigger] map[i]).0, path)
}

fn contains_key(map: &Vec<(String, String)>, path: &str) -> (r: bool)
    ensures
        r == has_key(model::pairs(map@), path@),
{
    for i in 0..map.len()
        invariant
            forall|k: int| 0 <= k < i ==> !paths::same_path((#[trigger] model::pairs(map@)[k]).0, path@),
    {
        assert(model::pairs(map@)[i as int] == (map@[i as int].0@, map@[i as int].1@));
        if paths::same(&map[i].0, path) {
            assert(paths::same_path(model::pairs(map@)[i as int].0, path@));
            return true;
        }
    }
    false
}

/// Whether every file below an entry of `directory` is a copied file.
pub open spec fn only_managed(directory: Seq<char>, node: Node, copied: Seq<(Seq<char>, Seq<char>)>) -> bool
    decreases node,
{
    match node {
        Node::Directory { name, entries } => forall|i: int|
            0 <= i < entries@.len() ==> only_managed(
                paths::joined(directory, name@),
                #[trigger] entries@[i],
                copied,
            ),
        Node::Entry { name } => has_key(copied, paths::joined(directory, name@)),
    }
}

fn contains_only_managed(directory: &str, node: &Node, copied: &Vec<(String, String)>) -> (r: bool)
    ensures
        r == only_managed(directory@, *node, model::pairs(copied@)),
    decreases node,
{
    match node {
        Node::Directory { name, entries } => {
            let path = paths::join(directory, name);
            for i in 0..entries.len()
                invariant
                    *node matches Node::Directory { name: n, entries: all } && all == *entries && n == *name,
                    path@ == paths::joined(directory@, name@),
                    forall|k: int|
                        0 <= k < i ==> only_managed(path@, #[trigger] entries@[k], model::pairs(copied@)),
            {
                if !contains_only_managed(&path, &entries[i], copied) {
                    return false;
                }
            }
            true
        },
        Node::Entry { name } => contains_key(copied, &paths::join(directory, name)),
    }
}

/// Whether every file below a directory of the worktree is a copied file.
pub open spec fn holds_only_managed(directory: Seq<char>, node: Node, copied: Seq<(Seq<char>, Seq<char>)>) -> bool {
    node matches Node::Directory { entries, .. } && forall|i: int|
        0 <= i < entries@.len() ==> only_managed(directory, #[trigger] entries@[i], copied)
}

pub fn contains_only_managed_files(directory: &str, node: &Node, record: &Record) -> (r: bool)
    ensures
        r == holds_only_managed(directory@, *node, record@.copied_files),
{
    match node {
        Node::Directory { entries, .. } => {
            for i in 0..entries.len()
                invariant
                    *node matches Node::Directory { entries: all, .. } && all == *entries,
                    forall|k: int|
                        0 <= k < i ==> only_managed(directory@, #[trigger] entries@[k], record@.copied_files),
            {
                if !contains_only_managed(directory, &entries[i], &record.copied_files) {
                    return false;
                }
            }
            true
        },
        Node::Entry { .. } => false,
    }
}

/// Whether a file stands at `path`, where `node` is an entry of `directory`: it is the node itself
/// or stands at any depth below it, and the path is made of the names on the way.
pub open spec fn file_at(directory: Seq<char>, node: Node, path: Seq<char>) -> bool
    decreases node,
{
    match node {
        Node::Directory { name, entries } => exists|i: int|
            0 <= i < entries@.len() && file_at(paths::joined(directory, name@), #[trigger] entries@[i], path),
        Node::Entry { name } => path == paths::joined(directory, name@),
    }
}

proof fn lemma_only_managed(directory: Seq<char>, node: Node, copied: Seq<(Seq<char>, Seq<char>)>)
    ensures
        only_managed(directory, node, copied) <==> forall|path: Seq<char>| #[trigger]
            file_at(directory, node, path) ==> exists|i: int|
                0 <= i < copied.len() && paths::same_path((#[trigger] copied[i]).0, path),
    decreases node,
{
    match node {
        Node::Directory { name, entries } => {
            let inner = paths::joined(directory, name@);
            assert forall|i: int| 0 <= i < entries@.len() implies (only_managed(
                inner,
                #[trigger] entries@[i],
                copied,
            ) <==> forall|path: Seq<char>| #[trigger] file_at(inner, entries@[i], path) ==> has_key(copied, path)) by {
                lemma_only_managed(inner, entries@[i], copied);
            }
            if only_managed(directory, node, copied) {
                assert forall|path: Seq<char>| #[trigger] file_at(directory, node, path) implies has_key(
                    copied,
                    path,
                ) by {
                    let i = choose|i: int| 0 <= i < entries@.len() && file_at(inner, #[trigger] entries@[i], path);
                    assert(only_managed(inner, entries@[i], copied));
                }
            }
            if forall|path: Seq<char>| #[trigger] file_at(directory, node, path) ==> has_key(copied, path) {
                assert forall|i: int| 0 <= i < entries@.len() implies only_managed(
                    inner,
                    #[trigger] entries@[i],
                    copied,
                ) by {
                    assert forall|path: Seq<char>| #[trigger] file_at(inner, entries@[i], path) implies has_key(
                        copied,
                        path,
                    ) by {
                        assert(file_at(directory, node, path));
                    }
                }
            }
        },
        Node::Entry { name } => {
            assert(file_at(directory, node, paths::joined(directory, name@)));
        },
    }
}

/// A directory holds only managed files exactly where every file, at any depth below it, stands at
/// the path of a copied file.
pub proof fn only_managed_means_every_file_was_copied(
    directory: Seq<char>,
    name: String,
    entries: Vec<Node>,
    copied: Seq<(Seq<char>, Seq<char>)>,
)
    ensures
        holds_only_managed(directory, Node::Directory { name, entries }, copied) <==> forall|k: int, path: Seq<char>|
            0 <= k < entries@.len() && #[trigger] file_at(directory, entries@[k], path) ==> exists|i: int|
                0 <= i < copied.len() && paths::same_path((#[trigger] copied[i]).0, path),
{
    assert forall|k: int| 0 <= k < entries@.len() implies (only_managed(directory, #[trigger] entries@[k], copied)
        <==> forall|path: Seq<char>| #[trigger] file_at(directory, entries@[k], path) ==> has_key(copied, path)) by {
        lemma_only_managed(directory, entries@[k], copied);
    }
    if holds_only_managed(directory, Node::Directory { name, entries }, copied) {
        let whole = Node::Directory { name, entries };
        assert(whole->entries == entries);
        assert forall|k: int, path: Seq<char>|
            0 <= k < entries@.len() && #[trigger] file_at(directory, entries@[k], path) implies has_key(
            copied,
            path,
        ) by {
            assert(only_managed(directory, whole->entries@[k], copied));
        }
    }
}

// ---------------------------------------------------------------------------
// Changes
// ---------------------------------------------------------------------------

/// Whether a path may be removed with the worktree: a copied file, or one that may be discarded.
pub open spec fn removable(path: Seq<char>, record: RecordData) -> bool {
    has_key(record.copied_files, path) || paths::covered(record.disposable, path)
}

pub fn is_removable_path(path: &str, record: &Record) -> (r: bool)
    ensures
        r == removable(path@, record@),
{
    contains_key(&record.copied_files, path) || paths::list_covers(&record.disposable, path)
}

/// Whether Git does not track a path of this kind.
pub open spec fn untracked(kind: Seq<char>) -> bool {
    kind == "??"@ || kind == "!!"@
}

/// Whether a directory that Git lists as a whole holds nothing that would be missed.
pub open spec fn harmless(kind: Seq<char>, path: Seq<char>, node: Option<Node>, record: RecordData) -> bool {
    &&& "/"@.is_suffix_of(path)
    &&& node matches Some(node) && ((kind == "!!"@ && only_directories(node)) || holds_only_managed(
        text::trimmed_end_of(path, "/"@),
        node,
        record.copied_files,
    ))
}

/// The change that an entry of the report means, if it blocks removal.
pub open spec fn blocking_entry(kind: Seq<char>, path: Seq<char>, node: Option<Node>, record: RecordData) -> Option<
    Seq<char>,
> {
    if !untracked(kind) {
        Some("worktree contains tracked changes: "@ + path)
    } else if removable(path, record) || harmless(kind, path, node, record) {
        None
    } else {
        Some("worktree contains an unmanaged file: "@ + path)
    }
}

/// A line of the report, with the directory that it names as a whole.
pub struct Change {
    pub kind: String,
    pub path: String,
    pub directory: Option<Node>,
}

/// The change that a line of the report means, if it blocks removal.
pub open spec fn blocking_line(record: RecordData) -> spec_fn(Change) -> Option<Seq<char>> {
    |c: Change| blocking_entry(c.kind@, c.path@, c.directory, record)
}

/// The copied file, where its fingerprint is not the one that it was created with.
pub open spec fn changed_copy() -> spec_fn(((Seq<char>, Seq<char>), Seq<char>)) -> Option<Seq<char>> {
    |f: ((Seq<char>, Seq<char>), Seq<char>)|
        if f.0.1 != f.1 {
            Some("changed managed file: "@ + f.0.0)
        } else {
            None
        }
}

/// The copied files with their fingerprints now.
pub open spec fn with_fingerprints(copied: Seq<(Seq<char>, Seq<char>)>, now: Seq<Seq<char>>) -> Seq<
    ((Seq<char>, Seq<char>), Seq<char>),
> {
    Seq::new(copied.len(), |i: int| (copied[i], now[i]))
}

/// Every local change that removal without force would lose.
pub open spec fn blocking(record: RecordData, fingerprints: Seq<Seq<char>>, report: Seq<Change>) -> Seq<Seq<char>> {
    with_fingerprints(record.copied_files, fingerprints).filter_map(changed_copy()) + report.filter_map(
        blocking_line(record),
    )
}

pub fn blocking_changes(record: &Record, fingerprints: &Vec<String>, report: &Vec<Change>) -> (r: Vec<String>)
    requires
        fingerprints@.len() == record.copied_files@.len(),
    ensures
        model::views(r@) == blocking(record@, model::views(fingerprints@), report@),
{
    let ghost files = with_fingerprints(record@.copied_files, model::views(fingerprints@));
    let mut out: Vec<String> = Vec::new();
    proof {
        model::start_filter_map(files, changed_copy());
    }
    for i in 0..record.copied_files.len()
        invariant
            fingerprints@.len() == record.copied_files@.len(),
            files == with_fingerprints(record@.copied_files, model::views(fingerprints@)),
            model::views(out@) == files.take(i as int).filter_map(changed_copy()),
    {
        proof {
            model::step_filter_map(files, i as int, changed_copy());
            assert(files[i as int].0 == (record.copied_files@[i as int].0@, record.copied_files@[i as int].1@));
            assert(files[i as int].1 == fingerprints@[i as int]@);
        }
        if !text::same(&record.copied_files[i].1, &fingerprints[i]) {
            out.push(text::concat("changed managed file: ", &record.copied_files[i].0));
        }
    }
    let ghost start = model::views(out@);
    let ghost f = blocking_line(record@);
    proof {
        model::whole(files);
        model::start_filter_map(report@, f);
        assert(start + Seq::<Seq<char>>::empty() =~= start);
    }
    for i in 0..report.len()
        invariant
            f == blocking_line(record@),
            model::views(out@) == start + report@.take(i as int).filter_map(f),
    {
        let change = &report[i];
        let ghost before = report@.take(i as int).filter_map(f);
        proof {
            model::step_filter_map(report@, i as int, f);
        }
        let known = !text::same(&change.kind, "??") && !text::same(&change.kind, "!!");
        if known {
            let message = text::concat("worktree contains tracked changes: ", &change.path);
            assert(start + before.push(message@) =~= (start + before).push(message@));
            out.push(message);
        } else if !is_removable_path(&change.path, record) && !is_harmless(change, record) {
            let message = text::concat("worktree contains an unmanaged file: ", &change.path);
            assert(start + before.push(message@) =~= (start + before).push(message@));
            out.push(message);
        }
    }
    proof {
        model::whole(report@);
    }
    out
}

fn is_harmless(change: &Change, record: &Record) -> (r: bool)
    ensures
        r == harmless(change.kind@, change.path@, change.directory, record@),
{
    if !text::ends_with(&change.path, "/") {
        return false;
    }
    match &change.directory {
        Some(node) => {
            (text::same(&change.kind, "!!") && contains_only_directories(node)) || contains_only_managed_files(
                &text::trim_end_matches(&change.path, "/"),
                node,
                record,
            )
        },
        None => false,
    }
}

/// Whether the directory that a line of the report names has to be looked into.
pub fn needs_directory(kind: &str, path: &str, record: &Record) -> (r: bool)
    ensures
        r == (untracked(kind@) && !removable(path@, record@) && "/"@.is_suffix_of(path@)),
{
    (text::same(kind, "??") || text::same(kind, "!!")) && !is_removable_path(path, record) && text::ends_with(path, "/")
}

/// Whether a worktree may be removed without force, or the first change that would be lost.
pub fn ensure_safe_to_remove(changes: &Vec<String>) -> (r: Result<(), String>)
    ensures
        model::outcome(r) == if changes@.len() == 0 {
            Ok(())
        } else {
            Err(model::views(changes@)[0])
        },
{
    if changes.len() == 0 {
        Ok(())
    } else {
        Err(changes[0].clone())
    }
}

proof fn lemma_none_left<A, B>(s: Seq<A>, f: spec_fn(A) -> Option<B>)
    ensures
        s.filter_map(f).len() == 0 <==> forall|i: int| 0 <= i < s.len() ==> f(#[trigger] s[i]) is None,
    decreases s.len(),
{
    if s.len() > 0 {
        let init = s.drop_last();
        lemma_none_left(init, f);
        if s.filter_map(f).len() == 0 {
            assert forall|i: int| 0 <= i < s.len() implies f(#[trigger] s[i]) is None by {
                if i < init.len() {
                    assert(init[i] == s[i]);
                }
            }
        }
        if forall|i: int| 0 <= i < s.len() ==> f(#[trigger] s[i]) is None {
            assert forall|i: int| 0 <= i < init.len() implies f(#[trigger] init[i]) is None by {
                assert(init[i] == s[i]);
            }
            assert(f(s[s.len() - 1]) is None);
        }
    }
}

/// Nothing blocks the removal of a worktree exactly where every copied file is as it was created
/// and Git reports only untracked paths that were copied, may be discarded, or are directories
/// without files of their own.
pub proof fn safe_removal_loses_nothing(record: RecordData, fingerprints: Seq<Seq<char>>, report: Seq<Change>)
    requires
        fingerprints.len() == record.copied_files.len(),
    ensures
        blocking(record, fingerprints, report).len() == 0 <==> {
            &&& forall|i: int|
                0 <= i < record.copied_files.len() ==> (#[trigger] record.copied_files[i]).1 == fingerprints[i]
            &&& forall|i: int|
                0 <= i < report.len() ==> untracked((#[trigger] report[i]).kind@) && (removable(report[i].path@, record)
                    || harmless(report[i].kind@, report[i].path@, report[i].directory, record))
        },
{
    let files = with_fingerprints(record.copied_files, fingerprints);
    lemma_none_left(files, changed_copy());
    lemma_none_left(report, blocking_line(record));
    if blocking(record, fingerprints, report).len() == 0 {
        assert forall|i: int| 0 <= i < record.copied_files.len() implies (#[trigger] record.copied_files[i]).1
            == fingerprints[i] by {
            assert(changed_copy()(files[i]) is None);
        }
        assert forall|i: int| 0 <= i < report.len() implies untracked((#[trigger] report[i]).kind@) && (removable(
            report[i].path@,
            record,
        ) || harmless(report[i].kind@, report[i].path@, report[i].directory, record)) by {
            assert(blocking_line(record)(report[i]) is None);
        }
    } else {
        if forall|i: int|
            0 <= i < record.copied_files.len() ==> (#[trigger] record.copied_files[i]).1 == fingerprints[i] {
            assert forall|i: int| 0 <= i < files.len() implies changed_copy()(#[trigger] files[i]) is None by {
                assert(record.copied_files[i].1 == fingerprints[i]);
            }
        }
    }
}

/// An ignored directory that holds nothing but directories does not block removal.
pub proof fn empty_directories_do_not_block(path: Seq<char>, node: Node, record: RecordData)
    requires
        "/"@.is_suffix_of(path),
        only_directories(node),
    ensures
        blocking_entry("!!"@, path, Some(node), record) is None,
{
}

/// Every copied file whose fingerprint is not the one that it was created with blocks removal, and
/// so does every line of the report that blocks by itself: none is passed over for another.
pub proof fn every_lost_change_is_named(record: RecordData, fingerprints: Seq<Seq<char>>, report: Seq<Change>)
    requires
        fingerprints.len() == record.copied_files.len(),
    ensures
        forall|k: int|
            0 <= k < record.copied_files.len() && (#[trigger] record.copied_files[k]).1 != fingerprints[k]
                ==> blocking(record, fingerprints, report).contains(
                "changed managed file: "@ + record.copied_files[k].0,
            ),
        forall|k: int|
            0 <= k < report.len() && blocking_entry(
                (#[trigger] report[k]).kind@,
                report[k].path@,
                report[k].directory,
                record,
            ) is Some ==> blocking(record, fingerprints, report).contains(
                blocking_entry(report[k].kind@, report[k].path@, report[k].directory, record)->0,
            ),
{
    let files = with_fingerprints(record.copied_files, fingerprints);
    let copies = files.filter_map(changed_copy());
    let lines = report.filter_map(blocking_line(record));
    let all = blocking(record, fingerprints, report);
    model::filter_map_keeps(files, changed_copy());
    model::filter_map_keeps(report, blocking_line(record));
    assert forall|k: int|
        0 <= k < record.copied_files.len() && (#[trigger] record.copied_files[k]).1 != fingerprints[k] implies all.contains(
        "changed managed file: "@ + record.copied_files[k].0,
    ) by {
        let message = "changed managed file: "@ + record.copied_files[k].0;
        assert(changed_copy()(files[k]) == Some(message));
        assert(copies.contains(message));
        let i = choose|i: int| 0 <= i < copies.len() && copies[i] == message;
        assert(all[i] == message);
    }
    assert forall|k: int|
        0 <= k < report.len() && blocking_entry(
            (#[trigger] report[k]).kind@,
            report[k].path@,
            report[k].directory,
            record,
        ) is Some implies all.contains(
        blocking_entry(report[k].kind@, report[k].path@, report[k].directory, record)->0,
    ) by {
        let message = blocking_entry(report[k].kind@, report[k].path@, report[k].directory, record)->0;
        assert(blocking_line(record)(report[k]) == Some(message));
        assert(lines.contains(message));
        let i = choose|i: int| 0 <= i < lines.len() && lines[i] == message;
        assert(all[copies.len() + i] == message);
    }
}

/// A change of any kind but an untracked or ignored path blocks removal, whatever was copied or may
/// be discarded.
pub proof fn tracked_changes_block(kind: Seq<char>, path: Seq<char>, node: Option<Node>, record: RecordData)
    requires
        kind != "??"@,
        kind != "!!"@,
    ensures
        blocking_entry(kind, path, node, record) == Some("worktree contains tracked changes: "@ + path),
{
}

/// An untracked or ignored file blocks removal exactly where it is not at the path of a copied file
/// and lies in nothing that may be discarded.
pub proof fn unmanaged_files_block(kind: Seq<char>, path: Seq<char>, node: Option<Node>, record: RecordData)
    requires
        kind == "??"@ || kind == "!!"@,
        path.len() == 0 || path.last() != '/',
    ensures
        blocking_entry(kind, path, node, record) is None <==> {
            ||| exists|i: int|
                0 <= i < record.copied_files.len() && paths::same_path((#[trigger] record.copied_files[i]).0, path)
            ||| exists|i: int| 0 <= i < record.disposable.len() && paths::lies_in(path, #[trigger] record.disposable[i])
        },
        blocking_entry(kind, path, node, record) matches Some(message) ==> message
            == "worktree contains an unmanaged file: "@ + path,
{
    reveal_strlit("/");
    if "/"@.is_suffix_of(path) {
        assert(path.subrange(path.len() - 1, path.len() as int)[0] == '/');
    }
}

/// An untracked or ignored directory blocks removal exactly where it was not copied, may not be
/// discarded and holds a file, at any depth, that was not copied; empty directories count only
/// where Git does not ignore them.
pub proof fn unmanaged_directories_block(
    kind: Seq<char>,
    path: Seq<char>,
    name: String,
    entries: Vec<Node>,
    record: RecordData,
)
    requires
        kind == "??"@ || kind == "!!"@,
        path.len() > 0 && path.last() == '/',
    ensures
        ({
            let node = Node::Directory { name, entries };
            blocking_entry(kind, path, Some(node), record) is None <==> {
                ||| exists|i: int|
                    0 <= i < record.copied_files.len() && paths::same_path((#[trigger] record.copied_files[i]).0, path)
                ||| exists|i: int|
                    0 <= i < record.disposable.len() && paths::lies_in(path, #[trigger] record.disposable[i])
                ||| kind == "!!"@ && forall|n: Node| #[trigger] below(node, n) ==> n is Directory
                ||| forall|k: int, at: Seq<char>|
                    0 <= k < entries@.len() && #[trigger] file_at(
                        text::trimmed_end_of(path, "/"@),
                        entries@[k],
                        at,
                    ) ==> exists|i: int|
                        0 <= i < record.copied_files.len() && paths::same_path((#[trigger] record.copied_files[i]).0, at)
            }
        }),
{
    reveal_strlit("/");
    let node = Node::Directory { name, entries };
    assert(path.skip(path.len() - 1) =~= "/"@);
    assert("/"@.is_suffix_of(path));
    only_directories_means_no_file_below(node);
    only_managed_means_every_file_was_copied(
        text::trimmed_end_of(path, "/"@),
        name,
        entries,
        record.copied_files,
    );
}

/// An entry of Git's report reads back as the kind and the path that it was printed from.
pub proof fn entries_hold_kind_and_path(kind: Seq<u8>, between: u8, path: Seq<u8>)
    requires
        kind.len() == 2,
        path.len() > 0,
        vstd::utf8::valid_utf8(kind),
        vstd::utf8::valid_utf8(path),
    ensures
        status_entry(kind + seq![between] + path) == Ok::<(Seq<char>, Seq<char>), Seq<char>>(
            (vstd::utf8::decode_utf8(kind), vstd::utf8::decode_utf8(path)),
        ),
{
    let entry = kind + seq![between] + path;
    assert(entry.take(2) =~= kind);
    assert(entry.skip(3) =~= path);
}

/// Every entry of Git's report is read, in order, or the first that cannot be read is the answer.
pub proof fn every_reported_entry_is_read(output: Output)
    requires
        output.code == Some(0i32),
    ensures
        ({
            let entries = process::nul_entries(output.stdout@);
            &&& reported(output) is Ok <==> forall|i: int| 0 <= i < entries.len() ==> status_entry(#[trigger] entries[i]) is Ok
            &&& reported(output) matches Ok(list) ==> list.len() == entries.len() && forall|i: int|
                0 <= i < entries.len() ==> status_entry(#[trigger] entries[i]) == Ok::<(Seq<char>, Seq<char>), Seq<char>>(
                    list[i],
                )
        }),
{
    let entries = process::nul_entries(output.stdout@);
    let all = entries.map_values(|e: Seq<u8>| status_entry(e));
    environment::collecting_keeps_every_value(all);
    assert(forall|i: int| 0 <= i < entries.len() ==> #[trigger] all[i] == status_entry(entries[i]));
    if forall|i: int| 0 <= i < entries.len() ==> status_entry(#[trigger] entries[i]) is Ok {
        assert forall|i: int| 0 <= i < all.len() implies #[trigger] all[i] is Ok by {
            assert(status_entry(entries[i]) is Ok);
        }
    }
    if reported(output) is Ok {
        let list = reported(output)->Ok_0;
        assert forall|i: int| 0 <= i < entries.len() implies status_entry(#[trigger] entries[i]) == Ok::<
            (Seq<char>, Seq<char>),
            Seq<char>,
        >(list[i]) by {
            assert(all[i] == Ok::<(Seq<char>, Seq<char>), Seq<char>>(list[i]));
        }
    }
}

} // verus!
