//! The steps of adding a worktree.

use vstd::prelude::*;

use crate::model;
use crate::paths;
use crate::process;
use crate::state;
use crate::state::{Record, RecordData};
use crate::text;

verus! {

broadcast use crate::model::lemma_views_push;

// ---------------------------------------------------------------------------
// The steps
// ---------------------------------------------------------------------------

/// What adding a worktree does next.
pub enum Adding {
    /// Look for a worktree of the target, and whether its directory exists.
    Look,
    /// Offer to set the repository up.
    OfferSetup,
    /// Find out what branch to check out, and where.
    Plan,
    /// Look for a worktree that has the branch already.
    Reuse,
    /// Read the settings and see whether their commands are trusted.
    Trust,
    /// Create the worktree, prepare its files and save its record.
    Install,
    /// Let direnv load the environment of the worktree.
    AllowDirenv,
    /// Run the setup command.
    Bootstrap,
    /// Take up files that the setup command made.
    Complete,
    /// Show that the worktree is ready.
    Ready,
    /// Show the worktree that is there already.
    Existing,
}

/// What a step of adding a worktree came to.
pub enum Reply {
    /// The record of the target, and whether its directory exists.
    Record(Result<Option<Record>, String>, bool),
    /// Whether a worktree has the branch.
    Taken(Result<bool, String>),
    Finished(Result<(), String>),
}

pub open spec fn replies(step: Adding, reply: Reply) -> bool {
    match step {
        Adding::Look => reply is Record,
        Adding::Reuse => reply is Taken,
        Adding::Ready => false,
        Adding::Existing => false,
        _ => reply is Finished,
    }
}

/// The step that follows one that went well.
pub open spec fn following(step: Adding) -> Adding {
    match step {
        Adding::OfferSetup => Adding::Plan,
        Adding::Plan => Adding::Reuse,
        Adding::Trust => Adding::Install,
        Adding::Install => Adding::AllowDirenv,
        Adding::AllowDirenv => Adding::Bootstrap,
        Adding::Bootstrap => Adding::Complete,
        _ => Adding::Ready,
    }
}

/// Where a reply leads: a worktree that is there already is shown, and nothing is created for it.
/// A failure of direnv is no reason to stop, and a failed setup command leaves the worktree.
pub open spec fn added_after(step: Adding, path: Seq<char>, reply: Reply) -> Result<Adding, Seq<char>> {
    match reply {
        Reply::Record(found, present) => match state::outcome_record(found) {
            Err(message) => Err(message),
            Ok(Some(_)) => if present {
                Ok(Adding::Existing)
            } else {
                Ok(Adding::OfferSetup)
            },
            Ok(None) => Ok(Adding::OfferSetup),
        },
        Reply::Taken(taken) => match model::outcome_plain(taken) {
            Err(message) => Err(message),
            Ok(true) => Ok(Adding::Existing),
            Ok(false) => Ok(Adding::Trust),
        },
        Reply::Finished(result) => match (model::outcome(result), step) {
            (Ok(_), step) => Ok(following(step)),
            (Err(_), Adding::AllowDirenv) => Ok(Adding::Bootstrap),
            (Err(message), Adding::Bootstrap) => Err(
                process::in_context("bootstrap failed; worktree kept at "@ + path, message),
            ),
            (Err(message), _) => Err(message),
        },
    }
}

/// Goes on with adding a worktree at a path: the next step, or why it was given up.
pub fn add(step: Adding, path: &str, reply: Reply) -> (r: Result<Adding, String>)
    requires
        replies(step, reply),
    ensures
        match added_after(step, path@, reply) {
            Ok(next) => r == Ok::<Adding, String>(next),
            Err(message) => r matches Err(e) && e@ == message,
        },
{
    match reply {
        Reply::Record(found, present) => match found {
            Err(message) => Err(message),
            Ok(Some(_)) => {
                if present {
                    Ok(Adding::Existing)
                } else {
                    Ok(Adding::OfferSetup)
                }
            },
            Ok(None) => Ok(Adding::OfferSetup),
        },
        Reply::Taken(taken) => match taken {
            Err(message) => Err(message),
            Ok(taken) => {
                if taken {
                    Ok(Adding::Existing)
                } else {
                    Ok(Adding::Trust)
                }
            },
        },
        Reply::Finished(result) => match (result, step) {
            (Ok(_), Adding::OfferSetup) => Ok(Adding::Plan),
            (Ok(_), Adding::Plan) => Ok(Adding::Reuse),
            (Ok(_), Adding::Trust) => Ok(Adding::Install),
            (Ok(_), Adding::Install) => Ok(Adding::AllowDirenv),
            (Ok(_), Adding::AllowDirenv) => Ok(Adding::Bootstrap),
            (Ok(_), Adding::Bootstrap) => Ok(Adding::Complete),
            (Ok(_), _) => Ok(Adding::Ready),
            (Err(_), Adding::AllowDirenv) => Ok(Adding::Bootstrap),
            (Err(message), Adding::Bootstrap) => {
                let context = text::concat("bootstrap failed; worktree kept at ", path);
                Err(process::with_context(&context, &message))
            },
            (Err(message), _) => Err(message),
        },
    }
}

/// Where a sequence of replies leads from the start; none, where a reply suits no step.
pub open spec fn added_by(path: Seq<char>, list: Seq<Reply>) -> Option<Result<Adding, Seq<char>>>
    decreases list.len(),
{
    if list.len() == 0 {
        Some(Ok(Adding::Look))
    } else {
        match added_by(path, list.drop_last()) {
            Some(Ok(step)) => if replies(step, list.last()) {
                Some(added_after(step, path, list.last()))
            } else {
                None
            },
            _ => None,
        }
    }
}

/// Whether a reply shows that the target has a worktree.
pub open spec fn shows_worktree(reply: Reply) -> bool {
    match reply {
        Reply::Record(Ok(Some(_)), present) => present,
        Reply::Taken(Ok(taken)) => taken,
        _ => false,
    }
}

/// The place of a step in the order that all of them are taken in.
pub open spec fn rank(step: Adding) -> int {
    match step {
        Adding::Look => 0,
        Adding::OfferSetup => 1,
        Adding::Plan => 2,
        Adding::Reuse => 3,
        Adding::Trust => 4,
        Adding::Install => 5,
        Adding::AllowDirenv => 6,
        Adding::Bootstrap => 7,
        Adding::Complete => 8,
        Adding::Ready => 9,
        Adding::Existing => -1,
    }
}

/// A worktree is created, and its setup command run, only where no worktree was found for the
/// target or its branch, and only after its commands were found to be trusted.
pub proof fn nothing_is_installed_before_trust(path: Seq<char>, list: Seq<Reply>)
    ensures
        added_by(path, list) matches Some(Ok(step)) ==> rank(step) >= 5 ==> {
            &&& list.len() == rank(step)
            &&& forall|i: int| 0 <= i < list.len() ==> !shows_worktree(#[trigger] list[i])
            &&& list[4] matches Reply::Finished(Ok(_))
            &&& added_by(path, list.take(4)) == Some(Ok::<Adding, Seq<char>>(Adding::Trust))
        },
{
    lemma_added(path, list);
}

proof fn lemma_added(path: Seq<char>, list: Seq<Reply>)
    ensures
        added_by(path, list) matches Some(Ok(step)) ==> rank(step) >= 0 ==> {
            &&& list.len() == rank(step)
            &&& forall|i: int| 0 <= i < list.len() ==> !shows_worktree(#[trigger] list[i])
            &&& rank(step) >= 4 ==> added_by(path, list.take(4)) == Some(Ok::<Adding, Seq<char>>(Adding::Trust))
            &&& rank(step) >= 5 ==> (list[4] matches Reply::Finished(Ok(_)))
        },
    decreases list.len(),
{
    if list.len() > 0 {
        let init = list.drop_last();
        lemma_added(path, init);
        match (added_by(path, init), added_by(path, list)) {
            (Some(Ok(from)), Some(Ok(to))) => {
                if rank(to) >= 0 {
                    assert(rank(from) >= 0);
                    assert forall|i: int| 0 <= i < list.len() implies !shows_worktree(#[trigger] list[i]) by {
                        if i < init.len() {
                            assert(!shows_worktree(init[i]));
                        }
                    }
                    if rank(from) >= 4 {
                        assert(init.take(4) =~= list.take(4));
                    } else if rank(to) == 4 {
                        assert(list.take(4) =~= list);
                    }
                    if rank(from) >= 5 {
                        assert(list[4] == init[4]);
                    }
                }
            },
            _ => {},
        }
    }
}

proof fn lemma_adding_step(path: Seq<char>, list: Seq<Reply>, i: int)
    requires
        0 <= i < list.len(),
    ensures
        added_by(path, list.take(i + 1)) == match added_by(path, list.take(i)) {
            Some(Ok(step)) => if replies(step, list[i]) {
                Some(added_after(step, path, list[i]))
            } else {
                None
            },
            _ => None,
        },
{
    model::step(list, i);
}

proof fn lemma_up_to_trust(path: Seq<char>, list: Seq<Reply>)
    requires
        list.len() >= 4,
        list[0] matches Reply::Record(Ok(record), present) && (record is None || !present),
        list[1] matches Reply::Finished(Ok(_)),
        list[2] matches Reply::Finished(Ok(_)),
        list[3] matches Reply::Taken(Ok(taken)) && !taken,
    ensures
        added_by(path, list.take(4)) == Some(Ok::<Adding, Seq<char>>(Adding::Trust)),
{
    assert(list.take(0) =~= Seq::empty());
    assert(added_by(path, list.take(0)) == Some(Ok::<Adding, Seq<char>>(Adding::Look)));
    lemma_adding_step(path, list, 0);
    lemma_adding_step(path, list, 1);
    lemma_adding_step(path, list, 2);
    lemma_adding_step(path, list, 3);
}

/// A worktree is added where there is none yet and every step succeeds: after trust, it is
/// installed, direnv is asked, the setup command runs, and its files are taken up. Whether direnv
/// could be asked does not matter.
pub proof fn a_new_worktree_becomes_ready(path: Seq<char>, list: Seq<Reply>)
    requires
        list.len() == 9,
        list[0] matches Reply::Record(Ok(record), present) && (record is None || !present),
        list[1] matches Reply::Finished(Ok(_)),
        list[2] matches Reply::Finished(Ok(_)),
        list[3] matches Reply::Taken(Ok(taken)) && !taken,
        list[4] matches Reply::Finished(Ok(_)),
        list[5] matches Reply::Finished(Ok(_)),
        list[6] is Finished,
        list[7] matches Reply::Finished(Ok(_)),
        list[8] matches Reply::Finished(Ok(_)),
    ensures
        added_by(path, list.take(4)) == Some(Ok::<Adding, Seq<char>>(Adding::Trust)),
        added_by(path, list.take(5)) == Some(Ok::<Adding, Seq<char>>(Adding::Install)),
        added_by(path, list.take(6)) == Some(Ok::<Adding, Seq<char>>(Adding::AllowDirenv)),
        added_by(path, list.take(7)) == Some(Ok::<Adding, Seq<char>>(Adding::Bootstrap)),
        added_by(path, list.take(8)) == Some(Ok::<Adding, Seq<char>>(Adding::Complete)),
        added_by(path, list) == Some(Ok::<Adding, Seq<char>>(Adding::Ready)),
{
    lemma_up_to_trust(path, list);
    lemma_adding_step(path, list, 4);
    lemma_adding_step(path, list, 5);
    lemma_adding_step(path, list, 6);
    lemma_adding_step(path, list, 7);
    lemma_adding_step(path, list, 8);
    model::whole(list);
}

/// A worktree that is there already is shown and not made again: where its own record and its
/// directory exist, at once; where another one has its branch, before anything is asked for trust.
pub proof fn an_existing_worktree_is_shown(path: Seq<char>, list: Seq<Reply>)
    ensures
        list.len() == 1 && (list[0] matches Reply::Record(Ok(Some(_)), true)) ==> added_by(path, list) == Some(
            Ok::<Adding, Seq<char>>(Adding::Existing),
        ),
        list.len() == 4 && (list[0] matches Reply::Record(Ok(None), _)) && (list[1] matches Reply::Finished(Ok(_))) && (
        list[2] matches Reply::Finished(Ok(_))) && (list[3] matches Reply::Taken(Ok(true))) ==> added_by(path, list)
            == Some(Ok::<Adding, Seq<char>>(Adding::Existing)),
{
    assert(list.take(0) =~= Seq::empty());
    assert(added_by(path, list.take(0)) == Some(Ok::<Adding, Seq<char>>(Adding::Look)));
    model::whole(list);
    if list.len() == 1 {
        lemma_adding_step(path, list, 0);
    }
    if list.len() == 4 {
        lemma_adding_step(path, list, 0);
        lemma_adding_step(path, list, 1);
        lemma_adding_step(path, list, 2);
        lemma_adding_step(path, list, 3);
    }
}

/// A step that fails ends adding with what it reported; only direnv may fail, and a failed setup
/// command says where the worktree was kept.
pub proof fn a_failed_step_ends_adding(step: Adding, path: Seq<char>, reply: Reply)
    requires
        replies(step, reply),
    ensures
        reply matches Reply::Record(Err(message), _) ==> added_after(step, path, reply) == Err::<Adding, Seq<char>>(
            message@,
        ),
        reply matches Reply::Taken(Err(message)) ==> added_after(step, path, reply) == Err::<Adding, Seq<char>>(
            message@,
        ),
        reply matches Reply::Finished(Err(message)) ==> added_after(step, path, reply) == match step {
            Adding::AllowDirenv => Ok::<Adding, Seq<char>>(Adding::Bootstrap),
            Adding::Bootstrap => Err::<Adding, Seq<char>>(
                "bootstrap failed; worktree kept at "@ + path + ": "@ + message@,
            ),
            _ => Err::<Adding, Seq<char>>(message@),
        },
        reply matches Reply::Finished(Ok(_)) ==> added_after(step, path, reply) is Ok,
{
}

// ---------------------------------------------------------------------------
// Failures and warnings
// ---------------------------------------------------------------------------

/// Why a worktree could not be installed, given how removing it again went.
pub fn install_worktree(failure: &str, rollback: &Result<(), String>) -> (r: String)
    ensures
        r@ == match model::outcome(*rollback) {
            Ok(_) => failure@,
            Err(cleanup) => failure@ + "; rollback also failed: "@ + cleanup,
        },
{
    match rollback {
        Ok(()) => failure.to_owned(),
        Err(cleanup) => text::concat3(failure, "; rollback also failed: ", cleanup),
    }
}

/// Whether direnv is told to load the environment of a worktree: where it has one, and the
/// environment of the checkout, which is the same, is loaded.
pub fn allow_direnv(envrc: bool, allowed: Option<bool>) -> (r: bool)
    ensures
        r == (envrc && allowed == Some(true)),
{
    match allowed {
        Some(allowed) => envrc && allowed,
        None => false,
    }
}

/// The warning where direnv could not be told.
pub fn direnv_warning(failure: &str) -> (r: String)
    ensures
        r@ == failure@ + "; run direnv allow in the worktree"@,
{
    text::concat(failure, "; run direnv allow in the worktree")
}

/// The warning about a configured file that was found nowhere.
pub fn missing_warning(path: &str) -> (r: String)
    ensures
        r@ == "configured copy path not found in checkout or after bootstrap: "@ + path@,
{
    text::concat("configured copy path not found in checkout or after bootstrap: ", path)
}

// ---------------------------------------------------------------------------
// Files made by the setup command
// ---------------------------------------------------------------------------

/// Managed files are kept in the order of their paths.
pub open spec fn copy_order() -> spec_fn((Seq<char>, Seq<char>), (Seq<char>, Seq<char>)) -> bool {
    |a: (Seq<char>, Seq<char>), b: (Seq<char>, Seq<char>)| paths::path_order()(a.0, b.0)
}

pub open spec fn other_file(path: Seq<char>) -> spec_fn((Seq<char>, Seq<char>)) -> bool {
    |copy: (Seq<char>, Seq<char>)| !paths::same_path(copy.0, path)
}

/// The managed files with one more, which takes the place of an earlier one with the same path.
pub open spec fn with_file(copies: Seq<(Seq<char>, Seq<char>)>, file: (Seq<char>, Seq<char>)) -> Seq<
    (Seq<char>, Seq<char>),
> {
    model::inserted(copies.filter(other_file(file.0)), file, copy_order())
}

pub open spec fn with_all_files(copies: Seq<(Seq<char>, Seq<char>)>, files: Seq<(Seq<char>, Seq<char>)>) -> Seq<
    (Seq<char>, Seq<char>),
>
    decreases files.len(),
{
    if files.len() == 0 {
        copies
    } else {
        with_file(with_all_files(copies, files.drop_last()), files.last())
    }
}

fn insert_file(copies: &Vec<(String, String)>, path: &str, fingerprint: &str) -> (r: Vec<(String, String)>)
    ensures
        model::pairs(r@) == with_file(model::pairs(copies@), (path@, fingerprint@)),
{
    broadcast use crate::model::lemma_pairs_push;

    let ghost all = model::pairs(copies@);
    let ghost keep = other_file(path@);
    let mut out: Vec<(String, String)> = Vec::new();
    proof {
        model::start_filter(all, keep);
        assert(model::pairs(out@) =~= Seq::empty());
    }
    for i in 0..copies.len()
        invariant
            all == model::pairs(copies@),
            keep == other_file(path@),
            model::pairs(out@) == all.take(i as int).filter(keep),
    {
        proof {
            model::step_filter(all, i as int, keep);
            assert(all[i as int] == (copies@[i as int].0@, copies@[i as int].1@));
        }
        if !paths::same(&copies[i].0, path) {
            out.push((copies[i].0.clone(), copies[i].1.clone()));
        }
    }
    proof {
        model::whole(all);
    }
    let ghost rest = model::pairs(out@);
    let ghost file = (path@, fingerprint@);
    let mut at: usize = out.len();
    while at > 0 && paths::precedes(path, &out[at - 1].0)
        invariant
            at <= out@.len(),
            rest == model::pairs(out@),
            file == (path@, fingerprint@),
            forall|k: int| at <= k < rest.len() ==> #[trigger] copy_order()(file, rest[k]),
        decreases at,
    {
        at -= 1;
        assert(rest[at as int] == (out@[at as int].0@, out@[at as int].1@));
    }
    proof {
        if at > 0 {
            assert(rest[at - 1] == (out@[at - 1].0@, out@[at - 1].1@));
        }
        model::lemma_inserted(rest, file, copy_order(), at as int);
    }
    out.insert(at, (path.to_owned(), fingerprint.to_owned()));
    assert(model::pairs(out@) =~= rest.insert(at as int, file));
    out
}

/// The record of a worktree after setup: files that the setup command made become managed files,
/// so that removal treats them like copied ones.
pub fn finish_setup(record: Option<Record>, files: &Vec<(String, String)>) -> (r: Result<Record, String>)
    ensures
        model::outcome(r) == match record {
            None => Err::<RecordData, Seq<char>>("worktree record disappeared during setup"@),
            Some(record) => Ok(
                RecordData {
                    copied_files: with_all_files(record@.copied_files, model::pairs(files@)),
                    ..record@
                },
            ),
        },
{
    let mut record = match record {
        Some(record) => record,
        None => {
            return Err("worktree record disappeared during setup".to_owned());
        },
    };
    let ghost start = record@;
    let ghost all = model::pairs(files@);
    let mut copies: Vec<(String, String)> = Vec::new();
    std::mem::swap(&mut copies, &mut record.copied_files);
    assert(all.take(0) =~= Seq::empty());
    for i in 0..files.len()
        invariant
            all == model::pairs(files@),
            model::pairs(copies@) == with_all_files(start.copied_files, all.take(i as int)),
    {
        proof {
            model::step(all, i as int);
            assert(all[i as int] == (files@[i as int].0@, files@[i as int].1@));
        }
        copies = insert_file(&copies, &files[i].0, &files[i].1);
    }
    proof {
        model::whole(all);
    }
    record.copied_files = copies;
    assert(record@ =~= (RecordData { copied_files: with_all_files(start.copied_files, all), ..start }));
    Ok(record)
}

/// Recording a file keeps its new fingerprint, and of every other file the one that was recorded;
/// nothing else is recorded.
pub proof fn recorded_files_keep_their_fingerprints(
    copies: Seq<(Seq<char>, Seq<char>)>,
    file: (Seq<char>, Seq<char>),
    other: (Seq<char>, Seq<char>),
)
    ensures
        with_file(copies, file).contains(file),
        !paths::same_path(other.0, file.0) ==> (with_file(copies, file).contains(other) <==> copies.contains(other)),
        paths::same_path(other.0, file.0) && other != file ==> !with_file(copies, file).contains(other),
{
    let keep = other_file(file.0);
    let kept = copies.filter(keep);
    model::filter_keeps(copies, keep);
    lemma_inserted_members(kept, file, copy_order(), file);
    lemma_inserted_members(kept, file, copy_order(), other);
}

proof fn lemma_inserted_members<A>(s: Seq<A>, x: A, before: spec_fn(A, A) -> bool, y: A)
    ensures
        model::inserted(s, x, before).contains(y) <==> s.contains(y) || y == x,
    decreases s.len(),
{
    let all = model::inserted(s, x, before);
    if s.len() > 0 && before(x, s.last()) {
        let init = s.drop_last();
        let inner = model::inserted(init, x, before);
        lemma_inserted_members(init, x, before, y);
        lemma_pushed_members(inner, s.last(), y);
        lemma_pushed_members(init, s.last(), y);
        assert(init.push(s.last()) =~= s);
    } else {
        lemma_pushed_members(s, x, y);
    }
}

proof fn lemma_pushed_members<A>(s: Seq<A>, x: A, y: A)
    ensures
        s.push(x).contains(y) <==> s.contains(y) || y == x,
{
    let all = s.push(x);
    if s.contains(y) {
        let i = choose|i: int| 0 <= i < s.len() && s[i] == y;
        assert(all[i] == y);
    }
    assert(all[s.len() as int] == x);
    if all.contains(y) {
        let i = choose|i: int| 0 <= i < all.len() && all[i] == y;
        if i < s.len() {
            assert(s[i] == y);
        }
    }
}

/// Every file that the setup made is recorded with its fingerprint, the last one where a path comes
/// twice, and what was recorded of other files stays.
pub proof fn every_made_file_is_recorded(
    copies: Seq<(Seq<char>, Seq<char>)>,
    files: Seq<(Seq<char>, Seq<char>)>,
    k: int,
    other: (Seq<char>, Seq<char>),
)
    ensures
        0 <= k < files.len() && (forall|j: int| k < j < files.len() ==> !paths::same_path((#[trigger] files[j]).0, files[k].0))
            ==> with_all_files(copies, files).contains(files[k]),
        copies.contains(other) && (forall|j: int|
            0 <= j < files.len() ==> !paths::same_path((#[trigger] files[j]).0, other.0)) ==> with_all_files(
            copies,
            files,
        ).contains(other),
        with_all_files(copies, files).contains(other) ==> copies.contains(other) || files.contains(other),
    decreases files.len(),
{
    if files.len() > 0 {
        let init = files.drop_last();
        let last = files[files.len() - 1];
        let before = with_all_files(copies, init);
        every_made_file_is_recorded(copies, init, k, other);
        recorded_files_keep_their_fingerprints(before, last, other);
        assert(forall|j: int| 0 <= j < init.len() ==> #[trigger] init[j] == files[j]);
        if 0 <= k < files.len() && (forall|j: int|
            k < j < files.len() ==> !paths::same_path((#[trigger] files[j]).0, files[k].0)) {
            recorded_files_keep_their_fingerprints(before, last, files[k]);
            if k < init.len() {
                assert(!paths::same_path(files[files.len() - 1].0, files[k].0));
                assert forall|j: int| k < j < init.len() implies !paths::same_path((#[trigger] init[j]).0, init[k].0) by {
                    assert(init[j] == files[j]);
                }
            }
        }
        if copies.contains(other) && (forall|j: int|
            0 <= j < files.len() ==> !paths::same_path((#[trigger] files[j]).0, other.0)) {
            assert(!paths::same_path(files[files.len() - 1].0, other.0));
            assert forall|j: int| 0 <= j < init.len() implies !paths::same_path((#[trigger] init[j]).0, other.0) by {
                assert(init[j] == files[j]);
            }
        }
        if with_all_files(copies, files).contains(other) {
            if other == last {
                assert(files[files.len() - 1] == other);
            } else if init.contains(other) {
                let i = choose|i: int| 0 <= i < init.len() && init[i] == other;
                assert(files[i] == other);
            }
        }
    }
}

} // verus!
