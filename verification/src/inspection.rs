//! Whether a worktree may be cleaned up: the questions asked of it, one by one.

use vstd::prelude::*;

use crate::model;
use crate::paths;
use crate::process;
use crate::process::Output;
use crate::pulls;
use crate::text;

verus! {

broadcast use crate::model::lemma_views_push;

/// What was found out about a worktree that may be removed.
pub enum Inspection {
    /// Merged into the base. Changes would be lost with it and need force.
    Merged { head: String, reason: String, changes: Vec<String> },
    /// The directory no longer exists; only its records remain.
    Missing,
}

pub ghost enum Found {
    Merged { head: Seq<char>, reason: Seq<char>, changes: Seq<Seq<char>> },
    Missing,
}

impl View for Inspection {
    type V = Found;

    open spec fn view(&self) -> Found {
        match self {
            Inspection::Merged { head, reason, changes } => Found::Merged {
                head: head@,
                reason: reason@,
                changes: model::views(changes@),
            },
            Inspection::Missing => Found::Missing,
        }
    }
}

/// What stands at the path of a worktree.
pub enum Place {
    Missing,
    Unavailable { message: String },
    /// Its canonical path, the canonical current directory, and whether it is linked to a
    /// repository elsewhere.
    Here { path: String, current: String, linked: bool },
}

/// What Git says of a worktree: the common directory of it and of the repository, whether it is
/// locked, and the branch that is checked out.
pub struct Checkout {
    pub common: Result<String, String>,
    pub repository_common: Result<String, String>,
    pub locked: Result<bool, String>,
    pub branch: Result<String, String>,
}

/// An answer to the question that an inspection is at.
pub enum Evidence {
    Place(Place),
    Checkout(Checkout),
    /// The current commit, and whether it is an ancestor of the base.
    Ancestry { head: Result<String, String>, output: Output },
    /// The number of the merged pull request that holds the commit.
    Pull(Result<Option<u64>, String>),
    /// The local changes that removal would lose.
    Changes(Result<Vec<String>, String>),
}

/// The question that an inspection is at, with what is known so far.
pub enum Stage {
    Place,
    Checkout,
    Ancestry,
    Pull { head: String },
    Changes { head: String, reason: String, proven: bool },
    Proof { head: String, changes: Vec<String> },
    Done(Inspection),
}

pub ghost enum StageData {
    Place,
    Checkout,
    Ancestry,
    Pull { head: Seq<char> },
    Changes { head: Seq<char>, reason: Seq<char>, proven: bool },
    Proof { head: Seq<char>, changes: Seq<Seq<char>> },
    Done(Found),
}

impl View for Stage {
    type V = StageData;

    open spec fn view(&self) -> StageData {
        match self {
            Stage::Place => StageData::Place,
            Stage::Checkout => StageData::Checkout,
            Stage::Ancestry => StageData::Ancestry,
            Stage::Pull { head } => StageData::Pull { head: head@ },
            Stage::Changes { head, reason, proven } => StageData::Changes {
                head: head@,
                reason: reason@,
                proven: *proven,
            },
            Stage::Proof { head, changes } => StageData::Proof { head: head@, changes: model::views(changes@) },
            Stage::Done(inspection) => StageData::Done(inspection@),
        }
    }
}

/// Whether an answer is one to the question.
pub open spec fn fits(stage: StageData, evidence: Evidence) -> bool {
    match stage {
        StageData::Place => evidence is Place,
        StageData::Checkout => evidence is Checkout,
        StageData::Ancestry => evidence is Ancestry,
        StageData::Pull { .. } => evidence is Pull,
        StageData::Changes { .. } => evidence is Changes,
        StageData::Proof { .. } => evidence is Pull,
        StageData::Done(_) => false,
    }
}

pub open spec fn by_ancestry(base: Seq<char>) -> Seq<char> {
    "merged into "@ + base
}

pub open spec fn by_pull(number: u64, base: Seq<char>) -> Seq<char> {
    "merged PR #"@ + text::decimal(number as nat) + " into "@ + base
}

/// A worktree must be there, must not be the current one, and must be linked to a repository.
pub open spec fn after_place(place: Place) -> Result<StageData, Seq<char>> {
    match place {
        Place::Missing => Ok(StageData::Done(Found::Missing)),
        Place::Unavailable { message } => Err(process::in_context("worktree path is unavailable"@, message@)),
        Place::Here { path, current, linked } => if paths::lies_in(current@, path@) {
            Err("current worktree"@)
        } else if !linked {
            Err("not a linked worktree"@)
        } else {
            Ok(StageData::Checkout)
        },
    }
}

/// A worktree must belong to this clone, must not be locked, and must have its own branch checked
/// out, which must not be the base.
pub open spec fn after_checkout(checkout: Checkout, branch: Seq<char>, base: Seq<char>) -> Result<StageData, Seq<char>> {
    match (
        model::outcome(checkout.common),
        model::outcome(checkout.repository_common),
        checkout.locked,
        model::outcome(checkout.branch),
    ) {
        (Err(message), _, _, _) => Err(message),
        (_, Err(message), _, _) => Err(message),
        (Ok(common), Ok(other), locked, current) => if !paths::same_path(common, other) {
            Err("worktree belongs to another clone"@)
        } else {
            match (locked, current) {
                (Err(message), _) => Err(message@),
                (Ok(true), _) => Err("worktree is locked"@),
                (_, Err(message)) => Err(process::in_context("detached or unavailable HEAD"@, message)),
                (_, Ok(current)) => if current != branch {
                    Err("checked-out branch differs from managed branch"@)
                } else if current == pulls::base_name(base) {
                    Err("base branch"@)
                } else {
                    Ok(StageData::Ancestry)
                },
            }
        },
    }
}

/// A commit that is an ancestor of the base is merged; otherwise a pull request must show it.
pub open spec fn after_ancestry(head: Result<Seq<char>, Seq<char>>, output: Output, base: Seq<char>) -> Result<
    StageData,
    Seq<char>,
> {
    match head {
        Err(message) => Err(message),
        Ok(head) => if output.code == Some(0i32) {
            Ok(StageData::Changes { head, reason: by_ancestry(base), proven: false })
        } else if output.code == Some(1i32) {
            Ok(StageData::Pull { head })
        } else {
            Err("cannot check merge status: "@ + output.complaint())
        },
    }
}

/// Without a merged pull request, a commit outside the base is unmerged work.
pub open spec fn after_pull(head: Seq<char>, pull: Result<Option<u64>, Seq<char>>, base: Seq<char>) -> Result<
    StageData,
    Seq<char>,
> {
    match pull {
        Err(message) => Err(message),
        Ok(None) => Err("no merged PR found for this branch into "@ + base),
        Ok(Some(number)) => Ok(StageData::Changes { head, reason: by_pull(number, base), proven: true }),
    }
}

/// Local changes need a merged pull request: a new branch without commits is an ancestor of the
/// base, too.
pub open spec fn after_changes(
    head: Seq<char>,
    reason: Seq<char>,
    proven: bool,
    changes: Result<Seq<Seq<char>>, Seq<char>>,
) -> Result<StageData, Seq<char>> {
    match changes {
        Err(message) => Err(message),
        Ok(changes) => if changes.len() == 0 || proven {
            Ok(StageData::Done(Found::Merged { head, reason, changes }))
        } else {
            Ok(StageData::Proof { head, changes })
        },
    }
}

/// The local change explains more than a failed or empty lookup.
pub open spec fn after_proof(
    head: Seq<char>,
    changes: Seq<Seq<char>>,
    pull: Result<Option<u64>, Seq<char>>,
    base: Seq<char>,
) -> Result<StageData, Seq<char>> {
    match pull {
        Ok(Some(number)) => Ok(StageData::Done(Found::Merged { head, reason: by_pull(number, base), changes })),
        _ => if changes.len() > 0 {
            Err(changes[0])
        } else {
            Err("no local changes"@)
        },
    }
}

/// Where an answer leads.
pub open spec fn inspected(stage: StageData, branch: Seq<char>, base: Seq<char>, evidence: Evidence) -> Result<
    StageData,
    Seq<char>,
> {
    match (stage, evidence) {
        (StageData::Place, Evidence::Place(place)) => after_place(place),
        (StageData::Checkout, Evidence::Checkout(checkout)) => after_checkout(checkout, branch, base),
        (StageData::Ancestry, Evidence::Ancestry { head, output }) => after_ancestry(
            model::outcome(head),
            output,
            base,
        ),
        (StageData::Pull { head }, Evidence::Pull(pull)) => after_pull(head, model::outcome(pull), base),
        (StageData::Changes { head, reason, proven }, Evidence::Changes(changes)) => after_changes(
            head,
            reason,
            proven,
            model::outcome_list(changes),
        ),
        (StageData::Proof { head, changes }, Evidence::Pull(pull)) => after_proof(
            head,
            changes,
            model::outcome(pull),
            base,
        ),
        _ => Err("unexpected answer"@),
    }
}

fn pull_reason(number: u64, base: &str) -> (r: String)
    ensures
        r@ == by_pull(number, base@),
{
    let mut reason = text::concat3("merged PR #", &text::to_decimal(number), " into ");
    reason.append(base);
    reason
}

fn on_place(place: Place) -> (r: Result<Stage, String>)
    ensures
        model::outcome(r) == after_place(place),
{
    match place {
        Place::Missing => Ok(Stage::Done(Inspection::Missing)),
        Place::Unavailable { message } => Err(process::with_context("worktree path is unavailable", &message)),
        Place::Here { path, current, linked } => {
            if paths::starts_with(&current, &path) {
                Err("current worktree".to_owned())
            } else if !linked {
                Err("not a linked worktree".to_owned())
            } else {
                Ok(Stage::Checkout)
            }
        },
    }
}

fn on_checkout(checkout: Checkout, branch: &str, base: &str) -> (r: Result<Stage, String>)
    ensures
        model::outcome(r) == after_checkout(checkout, branch@, base@),
{
    let common = match checkout.common {
        Ok(common) => common,
        Err(message) => {
            return Err(message);
        },
    };
    let other = match checkout.repository_common {
        Ok(other) => other,
        Err(message) => {
            return Err(message);
        },
    };
    if !paths::same(&common, &other) {
        return Err("worktree belongs to another clone".to_owned());
    }
    match checkout.locked {
        Ok(locked) => {
            if locked {
                return Err("worktree is locked".to_owned());
            }
        },
        Err(message) => {
            return Err(message);
        },
    }
    let current = match checkout.branch {
        Ok(current) => current,
        Err(message) => {
            return Err(process::with_context("detached or unavailable HEAD", &message));
        },
    };
    if !text::same(&current, branch) {
        return Err("checked-out branch differs from managed branch".to_owned());
    }
    if text::same(&current, &pulls::short_base(base)) {
        return Err("base branch".to_owned());
    }
    Ok(Stage::Ancestry)
}

fn on_ancestry(head: Result<String, String>, output: Output, base: &str) -> (r: Result<Stage, String>)
    ensures
        model::outcome(r) == after_ancestry(model::outcome(head), output, base@),
{
    let head = match head {
        Ok(head) => head,
        Err(message) => {
            return Err(message);
        },
    };
    match output.code {
        Some(code) => {
            if code == 0 {
                return Ok(Stage::Changes { head, reason: text::concat("merged into ", base), proven: false });
            }
            if code == 1 {
                return Ok(Stage::Pull { head });
            }
        },
        None => {},
    }
    Err(text::concat("cannot check merge status: ", &output.complaint_text()))
}

fn on_pull(head: String, pull: Result<Option<u64>, String>, base: &str) -> (r: Result<Stage, String>)
    ensures
        model::outcome(r) == after_pull(head@, model::outcome(pull), base@),
{
    match pull {
        Err(message) => Err(message),
        Ok(None) => Err(text::concat("no merged PR found for this branch into ", base)),
        Ok(Some(number)) => Ok(Stage::Changes { head, reason: pull_reason(number, base), proven: true }),
    }
}

fn on_changes(head: String, reason: String, proven: bool, changes: Result<Vec<String>, String>) -> (r: Result<
    Stage,
    String,
>)
    ensures
        model::outcome(r) == after_changes(head@, reason@, proven, model::outcome_list(changes)),
{
    match changes {
        Err(message) => Err(message),
        Ok(changes) => {
            if changes.len() == 0 || proven {
                Ok(Stage::Done(Inspection::Merged { head, reason, changes }))
            } else {
                Ok(Stage::Proof { head, changes })
            }
        },
    }
}

fn on_proof(head: String, changes: Vec<String>, pull: Result<Option<u64>, String>, base: &str) -> (r: Result<
    Stage,
    String,
>)
    ensures
        model::outcome(r) == after_proof(head@, model::views(changes@), model::outcome(pull), base@),
{
    match pull {
        Ok(Some(number)) => Ok(
            Stage::Done(Inspection::Merged { head, reason: pull_reason(number, base), changes }),
        ),
        _ => {
            if changes.len() > 0 {
                assert(model::views(changes@)[0] == changes@[0]@);
                Err(changes[0].clone())
            } else {
                Err("no local changes".to_owned())
            }
        },
    }
}

/// Goes on with an inspection: the next question, what was found, or why the worktree is kept.
pub fn clean_candidate(stage: Stage, branch: &str, base: &str, evidence: Evidence) -> (r: Result<Stage, String>)
    requires
        fits(stage@, evidence),
    ensures
        model::outcome(r) == inspected(stage@, branch@, base@, evidence),
{
    match (stage, evidence) {
        (Stage::Place, Evidence::Place(place)) => on_place(place),
        (Stage::Checkout, Evidence::Checkout(checkout)) => on_checkout(checkout, branch, base),
        (Stage::Ancestry, Evidence::Ancestry { head, output }) => on_ancestry(head, output, base),
        (Stage::Pull { head }, Evidence::Pull(pull)) => on_pull(head, pull, base),
        (Stage::Changes { head, reason, proven }, Evidence::Changes(changes)) => on_changes(
            head,
            reason,
            proven,
            changes,
        ),
        (Stage::Proof { head, changes }, Evidence::Pull(pull)) => on_proof(head, changes, pull, base),
        _ => Err("unexpected answer".to_owned()),
    }
}

// ---------------------------------------------------------------------------
// What an inspection guarantees
// ---------------------------------------------------------------------------

/// Where a sequence of answers leads from the start.
pub open spec fn inspected_by(branch: Seq<char>, base: Seq<char>, answers: Seq<Evidence>) -> Result<StageData, Seq<char>>
    decreases answers.len(),
{
    if answers.len() == 0 {
        Ok(StageData::Place)
    } else {
        match inspected_by(branch, base, answers.drop_last()) {
            Ok(stage) => inspected(stage, branch, base, answers.last()),
            Err(message) => Err(message),
        }
    }
}

/// Whether an answer shows that the commit is an ancestor of the base.
pub open spec fn shows_ancestry(evidence: Evidence) -> bool {
    evidence matches Evidence::Ancestry { output, .. } && output.success()
}

/// Whether an answer shows a merged pull request that holds the commit.
pub open spec fn shows_pull(evidence: Evidence) -> bool {
    evidence matches Evidence::Pull(Ok(Some(_)))
}

/// Whether an answer names the commit that the worktree is at.
pub open spec fn shows_head(evidence: Evidence, head: Seq<char>) -> bool {
    evidence matches Evidence::Ancestry { head: Ok(h), .. } && h@ == head
}

/// Whether an answer lists exactly these local changes.
pub open spec fn shows_changes(evidence: Evidence, changes: Seq<Seq<char>>) -> bool {
    evidence matches Evidence::Changes(Ok(list)) && model::views(list@) == changes
}

/// Whether one of the answers satisfies `p`.
pub open spec fn shown(answers: Seq<Evidence>, p: spec_fn(Evidence) -> bool) -> bool {
    exists|i: int| 0 <= i < answers.len() && p(#[trigger] answers[i])
}

/// What the answers must have shown by the time a stage is reached.
spec fn earned(stage: StageData, answers: Seq<Evidence>) -> bool {
    match stage {
        StageData::Pull { head } => shown(answers, |e: Evidence| shows_head(e, head)),
        StageData::Changes { head, proven, .. } => {
            &&& shown(answers, |e: Evidence| shows_head(e, head))
            &&& shown(answers, |e: Evidence| shows_ancestry(e)) || shown(answers, |e: Evidence| shows_pull(e))
            &&& proven ==> shown(answers, |e: Evidence| shows_pull(e))
        },
        StageData::Proof { head, changes } => {
            &&& shown(answers, |e: Evidence| shows_head(e, head))
            &&& shown(answers, |e: Evidence| shows_ancestry(e)) || shown(answers, |e: Evidence| shows_pull(e))
            &&& shown(answers, |e: Evidence| shows_changes(e, changes))
        },
        StageData::Done(Found::Merged { head, changes, .. }) => {
            &&& shown(answers, |e: Evidence| shows_head(e, head))
            &&& shown(answers, |e: Evidence| shows_ancestry(e)) || shown(answers, |e: Evidence| shows_pull(e))
            &&& shown(answers, |e: Evidence| shows_changes(e, changes))
            &&& changes.len() > 0 ==> shown(answers, |e: Evidence| shows_pull(e))
        },
        _ => true,
    }
}

proof fn lemma_shown_more(answers: Seq<Evidence>, p: spec_fn(Evidence) -> bool)
    requires
        answers.len() > 0,
    ensures
        shown(answers.drop_last(), p) || p(answers.last()) ==> shown(answers, p),
{
    if shown(answers.drop_last(), p) {
        let i = choose|i: int| 0 <= i < answers.drop_last().len() && p(#[trigger] answers.drop_last()[i]);
        assert(p(answers[i]));
    }
    if p(answers.last()) {
        assert(p(answers[answers.len() - 1]));
    }
}

proof fn lemma_earned(branch: Seq<char>, base: Seq<char>, answers: Seq<Evidence>)
    ensures
        inspected_by(branch, base, answers) matches Ok(stage) ==> earned(stage, answers),
    decreases answers.len(),
{
    if answers.len() > 0 {
        let before = answers.drop_last();
        lemma_earned(branch, base, before);
        match (inspected_by(branch, base, before), inspected_by(branch, base, answers)) {
            (Ok(from), Ok(to)) => {
                lemma_shown_more(answers, |e: Evidence| shows_ancestry(e));
                lemma_shown_more(answers, |e: Evidence| shows_pull(e));
                match to {
                    StageData::Pull { head } => {
                        lemma_shown_more(answers, |e: Evidence| shows_head(e, head));
                    },
                    StageData::Changes { head, .. } => {
                        lemma_shown_more(answers, |e: Evidence| shows_head(e, head));
                    },
                    StageData::Proof { head, changes } => {
                        lemma_shown_more(answers, |e: Evidence| shows_head(e, head));
                        lemma_shown_more(answers, |e: Evidence| shows_changes(e, changes));
                    },
                    StageData::Done(Found::Merged { head, changes, .. }) => {
                        lemma_shown_more(answers, |e: Evidence| shows_head(e, head));
                        lemma_shown_more(answers, |e: Evidence| shows_changes(e, changes));
                    },
                    _ => {},
                }
            },
            _ => {},
        }
    }
}

/// Unmerged work is never offered for removal, whatever the answers: a worktree is found merged
/// only where the answers show that its commit is an ancestor of the base or part of a merged pull
/// request, and where it has local changes, only with such a pull request.
pub proof fn unmerged_work_is_never_offered(branch: Seq<char>, base: Seq<char>, answers: Seq<Evidence>)
    ensures
        inspected_by(branch, base, answers) matches Ok(StageData::Done(Found::Merged { head, changes, .. })) ==> {
            &&& shown(answers, |e: Evidence| shows_head(e, head))
            &&& shown(answers, |e: Evidence| shows_ancestry(e)) || shown(answers, |e: Evidence| shows_pull(e))
            &&& shown(answers, |e: Evidence| shows_changes(e, changes))
            &&& changes.len() > 0 ==> shown(answers, |e: Evidence| shows_pull(e))
        },
{
    lemma_earned(branch, base, answers);
}

/// Whether an answer shows a linked worktree that the command does not run in.
pub open spec fn shows_idle(evidence: Evidence) -> bool {
    evidence matches Evidence::Place(Place::Here { path, current, linked }) && linked && !paths::lies_in(
        current@,
        path@,
    )
}

/// Whether an answer shows a worktree of this clone that is not locked and has its own branch
/// checked out, which is not the base.
pub open spec fn shows_own(evidence: Evidence, branch: Seq<char>, base: Seq<char>) -> bool {
    evidence matches Evidence::Checkout(checkout) && {
        &&& checkout.common matches Ok(common) && checkout.repository_common matches Ok(other) && paths::same_path(
            common@,
            other@,
        )
        &&& checkout.locked == Ok::<bool, String>(false)
        &&& checkout.branch matches Ok(current) && current@ == branch
        &&& branch != pulls::base_name(base)
    }
}

proof fn lemma_entered(branch: Seq<char>, base: Seq<char>, answers: Seq<Evidence>)
    ensures
        inspected_by(branch, base, answers) matches Ok(stage) ==> {
            let idle = shown(answers, |e: Evidence| shows_idle(e));
            let own = shown(answers, |e: Evidence| shows_own(e, branch, base));
            match stage {
                StageData::Place => true,
                StageData::Done(Found::Missing) => true,
                StageData::Checkout => idle,
                _ => idle && own,
            }
        },
    decreases answers.len(),
{
    if answers.len() > 0 {
        lemma_entered(branch, base, answers.drop_last());
        lemma_shown_more(answers, |e: Evidence| shows_idle(e));
        lemma_shown_more(answers, |e: Evidence| shows_own(e, branch, base));
    }
}

/// A worktree that is current, locked, of another clone, detached, switched or on the base branch
/// is never found merged, whatever the answers.
pub proof fn only_own_idle_worktrees_are_offered(branch: Seq<char>, base: Seq<char>, answers: Seq<Evidence>)
    ensures
        inspected_by(branch, base, answers) matches Ok(StageData::Done(Found::Merged { .. })) ==> {
            &&& shown(answers, |e: Evidence| shows_idle(e))
            &&& shown(answers, |e: Evidence| shows_own(e, branch, base))
        },
{
    lemma_entered(branch, base, answers);
}

proof fn lemma_inspection_step(branch: Seq<char>, base: Seq<char>, answers: Seq<Evidence>, i: int)
    requires
        0 <= i < answers.len(),
    ensures
        inspected_by(branch, base, answers.take(i + 1)) == match inspected_by(branch, base, answers.take(i)) {
            Ok(stage) => inspected(stage, branch, base, answers[i]),
            Err(message) => Err(message),
        },
{
    model::step(answers, i);
}

/// The first two answers let an inspection go on exactly where the worktree is linked, is not the
/// current one, belongs to the clone, is not locked and has its own branch checked out, which is not
/// the base.
proof fn lemma_own_and_idle(branch: Seq<char>, base: Seq<char>, answers: Seq<Evidence>)
    requires
        answers.len() >= 2,
        answers[0] matches Evidence::Place(Place::Here { .. }),
        answers[1] is Checkout,
    ensures
        shows_idle(answers[0]) && shows_own(answers[1], branch, base) ==> inspected_by(branch, base, answers.take(2))
            == Ok::<StageData, Seq<char>>(StageData::Ancestry),
        !(shows_idle(answers[0]) && shows_own(answers[1], branch, base)) ==> inspected_by(
            branch,
            base,
            answers.take(2),
        ) is Err,
{
    assert(answers.take(0) =~= Seq::empty());
    assert(inspected_by(branch, base, answers.take(0)) == Ok::<StageData, Seq<char>>(StageData::Place));
    lemma_inspection_step(branch, base, answers, 0);
    lemma_inspection_step(branch, base, answers, 1);
}

/// A worktree whose commit is part of the base and that has no local changes is offered for removal,
/// with that commit and that reason.
pub proof fn a_merged_worktree_is_offered(branch: Seq<char>, base: Seq<char>, answers: Seq<Evidence>)
    requires
        answers.len() == 4,
        shows_idle(answers[0]),
        shows_own(answers[1], branch, base),
        answers[2] matches Evidence::Ancestry { head: Ok(_), output } && output.code == Some(0i32),
        answers[3] matches Evidence::Changes(Ok(changes)) && changes@.len() == 0,
    ensures
        answers[2] matches Evidence::Ancestry { head: Ok(head), .. } && inspected_by(branch, base, answers) == Ok::<
            StageData,
            Seq<char>,
        >(
            StageData::Done(
                Found::Merged { head: head@, reason: "merged into "@ + base, changes: Seq::<Seq<char>>::empty() },
            ),
        ),
{
    lemma_own_and_idle(branch, base, answers);
    lemma_inspection_step(branch, base, answers, 2);
    lemma_inspection_step(branch, base, answers, 3);
    model::whole(answers);
    let changes = answers[3]->Changes_0->Ok_0;
    assert(model::views(changes@) =~= Seq::<Seq<char>>::empty());
}

/// A worktree whose commit was merged through a pull request is offered for removal, with its local
/// changes if it has any; without such a pull request it is not offered.
pub proof fn a_worktree_merged_by_pull_request_is_offered(branch: Seq<char>, base: Seq<char>, answers: Seq<Evidence>)
    requires
        answers.len() == 5,
        shows_idle(answers[0]),
        shows_own(answers[1], branch, base),
        answers[2] matches Evidence::Ancestry { head: Ok(_), output } && output.code == Some(1i32),
        answers[3] is Pull,
        answers[4] matches Evidence::Changes(Ok(_)),
    ensures
        answers[3] matches Evidence::Pull(Ok(Some(number))) ==> (answers[2] matches Evidence::Ancestry {
            head: Ok(head),
            ..
        } && answers[4] matches Evidence::Changes(Ok(changes)) && inspected_by(branch, base, answers) == Ok::<
            StageData,
            Seq<char>,
        >(
            StageData::Done(
                Found::Merged {
                    head: head@,
                    reason: "merged PR #"@ + text::decimal(number as nat) + " into "@ + base,
                    changes: model::views(changes@),
                },
            ),
        )),
        answers[3] matches Evidence::Pull(Ok(None)) ==> inspected_by(branch, base, answers) == Err::<
            StageData,
            Seq<char>,
        >("no merged PR found for this branch into "@ + base),
        answers[3] matches Evidence::Pull(Err(message)) ==> inspected_by(branch, base, answers) == Err::<
            StageData,
            Seq<char>,
        >(message@),
{
    lemma_own_and_idle(branch, base, answers);
    lemma_inspection_step(branch, base, answers, 2);
    lemma_inspection_step(branch, base, answers, 3);
    lemma_inspection_step(branch, base, answers, 4);
    model::whole(answers);
}

/// A worktree whose commit is part of the base but that has local changes is offered only where a
/// merged pull request shows that its work is done; otherwise its first change is the answer.
pub proof fn changes_need_a_pull_request(branch: Seq<char>, base: Seq<char>, answers: Seq<Evidence>)
    requires
        answers.len() == 5,
        shows_idle(answers[0]),
        shows_own(answers[1], branch, base),
        answers[2] matches Evidence::Ancestry { head: Ok(_), output } && output.code == Some(0i32),
        answers[3] matches Evidence::Changes(Ok(changes)) && changes@.len() > 0,
        answers[4] is Pull,
    ensures
        answers[2] matches Evidence::Ancestry { head: Ok(head), .. } && answers[3] matches Evidence::Changes(
            Ok(changes),
        ) && (answers[4] matches Evidence::Pull(Ok(Some(number))) ==> inspected_by(branch, base, answers) == Ok::<
            StageData,
            Seq<char>,
        >(
            StageData::Done(
                Found::Merged {
                    head: head@,
                    reason: "merged PR #"@ + text::decimal(number as nat) + " into "@ + base,
                    changes: model::views(changes@),
                },
            ),
        )) && (!(answers[4] matches Evidence::Pull(Ok(Some(_)))) ==> inspected_by(branch, base, answers) == Err::<
            StageData,
            Seq<char>,
        >(changes@[0]@)),
{
    lemma_own_and_idle(branch, base, answers);
    lemma_inspection_step(branch, base, answers, 2);
    lemma_inspection_step(branch, base, answers, 3);
    lemma_inspection_step(branch, base, answers, 4);
    model::whole(answers);
    let changes = answers[3]->Changes_0->Ok_0;
    assert(model::views(changes@).len() > 0);
    assert(model::views(changes@)[0] == changes@[0]@);
}

/// A worktree whose directory is gone is offered at once, so that its record can be dropped; one that
/// cannot be looked at, is the current one, is locked or is not its clone's own is never offered,
/// whatever comes after.
pub proof fn only_missing_worktrees_are_offered_at_once(branch: Seq<char>, base: Seq<char>, answers: Seq<Evidence>)
    requires
        answers.len() >= 2,
        answers[0] is Place,
        answers[1] is Checkout,
    ensures
        answers[0] matches Evidence::Place(Place::Missing) ==> inspected_by(branch, base, answers.take(1)) == Ok::<
            StageData,
            Seq<char>,
        >(StageData::Done(Found::Missing)),
        answers[0] matches Evidence::Place(Place::Unavailable { .. }) ==> inspected_by(branch, base, answers.take(2)) is Err,
        answers[0] matches Evidence::Place(Place::Here { path, current, linked }) ==> {
            &&& paths::lies_in(current@, path@) ==> inspected_by(branch, base, answers.take(2)) == Err::<
                StageData,
                Seq<char>,
            >("current worktree"@)
            &&& !paths::lies_in(current@, path@) && !linked ==> inspected_by(branch, base, answers.take(2)) == Err::<
                StageData,
                Seq<char>,
            >("not a linked worktree"@)
            &&& !(shows_idle(answers[0]) && shows_own(answers[1], branch, base)) ==> inspected_by(
                branch,
                base,
                answers.take(2),
            ) is Err
        },
{
    if answers[0] matches Evidence::Place(Place::Here { .. }) {
        lemma_own_and_idle(branch, base, answers);
    }
    assert(answers.take(0) =~= Seq::empty());
    assert(inspected_by(branch, base, answers.take(0)) == Ok::<StageData, Seq<char>>(StageData::Place));
    lemma_inspection_step(branch, base, answers, 0);
    lemma_inspection_step(branch, base, answers, 1);
}

/// An inspection that failed stays failed, with the same reason.
pub proof fn a_failed_inspection_stays_failed(
    branch: Seq<char>,
    base: Seq<char>,
    answers: Seq<Evidence>,
    more: Seq<Evidence>,
)
    requires
        inspected_by(branch, base, answers) is Err,
    ensures
        inspected_by(branch, base, answers + more) == inspected_by(branch, base, answers),
    decreases more.len(),
{
    if more.len() == 0 {
        assert(answers + more =~= answers);
    } else {
        let all = answers + more;
        assert(all.drop_last() =~= answers + more.drop_last());
        a_failed_inspection_stays_failed(branch, base, answers, more.drop_last());
    }
}

} // verus!
