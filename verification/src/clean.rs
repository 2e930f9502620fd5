//! Cleaning up merged worktrees: the preview, what may be removed, and how each removal proceeds.

use vstd::prelude::*;

use crate::inspection::{Found, Inspection};
use crate::model;
use crate::process;
use crate::process::Output;
use crate::state;
use crate::state::{Record, RecordData, Store};
use crate::text;
use crate::ui;
use crate::ui::{Row, Screen};

verus! {

broadcast use crate::model::lemma_views_push;

// ---------------------------------------------------------------------------
// Which worktrees
// ---------------------------------------------------------------------------

/// Whether a record belongs to a repository.
pub open spec fn ours(repository: Seq<char>) -> spec_fn(RecordData) -> bool {
    |r: RecordData| text::same_ignoring_case(r.repository, repository)
}

/// A record belongs to its repository however the repository's name is written in large and small
/// letters, and to no other; no record of the repository is left out, whatever its issue, branch or
/// path.
pub proof fn records_belong_to_their_repository(records: Seq<RecordData>, repository: Seq<char>)
    ensures
        forall|k: int|
            0 <= k < records.len() ==> (records.filter(ours(repository)).contains(#[trigger] records[k])
                <==> text::lower_text(records[k].repository) == text::lower_text(repository)),
        forall|record: RecordData| #[trigger]
            records.filter(ours(repository)).contains(record) ==> records.contains(record),
{
    model::filter_keeps(records, ours(repository));
    assert forall|k: int| 0 <= k < records.len() implies (records.filter(ours(repository)).contains(
        #[trigger] records[k],
    ) <==> text::lower_text(records[k].repository) == text::lower_text(repository)) by {
        assert(records.contains(records[k]));
    }
}

/// The worktrees to clean are those of the repository, each once, in the order of their branches.
pub proof fn worktrees_are_cleaned_in_order(records: Seq<RecordData>, repository: Seq<char>)
    ensures
        ({
            let cleaned = model::sorted(records.filter(ours(repository)), branch_order());
            &&& cleaned.to_multiset() == records.filter(ours(repository)).to_multiset()
            &&& forall|i: int, j: int|
                0 <= i < j < cleaned.len() ==> !text::less((#[trigger] cleaned[j]).branch, (#[trigger] cleaned[i]).branch)
            &&& forall|record: RecordData| #[trigger]
                cleaned.contains(record) <==> records.contains(record) && text::lower_text(record.repository)
                    == text::lower_text(repository)
        }),
{
    let own = records.filter(ours(repository));
    let before = branch_order();
    text::text_order_is_total();
    let order = text::text_order();
    model::lemma_total_is_weak(order);
    assert forall|a: RecordData, b: RecordData| #[trigger] before(a, b) implies !before(b, a) by {
        assert(order(a.branch, b.branch));
    }
    assert forall|a: RecordData, b: RecordData, c: RecordData|
        !#[trigger] before(a, b) && !#[trigger] before(b, c) implies !before(a, c) by {
        assert(!order(a.branch, b.branch) && !order(b.branch, c.branch));
    }
    model::sorting_orders(own, before);
    model::filter_keeps(records, ours(repository));
    let cleaned = model::sorted(own, before);
    assert forall|i: int, j: int| 0 <= i < j < cleaned.len() implies !text::less(
        (#[trigger] cleaned[j]).branch,
        (#[trigger] cleaned[i]).branch,
    ) by {
        assert(!before(cleaned[j], cleaned[i]));
    }
}

/// Records in the order of their branches.
pub open spec fn branch_order() -> spec_fn(RecordData, RecordData) -> bool {
    |a: RecordData, b: RecordData| text::less(a.branch, b.branch)
}

/// The records of a repository, in their order.
pub fn of_repository(records: &Vec<Record>, repository: &str) -> (r: Vec<Record>)
    ensures
        state::record_views(r@) == state::record_views(records@).filter(ours(repository@)),
{
    let ghost all = state::record_views(records@);
    let ghost keep = ours(repository@);
    let mut out: Vec<Record> = Vec::new();
    proof {
        model::start_filter(all, keep);
        assert(state::record_views(out@) =~= Seq::empty());
    }
    for i in 0..records.len()
        invariant
            all == state::record_views(records@),
            keep == ours(repository@),
            state::record_views(out@) == all.take(i as int).filter(keep),
    {
        let ghost before = state::record_views(out@);
        proof {
            model::step_filter(all, i as int, keep);
            assert(all[i as int] == records@[i as int]@);
        }
        if text::eq_ignore_ascii_case(&records[i].repository, repository) {
            let record = records[i].clone();
            out.push(record);
            assert(state::record_views(out@) =~= before.push(record@));
        }
    }
    proof {
        model::whole(all);
    }
    out
}

/// The records that cleaning looks at: those of the repository, in the order of their branches.
pub fn clean_records(records: &Vec<Record>, repository: &str) -> (r: Vec<Record>)
    ensures
        state::record_views(r@) == model::sorted(
            state::record_views(records@).filter(ours(repository@)),
            branch_order(),
        ),
{
    let list = of_repository(records, repository);
    let ghost all = state::record_views(list@);
    let ghost before_fn = branch_order();
    let mut out: Vec<Record> = Vec::new();
    assert(state::record_views(out@) =~= model::sorted(all.take(0), before_fn));
    for i in 0..list.len()
        invariant
            all == state::record_views(list@),
            before_fn == branch_order(),
            state::record_views(out@) == model::sorted(all.take(i as int), before_fn),
    {
        let ghost done = state::record_views(out@);
        let mut at: usize = out.len();
        while at > 0 && text::precedes(&list[i].branch, &out[at - 1].branch)
            invariant
                i < list@.len(),
                at <= out@.len(),
                before_fn == branch_order(),
                done == state::record_views(out@),
                forall|k: int| at <= k < out@.len() ==> #[trigger] before_fn(list@[i as int]@, done[k]),
            decreases at,
        {
            at -= 1;
        }
        let item = list[i].clone();
        proof {
            model::step(all, i as int);
            if at > 0 {
                assert(done[at - 1] == out@[at - 1]@);
            }
            model::lemma_inserted(done, item@, before_fn, at as int);
        }
        out.insert(at, item);
        assert(state::record_views(out@) =~= done.insert(at as int, item@));
    }
    proof {
        model::whole(all);
    }
    out
}

/// How many worktrees each of at most four workers inspects.
pub fn chunk_size(count: usize) -> (r: usize)
    requires
        count > 0,
    ensures
        r > 0,
        4 * r >= count,
        4 * (r - 1) < count,
{
    count / 4 + if count % 4 == 0 {
        0
    } else {
        1
    }
}

/// How many worktrees are removed at a time; raw logs stay readable one at a time.
pub fn workers(verbose: bool, total: usize) -> (r: usize)
    ensures
        r == if verbose {
            1
        } else if total < 4 {
            total
        } else {
            4
        },
{
    if verbose {
        1
    } else if total < 4 {
        total
    } else {
        4
    }
}

// ---------------------------------------------------------------------------
// Candidates
// ---------------------------------------------------------------------------

/// A worktree that may be removed, and what was found out about it.
pub struct Candidate {
    pub record: Record,
    pub inspection: Inspection,
}

pub ghost struct CandidateData {
    pub record: RecordData,
    pub found: Found,
}

impl View for Candidate {
    type V = CandidateData;

    open spec fn view(&self) -> CandidateData {
        CandidateData { record: self.record@, found: self.inspection@ }
    }
}

pub open spec fn candidate_views(list: Seq<Candidate>) -> Seq<CandidateData> {
    list.map_values(|c: Candidate| c@)
}

/// Whether removal would lose local changes; a missing directory has nothing left to lose.
pub open spec fn loses_changes(found: Found) -> bool {
    found matches Found::Merged { changes, .. } && changes.len() > 0
}

/// A reason in fewer words.
pub open spec fn short(reason: Seq<char>) -> Seq<char> {
    text::replaced(
        text::replaced(
            text::replaced(reason, "worktree contains an unmanaged file: "@, "Unmanaged: "@),
            "worktree contains tracked changes: "@,
            "Modified: "@,
        ),
        "no merged PR found for this branch into "@,
        "No merged PR into "@,
    )
}

pub fn short_reason(reason: &str) -> (r: String)
    ensures
        r@ == short(reason@),
{
    proof {
        reveal_strlit("worktree contains an unmanaged file: ");
        reveal_strlit("worktree contains tracked changes: ");
        reveal_strlit("no merged PR found for this branch into ");
    }
    text::replace(
        &text::replace(
            &text::replace(reason, "worktree contains an unmanaged file: ", "Unmanaged: "),
            "worktree contains tracked changes: ",
            "Modified: ",
        ),
        "no merged PR found for this branch into ",
        "No merged PR into ",
    )
}

/// Why a worktree may be removed, and what it would lose.
pub open spec fn reason_of(found: Found) -> Seq<char> {
    match found {
        Found::Merged { reason, changes, .. } => if changes.len() == 0 {
            reason
        } else if changes.len() == 1 {
            reason + "; "@ + short(changes[0])
        } else {
            reason + "; "@ + short(changes[0]) + " (+"@ + text::decimal((changes.len() - 1) as nat) + " more)"@
        },
        Found::Missing => "worktree path is missing"@,
    }
}

fn copy_inspection(inspection: &Inspection) -> (r: Inspection)
    ensures
        r@ == inspection@,
{
    match inspection {
        Inspection::Merged { head, reason, changes } => Inspection::Merged {
            head: head.clone(),
            reason: reason.clone(),
            changes: text::copies_of(changes),
        },
        Inspection::Missing => Inspection::Missing,
    }
}

impl Candidate {
    pub fn needs_force(&self) -> (r: bool)
        ensures
            r == loses_changes(self@.found),
    {
        match &self.inspection {
            Inspection::Merged { changes, .. } => changes.len() > 0,
            Inspection::Missing => false,
        }
    }

    pub fn reason(&self) -> (r: String)
        ensures
            r@ == reason_of(self@.found),
    {
        match &self.inspection {
            Inspection::Merged { reason, changes, .. } => {
                let count: usize = changes.len();
                if count == 0 {
                    return reason.clone();
                }
                assert(model::views(changes@)[0] == changes@[0]@);
                let mut out = text::concat3(reason, "; ", &short_reason(&changes[0]));
                if count > 1 {
                    out.append(" (+");
                    out.append(&text::to_decimal((count - 1) as u64));
                    out.append(" more)");
                }
                out
            },
            Inspection::Missing => "worktree path is missing".to_owned(),
        }
    }
}

// ---------------------------------------------------------------------------
// The preview
// ---------------------------------------------------------------------------

/// What cleaning would do: remove, remove only with force, or leave alone for a reason.
pub struct Preview {
    pub candidates: Vec<Candidate>,
    pub forced: Vec<Candidate>,
    pub skipped: Vec<(Record, String)>,
}

pub open spec fn skipped_views(list: Seq<(Record, String)>) -> Seq<(RecordData, Seq<char>)> {
    list.map_values(|s: (Record, String)| (s.0@, s.1@))
}

/// Records with what their inspections came to.
pub open spec fn inspected_records(records: Seq<Record>, inspections: Seq<Result<Inspection, String>>) -> Seq<
    (RecordData, Result<Found, Seq<char>>),
> {
    Seq::new(records.len(), |i: int| (records[i]@, model::outcome(inspections[i])))
}

/// A worktree that is removed: one that may be, and loses nothing unless force is given.
pub open spec fn ready(force: bool) -> spec_fn((RecordData, Result<Found, Seq<char>>)) -> Option<CandidateData> {
    |i: (RecordData, Result<Found, Seq<char>>)|
        match i.1 {
            Ok(found) => if !loses_changes(found) || force {
                Some(CandidateData { record: i.0, found })
            } else {
                None
            },
            Err(_) => None,
        }
}

/// A worktree that is removed only with force.
pub open spec fn held_back(force: bool) -> spec_fn((RecordData, Result<Found, Seq<char>>)) -> Option<CandidateData> {
    |i: (RecordData, Result<Found, Seq<char>>)|
        match i.1 {
            Ok(found) => if loses_changes(found) && !force {
                Some(CandidateData { record: i.0, found })
            } else {
                None
            },
            Err(_) => None,
        }
}

/// A worktree that is left alone.
pub open spec fn left_alone() -> spec_fn((RecordData, Result<Found, Seq<char>>)) -> Option<(RecordData, Seq<char>)> {
    |i: (RecordData, Result<Found, Seq<char>>)|
        match i.1 {
            Ok(_) => None,
            Err(message) => Some((i.0, message)),
        }
}

pub fn partition(records: &Vec<Record>, inspections: &Vec<Result<Inspection, String>>, force: bool) -> (r: Preview)
    requires
        records@.len() == inspections@.len(),
    ensures
        ({
            let all = inspected_records(records@, inspections@);
            &&& candidate_views(r.candidates@) == all.filter_map(ready(force))
            &&& candidate_views(r.forced@) == all.filter_map(held_back(force))
            &&& skipped_views(r.skipped@) == all.filter_map(left_alone())
        }),
{
    let ghost all = inspected_records(records@, inspections@);
    let mut candidates: Vec<Candidate> = Vec::new();
    let mut forced: Vec<Candidate> = Vec::new();
    let mut skipped: Vec<(Record, String)> = Vec::new();
    proof {
        model::start_filter_map(all, ready(force));
        model::start_filter_map(all, held_back(force));
        model::start_filter_map(all, left_alone());
        assert(candidate_views(candidates@) =~= Seq::empty());
        assert(candidate_views(forced@) =~= Seq::empty());
        assert(skipped_views(skipped@) =~= Seq::empty());
    }
    for i in 0..records.len()
        invariant
            records@.len() == inspections@.len(),
            all == inspected_records(records@, inspections@),
            candidate_views(candidates@) == all.take(i as int).filter_map(ready(force)),
            candidate_views(forced@) == all.take(i as int).filter_map(held_back(force)),
            skipped_views(skipped@) == all.take(i as int).filter_map(left_alone()),
    {
        proof {
            model::step_filter_map(all, i as int, ready(force));
            model::step_filter_map(all, i as int, held_back(force));
            model::step_filter_map(all, i as int, left_alone());
        }
        match &inspections[i] {
            Ok(inspection) => {
                let candidate = Candidate { record: records[i].clone(), inspection: copy_inspection(inspection) };
                if candidate.needs_force() && !force {
                    let ghost before = candidate_views(forced@);
                    forced.push(candidate);
                    assert(candidate_views(forced@) =~= before.push(candidate@));
                } else {
                    let ghost before = candidate_views(candidates@);
                    candidates.push(candidate);
                    assert(candidate_views(candidates@) =~= before.push(candidate@));
                }
            },
            Err(message) => {
                let item = (records[i].clone(), message.clone());
                let ghost before = skipped_views(skipped@);
                skipped.push(item);
                assert(skipped_views(skipped@) =~= before.push((item.0@, item.1@)));
            },
        }
    }
    proof {
        model::whole(all);
    }
    Preview { candidates, forced, skipped }
}

/// Without force, no worktree that would lose local changes is removed; with force, none is held
/// back for them. What could not be shown to be merged is never removed.
pub proof fn only_force_loses_changes(records: Seq<Record>, inspections: Seq<Result<Inspection, String>>, force: bool)
    ensures
        ({
            let all = inspected_records(records, inspections);
            &&& forall|i: int|
                0 <= i < all.filter_map(ready(force)).len() ==> force || !loses_changes(
                    (#[trigger] all.filter_map(ready(force))[i]).found,
                )
            &&& force ==> all.filter_map(held_back(force)).len() == 0
            &&& all.filter_map(ready(force)).len() + all.filter_map(held_back(force)).len() + all.filter_map(
                left_alone(),
            ).len() == all.len()
        }),
{
    lemma_partition(inspected_records(records, inspections), force);
}

proof fn lemma_partition(all: Seq<(RecordData, Result<Found, Seq<char>>)>, force: bool)
    ensures
        forall|i: int|
            0 <= i < all.filter_map(ready(force)).len() ==> force || !loses_changes(
                (#[trigger] all.filter_map(ready(force))[i]).found,
            ),
        force ==> all.filter_map(held_back(force)).len() == 0,
        all.filter_map(ready(force)).len() + all.filter_map(held_back(force)).len() + all.filter_map(
            left_alone(),
        ).len() == all.len(),
    decreases all.len(),
{
    if all.len() > 0 {
        let init = all.drop_last();
        lemma_partition(init, force);
        let before = init.filter_map(ready(force));
        let after = all.filter_map(ready(force));
        assert forall|i: int| 0 <= i < after.len() implies force || !loses_changes((#[trigger] after[i]).found) by {
            if i < before.len() {
                assert(after[i] == before[i]);
            }
        }
    }
}

/// Every inspected worktree is in the preview where its inspection puts it: it is ready where it
/// loses nothing or force was asked for, held back where it would lose changes, and left alone where
/// the inspection failed.
pub proof fn every_worktree_is_in_the_preview(
    records: Seq<Record>,
    inspections: Seq<Result<Inspection, String>>,
    force: bool,
    k: int,
)
    requires
        records.len() == inspections.len(),
        0 <= k < records.len(),
    ensures
        ({
            let all = inspected_records(records, inspections);
            match inspections[k] {
                Ok(inspection) => {
                    let candidate = CandidateData { record: records[k]@, found: inspection@ };
                    match inspection {
                        Inspection::Merged { changes, .. } => if changes@.len() == 0 || force {
                            all.filter_map(ready(force)).contains(candidate)
                        } else {
                            all.filter_map(held_back(force)).contains(candidate)
                        },
                        Inspection::Missing => all.filter_map(ready(force)).contains(candidate),
                    }
                },
                Err(message) => all.filter_map(left_alone()).contains((records[k]@, message@)),
            }
        }),
{
    let all = inspected_records(records, inspections);
    model::filter_map_keeps(all, ready(force));
    model::filter_map_keeps(all, held_back(force));
    model::filter_map_keeps(all, left_alone());
    assert(all[k] == (records[k]@, model::outcome(inspections[k])));
    match inspections[k] {
        Ok(inspection) => {
            let candidate = CandidateData { record: records[k]@, found: inspection@ };
            match inspection {
                Inspection::Merged { changes, .. } => {
                    assert(model::views(changes@).len() == changes@.len());
                    if changes@.len() == 0 || force {
                        assert(ready(force)(all[k]) == Some(candidate));
                    } else {
                        assert(held_back(force)(all[k]) == Some(candidate));
                    }
                },
                Inspection::Missing => {
                    assert(ready(force)(all[k]) == Some(candidate));
                },
            }
        },
        Err(message) => {
            assert(left_alone()(all[k]) == Some((records[k]@, message@)));
        },
    }
}

/// Nothing else is in the preview: a candidate, a worktree held back and one left alone each come
/// from an inspected record.
pub proof fn the_preview_holds_only_inspected_worktrees(
    records: Seq<Record>,
    inspections: Seq<Result<Inspection, String>>,
    force: bool,
)
    requires
        records.len() == inspections.len(),
    ensures
        ({
            let all = inspected_records(records, inspections);
            &&& forall|c: CandidateData| #[trigger]
                all.filter_map(ready(force)).contains(c) ==> exists|k: int|
                    0 <= k < records.len() && (#[trigger] records[k])@ == c.record && (inspections[k] matches Ok(i)
                        && i@ == c.found)
            &&& forall|c: CandidateData| #[trigger]
                all.filter_map(held_back(force)).contains(c) ==> exists|k: int|
                    0 <= k < records.len() && (#[trigger] records[k])@ == c.record && (inspections[k] matches Ok(i)
                        && i@ == c.found)
            &&& forall|s: (RecordData, Seq<char>)| #[trigger]
                all.filter_map(left_alone()).contains(s) ==> exists|k: int|
                    0 <= k < records.len() && (#[trigger] records[k])@ == s.0 && (inspections[k] matches Err(m) && m@
                        == s.1)
        }),
{
    let all = inspected_records(records, inspections);
    model::filter_map_keeps(all, ready(force));
    model::filter_map_keeps(all, held_back(force));
    model::filter_map_keeps(all, left_alone());
    assert forall|c: CandidateData| #[trigger] all.filter_map(ready(force)).contains(c) implies exists|k: int|
        0 <= k < records.len() && (#[trigger] records[k])@ == c.record && (inspections[k] matches Ok(i) && i@
            == c.found) by {
        let k = choose|k: int| 0 <= k < all.len() && ready(force)(#[trigger] all[k]) == Some(c);
        assert(records[k]@ == c.record);
    }
    assert forall|c: CandidateData| #[trigger] all.filter_map(held_back(force)).contains(c) implies exists|k: int|
        0 <= k < records.len() && (#[trigger] records[k])@ == c.record && (inspections[k] matches Ok(i) && i@
            == c.found) by {
        let k = choose|k: int| 0 <= k < all.len() && held_back(force)(#[trigger] all[k]) == Some(c);
        assert(records[k]@ == c.record);
    }
    assert forall|s: (RecordData, Seq<char>)| #[trigger] all.filter_map(left_alone()).contains(s) implies exists|k: int|
        0 <= k < records.len() && (#[trigger] records[k])@ == s.0 && (inspections[k] matches Err(m) && m@ == s.1) by {
        let k = choose|k: int| 0 <= k < all.len() && left_alone()(#[trigger] all[k]) == Some(s);
        assert(records[k]@ == s.0);
    }
}

pub open spec fn candidate_row() -> spec_fn(CandidateData) -> (Option<u64>, Seq<char>, Seq<char>) {
    |c: CandidateData| (c.record.issue, c.record.branch, reason_of(c.found))
}

pub open spec fn skipped_row() -> spec_fn((RecordData, Seq<char>)) -> (Option<u64>, Seq<char>, Seq<char>) {
    |s: (RecordData, Seq<char>)| (s.0.issue, s.0.branch, short(s.1))
}

fn rows(candidates: &Vec<Candidate>) -> (r: Vec<Row>)
    ensures
        ui::row_views(r@) == candidate_views(candidates@).map_values(candidate_row()),
{
    let ghost all = candidate_views(candidates@).map_values(candidate_row());
    let mut out: Vec<Row> = Vec::new();
    assert(ui::row_views(out@) =~= all.take(0));
    for i in 0..candidates.len()
        invariant
            all == candidate_views(candidates@).map_values(candidate_row()),
            ui::row_views(out@) == all.take(i as int),
    {
        let ghost before = ui::row_views(out@);
        let row = (
            candidates[i].record.issue,
            candidates[i].record.branch.clone(),
            candidates[i].reason(),
        );
        proof {
            model::step(all, i as int);
            assert(candidate_views(candidates@)[i as int] == candidates@[i as int]@);
        }
        out.push(row);
        assert(ui::row_views(out@) =~= before.push((row.0, row.1@, row.2@)));
    }
    proof {
        model::whole(all);
    }
    out
}

fn rows_of_skipped(skipped: &Vec<(Record, String)>) -> (r: Vec<Row>)
    ensures
        ui::row_views(r@) == skipped_views(skipped@).map_values(skipped_row()),
{
    let ghost all = skipped_views(skipped@).map_values(skipped_row());
    let mut out: Vec<Row> = Vec::new();
    assert(ui::row_views(out@) =~= all.take(0));
    for i in 0..skipped.len()
        invariant
            all == skipped_views(skipped@).map_values(skipped_row()),
            ui::row_views(out@) == all.take(i as int),
    {
        let ghost before = ui::row_views(out@);
        let row = (skipped[i].0.issue, skipped[i].0.branch.clone(), short_reason(&skipped[i].1));
        proof {
            model::step(all, i as int);
            assert(skipped_views(skipped@)[i as int] == (skipped@[i as int].0@, skipped@[i as int].1@));
        }
        out.push(row);
        assert(ui::row_views(out@) =~= before.push((row.0, row.1@, row.2@)));
    }
    proof {
        model::whole(all);
    }
    out
}

/// A part of the preview: a title with the number of rows, and their table; nothing without rows.
pub open spec fn section(
    screen: Screen,
    repository: Seq<char>,
    title: Seq<char>,
    color: u8,
    rows: Seq<(Option<u64>, Seq<char>, Seq<char>)>,
) -> Seq<Seq<char>> {
    if rows.len() == 0 {
        Seq::empty()
    } else {
        seq!["\n"@ + screen.stdout_styled(title + " ("@ + text::decimal(rows.len()) + ")"@, color)] + ui::table(
            screen,
            repository,
            rows,
            "REASON"@,
        )
    }
}

fn push_section(lines: &mut Vec<String>, screen: &Screen, repository: &str, title: &str, color: u8, rows: &Vec<Row>)
    ensures
        model::views(final(lines)@) == model::views(old(lines)@) + section(
            *screen,
            repository@,
            title@,
            color,
            ui::row_views(rows@),
        ),
{
    let ghost before = model::views(lines@);
    let count: usize = rows.len();
    if count == 0 {
        assert(before + Seq::<Seq<char>>::empty() =~= before);
        return;
    }
    let mut heading = text::concat3(title, " (", &text::to_decimal(count as u64));
    heading.append(")");
    let first = text::concat("\n", &screen.stdout_style(&heading, color));
    lines.push(first);
    let mut table = ui::worktree_table(screen, repository, rows, "REASON");
    let ghost more = model::views(table@);
    let ghost start = lines@;
    lines.append(&mut table);
    assert(model::views(lines@) =~= before + (seq![first@] + more));
}

/// How many candidates lose local changes.
pub open spec fn losing(candidates: Seq<CandidateData>) -> nat
    decreases candidates.len(),
{
    if candidates.len() == 0 {
        0
    } else {
        losing(candidates.drop_last()) + if loses_changes(candidates.last().found) {
            1nat
        } else {
            0nat
        }
    }
}

fn count_losing(candidates: &Vec<Candidate>) -> (r: usize)
    ensures
        r == losing(candidate_views(candidates@)),
{
    let ghost all = candidate_views(candidates@);
    let mut count: usize = 0;
    assert(all.take(0) =~= Seq::empty());
    for i in 0..candidates.len()
        invariant
            all == candidate_views(candidates@),
            count == losing(all.take(i as int)),
            count <= i,
    {
        proof {
            model::step(all, i as int);
            assert(all[i as int] == candidates@[i as int]@);
        }
        if candidates[i].needs_force() {
            count += 1;
        }
    }
    proof {
        model::whole(all);
    }
    count
}

/// What is printed before anything is removed.
pub open spec fn preview_lines(
    screen: Screen,
    repository: Seq<char>,
    candidates: Seq<CandidateData>,
    forced: Seq<CandidateData>,
    skipped: Seq<(RecordData, Seq<char>)>,
) -> Seq<Seq<char>> {
    seq![screen.stdout_styled(repository, 1)] + section(
        screen,
        repository,
        "Ready to remove"@,
        32,
        candidates.map_values(candidate_row()),
    ) + section(screen, repository, "Needs --force"@, 33, forced.map_values(candidate_row())) + section(
        screen,
        repository,
        "Skipped"@,
        33,
        skipped.map_values(skipped_row()),
    ) + seq![""@] + (if forced.len() > 0 {
        seq![
            text::decimal(forced.len())
                + " merged worktree(s) kept for local changes. Use wt clean --force to remove them too."@,
        ]
    } else {
        Seq::empty()
    }) + (if candidates.len() == 0 {
        seq!["No safely merged worktrees to remove."@]
    } else {
        (if losing(candidates) > 0 {
            seq![text::decimal(losing(candidates)) + " candidate(s) lose the local changes shown above."@]
        } else {
            Seq::empty()
        }) + seq![text::decimal(candidates.len()) + " candidate(s). Branches will be kept."@]
    })
}

/// Every candidate that would lose changes is counted once, and no other.
pub proof fn losses_are_counted(candidates: Seq<CandidateData>)
    ensures
        losing(candidates) == candidates.filter(
            |c: CandidateData| c.found matches Found::Merged { changes, .. } && changes.len() > 0,
        ).len(),
    decreases candidates.len(),
{
    let keep = |c: CandidateData| c.found matches Found::Merged { changes, .. } && changes.len() > 0;
    if candidates.len() == 0 {
        model::filter_keeps(candidates, keep);
    } else {
        let init = candidates.drop_last();
        losses_are_counted(init);
        init.lemma_filter_push(candidates.last(), keep);
        assert(init.push(candidates.last()) =~= candidates);
    }
}

/// The reason of a candidate begins with why it may be removed, and says how many changes it loses:
/// the first of them, and how many more.
pub proof fn reasons_count_changes(head: Seq<char>, reason: Seq<char>, changes: Seq<Seq<char>>)
    ensures
        ({
            let shown = reason_of(Found::Merged { head, reason, changes });
            &&& reason.is_prefix_of(shown)
            &&& changes.len() == 0 ==> shown == reason
            &&& changes.len() > 0 ==> (reason + "; "@ + short(changes[0])).is_prefix_of(shown)
            &&& changes.len() == 1 ==> shown == reason + "; "@ + short(changes[0])
            &&& changes.len() > 1 ==> (" (+"@ + text::decimal((changes.len() - 1) as nat) + " more)"@).is_suffix_of(
                shown,
            ) && shown.len() == (reason + "; "@ + short(changes[0])).len() + (" (+"@ + text::decimal(
                (changes.len() - 1) as nat,
            ) + " more)"@).len()
        }),
{
    let shown = reason_of(Found::Merged { head, reason, changes });
    assert(shown.subrange(0, reason.len() as int) =~= reason);
    if changes.len() > 0 {
        let start = reason + "; "@ + short(changes[0]);
        assert(shown.subrange(0, start.len() as int) =~= start);
        if changes.len() > 1 {
            let end = " (+"@ + text::decimal((changes.len() - 1) as nat) + " more)"@;
            assert(shown =~= start + end);
            assert(shown.subrange(shown.len() - end.len(), shown.len() as int) =~= end);
        }
    }
}

/// Whether a table with these columns shows a row among these lines.
pub open spec fn shows_row(
    lines: Seq<Seq<char>>,
    screen: Screen,
    repository: Seq<char>,
    row: (Option<u64>, Seq<char>, Seq<char>),
) -> bool {
    exists|columns: ui::Columns, links: bool|
        lines.contains(#[trigger] ui::row_line(screen, repository, "REASON"@, columns, links)(row))
}

proof fn lemma_section_shows(
    screen: Screen,
    repository: Seq<char>,
    title: Seq<char>,
    color: u8,
    rows: Seq<(Option<u64>, Seq<char>, Seq<char>)>,
    k: int,
)
    requires
        0 <= k < rows.len(),
    ensures
        shows_row(section(screen, repository, title, color, rows), screen, repository, rows[k]),
{
    let c = ui::columns(rows, "REASON"@, screen.width as nat);
    let links = screen.stdout && !screen.dumb && ui::linkable(repository);
    let line = ui::row_line(screen, repository, "REASON"@, c, links)(rows[k]);
    assert(ui::table(screen, repository, rows, "REASON"@)[k + 2] == line);
    assert(section(screen, repository, title, color, rows)[k + 3] == line);
}

proof fn lemma_still_shown(
    before: Seq<Seq<char>>,
    lines: Seq<Seq<char>>,
    after: Seq<Seq<char>>,
    screen: Screen,
    repository: Seq<char>,
    row: (Option<u64>, Seq<char>, Seq<char>),
)
    requires
        shows_row(lines, screen, repository, row),
    ensures
        shows_row(before + lines + after, screen, repository, row),
{
    let (columns, links) = choose|columns: ui::Columns, links: bool|
        lines.contains(#[trigger] ui::row_line(screen, repository, "REASON"@, columns, links)(row));
    let line = ui::row_line(screen, repository, "REASON"@, columns, links)(row);
    let i = choose|i: int| 0 <= i < lines.len() && lines[i] == line;
    assert((before + lines + after)[before.len() + i] == line);
}

/// The preview shows every worktree with its issue, its branch and the reason for what becomes of
/// it: the candidates, those held back and those left alone.
pub proof fn the_preview_shows_every_worktree(
    screen: Screen,
    repository: Seq<char>,
    candidates: Seq<CandidateData>,
    forced: Seq<CandidateData>,
    skipped: Seq<(RecordData, Seq<char>)>,
    k: int,
)
    ensures
        ({
            let lines = preview_lines(screen, repository, candidates, forced, skipped);
            &&& 0 <= k < candidates.len() ==> shows_row(
                lines,
                screen,
                repository,
                (candidates[k].record.issue, candidates[k].record.branch, reason_of(candidates[k].found)),
            )
            &&& 0 <= k < forced.len() ==> shows_row(
                lines,
                screen,
                repository,
                (forced[k].record.issue, forced[k].record.branch, reason_of(forced[k].found)),
            )
            &&& 0 <= k < skipped.len() ==> shows_row(
                lines,
                screen,
                repository,
                (skipped[k].0.issue, skipped[k].0.branch, short(skipped[k].1)),
            )
        }),
{
    let lines = preview_lines(screen, repository, candidates, forced, skipped);
    let top = seq![screen.stdout_styled(repository, 1)];
    let one = section(screen, repository, "Ready to remove"@, 32, candidates.map_values(candidate_row()));
    let two = section(screen, repository, "Needs --force"@, 33, forced.map_values(candidate_row()));
    let three = section(screen, repository, "Skipped"@, 33, skipped.map_values(skipped_row()));
    let rest = lines.skip((top.len() + one.len() + two.len() + three.len()) as int);
    assert(lines =~= top + one + (two + three + rest));
    assert(lines =~= (top + one) + two + (three + rest));
    assert(lines =~= (top + one + two) + three + rest);
    if 0 <= k < candidates.len() {
        let rows = candidates.map_values(candidate_row());
        lemma_section_shows(screen, repository, "Ready to remove"@, 32, rows, k);
        lemma_still_shown(top, one, two + three + rest, screen, repository, rows[k]);
    }
    if 0 <= k < forced.len() {
        let rows = forced.map_values(candidate_row());
        lemma_section_shows(screen, repository, "Needs --force"@, 33, rows, k);
        lemma_still_shown(top + one, two, three + rest, screen, repository, rows[k]);
    }
    if 0 <= k < skipped.len() {
        let rows = skipped.map_values(skipped_row());
        lemma_section_shows(screen, repository, "Skipped"@, 33, rows, k);
        lemma_still_shown(top + one + two, three, rest, screen, repository, rows[k]);
    }
}

pub fn preview_text(screen: &Screen, repository: &str, preview: &Preview) -> (r: Vec<String>)
    ensures
        model::views(r@) == preview_lines(
            *screen,
            repository@,
            candidate_views(preview.candidates@),
            candidate_views(preview.forced@),
            skipped_views(preview.skipped@),
        ),
{
    let ghost candidates = candidate_views(preview.candidates@);
    let ghost forced = candidate_views(preview.forced@);
    let ghost skipped = skipped_views(preview.skipped@);
    let mut lines: Vec<String> = Vec::new();
    lines.push(screen.stdout_style(repository, 1));
    assert(model::views(lines@) =~= seq![screen.stdout_styled(repository@, 1)]);
    push_section(&mut lines, screen, repository, "Ready to remove", 32, &rows(&preview.candidates));
    push_section(&mut lines, screen, repository, "Needs --force", 33, &rows(&preview.forced));
    push_section(&mut lines, screen, repository, "Skipped", 33, &rows_of_skipped(&preview.skipped));
    let ghost tables = model::views(lines@);
    lines.push("".to_owned());
    assert(model::views(lines@) =~= tables + seq![""@]);
    let ghost before = model::views(lines@);
    let kept: usize = preview.forced.len();
    if kept > 0 {
        let line = text::concat(
            &text::to_decimal(kept as u64),
            " merged worktree(s) kept for local changes. Use wt clean --force to remove them too.",
        );
        lines.push(line);
        assert(model::views(lines@) =~= before + seq![line@]);
    } else {
        assert(before + Seq::<Seq<char>>::empty() =~= before);
    }
    let ghost before = model::views(lines@);
    let total: usize = preview.candidates.len();
    if total == 0 {
        lines.push("No safely merged worktrees to remove.".to_owned());
        assert(model::views(lines@) =~= before + seq!["No safely merged worktrees to remove."@]);
    } else {
        let lost: usize = count_losing(&preview.candidates);
        let ghost mut middle: Seq<Seq<char>> = Seq::empty();
        if lost > 0 {
            let line = text::concat(
                &text::to_decimal(lost as u64),
                " candidate(s) lose the local changes shown above.",
            );
            lines.push(line);
            proof {
                middle = seq![line@];
            }
        }
        let line = text::concat(&text::to_decimal(total as u64), " candidate(s). Branches will be kept.");
        lines.push(line);
        assert(model::views(lines@) =~= before + (middle + seq![line@]));
    }
    lines
}

/// What follows the preview.
pub enum Next {
    /// Nothing is removed.
    Stop,
    /// The user is asked first.
    Confirm,
    /// The candidates are removed.
    Remove,
    /// Nothing is removed, and that is an error.
    Refuse { message: String },
}

/// A dry run removes nothing; without `--yes` the user must confirm, which needs a terminal.
pub fn after_preview(candidates: usize, dry_run: bool, yes: bool, terminal: bool) -> (r: Next)
    ensures
        r is Stop <==> candidates == 0 || dry_run,
        r is Remove <==> candidates > 0 && !dry_run && yes,
        r is Confirm <==> candidates > 0 && !dry_run && !yes && terminal,
        r is Refuse <==> candidates > 0 && !dry_run && !yes && !terminal,
        r matches Next::Refuse { message } ==> message@
            == "cleanup needs confirmation; use --dry-run to preview or --yes to remove"@,
{
    if candidates == 0 || dry_run {
        Next::Stop
    } else if yes {
        Next::Remove
    } else if terminal {
        Next::Confirm
    } else {
        Next::Refuse {
            message: "cleanup needs confirmation; use --dry-run to preview or --yes to remove".to_owned(),
        }
    }
}

/// Whether Git's records of missing worktrees have to be pruned after the removals.
pub fn needs_prune(candidates: &Vec<Candidate>) -> (r: bool)
    ensures
        r == exists|i: int| 0 <= i < candidates@.len() && (#[trigger] candidates@[i]).inspection is Missing,
{
    for i in 0..candidates.len()
        invariant
            forall|k: int| 0 <= k < i ==> !((#[trigger] candidates@[k]).inspection is Missing),
    {
        if let Inspection::Missing = candidates[i].inspection {
            assert(candidates@[i as int].inspection is Missing);
            return true;
        }
    }
    false
}

/// What the removals came to.
pub fn summary(removed: usize, failed: usize, elapsed: &str) -> (r: (String, Result<(), String>))
    ensures
        r.0@ == "Removed "@ + text::decimal(removed as nat) + " worktree(s) in "@ + elapsed@ + "s. Branches kept."@,
        model::outcome(r.1) == if failed > 0 {
            Err(text::decimal(failed as nat) + " candidate(s) could not be removed"@)
        } else {
            Ok(())
        },
{
    let mut line = text::concat3("Removed ", &text::to_decimal(removed as u64), " worktree(s) in ");
    line.append(elapsed);
    line.append("s. Branches kept.");
    if failed > 0 {
        (line, Err(text::concat(&text::to_decimal(failed as u64), " candidate(s) could not be removed")))
    } else {
        (line, Ok(()))
    }
}

/// The argument of `git rev-parse` that a base is resolved by.
pub fn base_argument(base: &str) -> (r: String)
    ensures
        r@ == base@ + "^{commit}"@,
{
    text::concat(base, "^{commit}")
}

/// The commit of the base, by what Git resolved it to.
pub fn base_commit(base: &str, output: &Output) -> (r: Result<String, String>)
    ensures
        model::outcome(r) == match process::answered(*output) {
            Ok(commit) => Ok::<Seq<char>, Seq<char>>(commit),
            Err(message) => Err(
                process::in_context(
                    "cannot resolve base "@ + base@ + "; update it before running wt clean"@,
                    message,
                ),
            ),
        },
{
    match process::git_output(output) {
        Ok(commit) => Ok(commit),
        Err(message) => {
            let context = text::concat3("cannot resolve base ", base, "; update it before running wt clean");
            Err(process::with_context(&context, &message))
        },
    }
}

/// What cleaning prints, which worktrees it would remove, and what follows.
pub struct Cleaning {
    pub lines: Vec<String>,
    pub candidates: Vec<Candidate>,
    pub next: Next,
}

/// Cleans up to the point where worktrees are removed: those of the repository were inspected, each
/// is sorted by what was found, and the preview is shown.
pub fn clean(
    screen: &Screen,
    repository: &str,
    records: &Vec<Record>,
    inspections: &Vec<Result<Inspection, String>>,
    force: bool,
    dry_run: bool,
    yes: bool,
    terminal: bool,
) -> (r: Cleaning)
    requires
        records@.len() == inspections@.len(),
    ensures
        ({
            let all = inspected_records(records@, inspections@);
            let candidates = all.filter_map(ready(force));
            &&& candidate_views(r.candidates@) == candidates
            &&& model::views(r.lines@) == if records@.len() == 0 {
                seq!["No managed worktrees in this repository."@]
            } else {
                preview_lines(
                    *screen,
                    repository@,
                    candidates,
                    all.filter_map(held_back(force)),
                    all.filter_map(left_alone()),
                )
            }
            &&& r.next is Stop <==> candidates.len() == 0 || dry_run
            &&& r.next is Remove <==> candidates.len() > 0 && !dry_run && yes
            &&& r.next is Confirm <==> candidates.len() > 0 && !dry_run && !yes && terminal
            &&& r.next is Refuse <==> candidates.len() > 0 && !dry_run && !yes && !terminal
            &&& r.next matches Next::Refuse { message } ==> message@
                == "cleanup needs confirmation; use --dry-run to preview or --yes to remove"@
        }),
{
    let preview = partition(records, inspections, force);
    let ghost candidates = candidate_views(preview.candidates@);
    let total: usize = preview.candidates.len();
    assert(candidates.len() == total);
    let next = after_preview(total, dry_run, yes, terminal);
    if records.len() == 0 {
        let mut lines: Vec<String> = Vec::new();
        lines.push("No managed worktrees in this repository.".to_owned());
        assert(model::views(lines@) =~= seq!["No managed worktrees in this repository."@]);
        return Cleaning { lines, candidates: preview.candidates, next };
    }
    let lines = preview_text(screen, repository, &preview);
    Cleaning { lines, candidates: preview.candidates, next }
}

/// What is printed about a removal.
pub fn removal_line(branch: &str, result: &Result<(), String>) -> (r: String)
    ensures
        r@ == match model::outcome(*result) {
            Ok(_) => "Removed "@ + branch@,
            Err(message) => "Skipped "@ + branch@ + ": "@ + message,
        },
{
    match result {
        Ok(()) => text::concat("Removed ", branch),
        Err(message) => {
            let mut line = text::concat3("Skipped ", branch, ": ");
            line.append(message);
            line
        },
    }
}

/// How many of the removals went well.
pub open spec fn successes(results: Seq<Result<(), String>>) -> nat
    decreases results.len(),
{
    if results.len() == 0 {
        0
    } else {
        successes(results.drop_last()) + if results.last() is Ok {
            1nat
        } else {
            0nat
        }
    }
}

/// Every removal that succeeded is counted once, and no other.
pub proof fn successes_are_counted(results: Seq<Result<(), String>>)
    ensures
        successes(results) == results.filter(|r: Result<(), String>| r is Ok).len(),
        successes(results) <= results.len(),
        successes(results) == results.len() <==> forall|i: int| 0 <= i < results.len() ==> #[trigger] results[i] is Ok,
    decreases results.len(),
{
    let keep = |r: Result<(), String>| r is Ok;
    if results.len() == 0 {
        model::filter_keeps(results, keep);
    } else {
        let init = results.drop_last();
        successes_are_counted(init);
        init.lemma_filter_push(results.last(), keep);
        assert(init.push(results.last()) =~= results);
        assert(results.last() == results[results.len() - 1]);
        if forall|i: int| 0 <= i < results.len() ==> #[trigger] results[i] is Ok {
            assert forall|i: int| 0 <= i < init.len() implies #[trigger] init[i] is Ok by {
                assert(init[i] == results[i]);
            }
        }
        if successes(results) == results.len() {
            assert forall|i: int| 0 <= i < results.len() implies #[trigger] results[i] is Ok by {
                if i < init.len() {
                    assert(init[i] == results[i]);
                }
            }
        }
    }
}

/// What the removals, and pruning Git's records of missing worktrees, came to: a complaint about
/// pruning, the closing line, and how cleaning ends.
pub fn conclude(results: &Vec<Result<(), String>>, pruned: &Result<(), String>, elapsed: &str) -> (r: (
    Option<String>,
    String,
    Result<(), String>,
))
    requires
        results@.len() < usize::MAX,
    ensures
        ({
            let removed = successes(results@);
            let failed = (results@.len() - removed) as nat + if pruned is Err {
                1nat
            } else {
                0nat
            };
            &&& model::opt(r.0) == match model::outcome(*pruned) {
                Ok(_) => None,
                Err(message) => Some("Could not prune missing worktrees: "@ + message),
            }
            &&& r.1@ == "Removed "@ + text::decimal(removed) + " worktree(s) in "@ + elapsed@ + "s. Branches kept."@
            &&& model::outcome(r.2) == if failed > 0 {
                Err(text::decimal(failed) + " candidate(s) could not be removed"@)
            } else {
                Ok(())
            }
        }),
{
    let mut removed: usize = 0;
    assert(results@.take(0) =~= Seq::empty());
    for i in 0..results.len()
        invariant
            removed <= i,
            removed == successes(results@.take(i as int)),
    {
        proof {
            model::step(results@, i as int);
        }
        if results[i].is_ok() {
            removed += 1;
        }
    }
    proof {
        model::whole(results@);
    }
    let mut failed: usize = results.len() - removed;
    let complaint = match pruned {
        Ok(()) => None,
        Err(message) => {
            failed += 1;
            Some(text::concat("Could not prune missing worktrees: ", message))
        },
    };
    let (line, result) = summary(removed, failed, elapsed);
    (complaint, line, result)
}

// ---------------------------------------------------------------------------
// Removing a candidate
// ---------------------------------------------------------------------------

/// The step that the removal of a candidate is at.
#[derive(PartialEq, Eq, Structural)]
pub enum Removal {
    /// Find its record again.
    Lookup,
    /// See whether its directory is still missing.
    Gone,
    /// Inspect it again.
    Recheck,
    /// Run its teardown command.
    Teardown,
    /// Inspect it once more: a teardown may itself change files or switch branches.
    Again,
    /// Remove the worktree.
    Discard,
    /// Drop its record.
    Forget,
    Done,
}

/// What a step of a removal came to.
pub enum Event {
    Record(Result<Option<Record>, String>),
    StillMissing(bool),
    Inspected(Result<Inspection, String>),
    Finished(Result<(), String>),
}

/// Whether a report is one on the step.
pub open spec fn answers(step: Removal, report: Event) -> bool {
    match step {
        Removal::Lookup => report is Record,
        Removal::Gone => report is StillMissing,
        Removal::Recheck => report is Inspected,
        Removal::Again => report is Inspected,
        Removal::Teardown => report is Finished,
        Removal::Discard => report is Finished,
        Removal::Forget => report is Finished,
        Removal::Done => false,
    }
}

/// A change that was not in the preview, as itself.
pub open spec fn not_in(previewed: Seq<Seq<char>>) -> spec_fn(Seq<char>) -> Option<Seq<char>> {
    |change: Seq<char>|
        if previewed.contains(change) {
            None
        } else {
            Some(change)
        }
}

/// Whether a worktree is as it was previewed: at the same commit, with no other changes.
pub open spec fn unchanged(preview: Found, found: Result<Found, Seq<char>>, moment: Seq<char>) -> Result<(), Seq<char>> {
    match (preview, found) {
        (_, Err(message)) => Err(message),
        (Found::Merged { head, changes: previewed, .. }, Ok(Found::Merged { head: current, changes, .. })) => if current
            != head {
            Err("HEAD changed "@ + moment)
        } else {
            match model::first_some(changes, not_in(previewed)) {
                Some(change) => Err(change),
                None => Ok(()),
            }
        },
        _ => Err("worktree path disappeared "@ + moment),
    }
}

fn recheck(preview: &Inspection, found: &Result<Inspection, String>, moment: &str) -> (r: Result<(), String>)
    ensures
        model::outcome(r) == unchanged(preview@, model::outcome(*found), moment@),
{
    match found {
        Err(message) => Err(message.clone()),
        Ok(now) => match (preview, now) {
            (
                Inspection::Merged { head, changes: previewed, .. },
                Inspection::Merged { head: current, changes, .. },
            ) => {
                if !text::same(current, head) {
                    return Err(text::concat("HEAD changed ", moment));
                }
                let ghost all = model::views(changes@);
                let ghost known = model::views(previewed@);
                for i in 0..changes.len()
                    invariant
                        all == model::views(changes@),
                        known == model::views(previewed@),
                        head@ == current@,
                        preview@ matches Found::Merged { head: h, changes: p, .. } && h == head@ && p == known,
                        found matches Ok(f) && f == *now,
                        now@ matches Found::Merged { head: h, changes: c, .. } && h == current@ && c == all,
                        forall|k: int| 0 <= k < i ==> not_in(known)(#[trigger] all[k]) is None,
                {
                    assert(all[i as int] == changes@[i as int]@);
                    if !text::list_contains(previewed, &changes[i]) {
                        proof {
                            model::found_some(all, not_in(known), i as int);
                        }
                        return Err(changes[i].clone());
                    }
                }
                proof {
                    model::found_none(all, not_in(known));
                }
                Ok(())
            },
            _ => Err(text::concat("worktree path disappeared ", moment)),
        },
    }
}

/// Where a report leads.
pub open spec fn advanced(step: Removal, candidate: CandidateData, skip_teardown: bool, report: Event) -> Result<
    Removal,
    Seq<char>,
> {
    match (step, report) {
        (Removal::Lookup, Event::Record(found)) => match state::outcome_record(found) {
            Err(message) => Err(message),
            Ok(None) => Err("worktree is no longer managed"@),
            Ok(Some(record)) => if record != candidate.record {
                Err("worktree record changed after preview; run wt clean again"@)
            } else if candidate.found is Missing {
                Ok(Removal::Gone)
            } else {
                Ok(Removal::Recheck)
            },
        },
        (Removal::Gone, Event::StillMissing(missing)) => if missing {
            Ok(Removal::Forget)
        } else {
            Err("worktree path reappeared after preview; run wt clean again"@)
        },
        (Removal::Recheck, Event::Inspected(found)) => match unchanged(
            candidate.found,
            model::outcome(found),
            "after preview; run wt clean again"@,
        ) {
            Err(message) => Err(message),
            Ok(()) => if skip_teardown {
                Ok(Removal::Again)
            } else {
                Ok(Removal::Teardown)
            },
        },
        (Removal::Again, Event::Inspected(found)) => match unchanged(
            candidate.found,
            model::outcome(found),
            "during teardown"@,
        ) {
            Err(message) => Err(message),
            Ok(()) => Ok(Removal::Discard),
        },
        (Removal::Teardown, Event::Finished(result)) => match model::outcome(result) {
            Err(message) => Err(message),
            Ok(()) => Ok(Removal::Again),
        },
        (Removal::Discard, Event::Finished(result)) => match model::outcome(result) {
            Err(message) => Err(message),
            Ok(()) => Ok(Removal::Forget),
        },
        (Removal::Forget, Event::Finished(result)) => match model::outcome(result) {
            Err(message) => Err(message),
            Ok(()) => Ok(Removal::Done),
        },
        _ => Err("unexpected report"@),
    }
}

/// Goes on with the removal of a candidate that was previewed: the next step, or why it is kept.
pub fn remove_candidate(step: Removal, candidate: &Candidate, skip_teardown: bool, report: Event) -> (r: Result<
    Removal,
    String,
>)
    requires
        answers(step, report),
    ensures
        match advanced(step, candidate@, skip_teardown, report) {
            Ok(next) => r == Ok::<Removal, String>(next),
            Err(message) => r matches Err(e) && e@ == message,
        },
{
    match (step, report) {
        (Removal::Lookup, Event::Record(found)) => match found {
            Err(message) => Err(message),
            Ok(None) => Err("worktree is no longer managed".to_owned()),
            Ok(Some(record)) => {
                if !record.same(&candidate.record) {
                    return Err("worktree record changed after preview; run wt clean again".to_owned());
                }
                match &candidate.inspection {
                    Inspection::Missing => Ok(Removal::Gone),
                    Inspection::Merged { .. } => Ok(Removal::Recheck),
                }
            },
        },
        (Removal::Gone, Event::StillMissing(missing)) => {
            if missing {
                Ok(Removal::Forget)
            } else {
                Err("worktree path reappeared after preview; run wt clean again".to_owned())
            }
        },
        (Removal::Recheck, Event::Inspected(found)) => match recheck(
            &candidate.inspection,
            &found,
            "after preview; run wt clean again",
        ) {
            Err(message) => Err(message),
            Ok(()) => {
                if skip_teardown {
                    Ok(Removal::Again)
                } else {
                    Ok(Removal::Teardown)
                }
            },
        },
        (Removal::Again, Event::Inspected(found)) => match recheck(
            &candidate.inspection,
            &found,
            "during teardown",
        ) {
            Err(message) => Err(message),
            Ok(()) => Ok(Removal::Discard),
        },
        (Removal::Teardown, Event::Finished(result)) => match result {
            Err(message) => Err(message),
            Ok(()) => Ok(Removal::Again),
        },
        (Removal::Discard, Event::Finished(result)) => match result {
            Err(message) => Err(message),
            Ok(()) => Ok(Removal::Forget),
        },
        (Removal::Forget, Event::Finished(result)) => match result {
            Err(message) => Err(message),
            Ok(()) => Ok(Removal::Done),
        },
        _ => Err("unexpected report".to_owned()),
    }
}

/// Where a sequence of reports leads from the start.
pub open spec fn removed_by(candidate: CandidateData, skip_teardown: bool, reports: Seq<Event>) -> Result<
    Removal,
    Seq<char>,
>
    decreases reports.len(),
{
    if reports.len() == 0 {
        Ok(Removal::Lookup)
    } else {
        match removed_by(candidate, skip_teardown, reports.drop_last()) {
            Ok(step) => advanced(step, candidate, skip_teardown, reports.last()),
            Err(message) => Err(message),
        }
    }
}

/// Whether a report shows the worktree at the previewed commit, with previewed changes only.
pub open spec fn confirms(candidate: CandidateData, report: Event) -> bool {
    report matches Event::Inspected(Ok(inspection)) && inspection@ matches Found::Merged {
        head: current,
        changes,
        ..
    } && candidate.found matches Found::Merged { head, changes: previewed, .. } && current == head && forall|i: int|
        0 <= i < changes.len() ==> previewed.contains(#[trigger] changes[i])
}

proof fn lemma_unchanged_confirms(candidate: CandidateData, report: Event, moment: Seq<char>)
    requires
        report is Inspected,
        unchanged(candidate.found, model::outcome(report->Inspected_0), moment) is Ok,
    ensures
        confirms(candidate, report),
{
    let found = model::outcome(report->Inspected_0)->Ok_0;
    let changes = found->changes;
    let previewed = candidate.found->changes;
    assert forall|i: int| 0 <= i < changes.len() implies previewed.contains(#[trigger] changes[i]) by {
        model::none_found(changes, not_in(previewed), i);
    }
}

/// Changes that were not in the preview are never discarded: whatever the reports, a worktree is
/// removed only right after an inspection that shows it at the previewed commit with no change
/// that was not previewed, and an earlier one that showed the same before the teardown.
pub proof fn unpreviewed_changes_are_never_discarded(candidate: CandidateData, skip_teardown: bool, reports: Seq<Event>)
    ensures
        removed_by(candidate, skip_teardown, reports) == Ok::<Removal, Seq<char>>(Removal::Discard) ==> {
            &&& reports.len() > 1
            &&& confirms(candidate, reports.last())
            &&& exists|i: int| 0 <= i < reports.len() - 1 && confirms(candidate, #[trigger] reports[i])
        },
{
    lemma_confirmed(candidate, skip_teardown, reports);
}

proof fn lemma_confirmed(candidate: CandidateData, skip_teardown: bool, reports: Seq<Event>)
    ensures
        match removed_by(candidate, skip_teardown, reports) {
            Ok(Removal::Discard) => {
                &&& reports.len() > 1
                &&& confirms(candidate, reports.last())
                &&& exists|i: int| 0 <= i < reports.len() - 1 && confirms(candidate, #[trigger] reports[i])
            },
            Ok(Removal::Teardown) => exists|i: int| 0 <= i < reports.len() && confirms(candidate, #[trigger] reports[i]),
            Ok(Removal::Again) => exists|i: int| 0 <= i < reports.len() && confirms(candidate, #[trigger] reports[i]),
            _ => true,
        },
    decreases reports.len(),
{
    if reports.len() > 0 {
        let before = reports.drop_last();
        lemma_confirmed(candidate, skip_teardown, before);
        match (removed_by(candidate, skip_teardown, before), removed_by(candidate, skip_teardown, reports)) {
            (Ok(from), Ok(to)) => {
                if from == Removal::Recheck && (to == Removal::Teardown || to == Removal::Again) {
                    lemma_unchanged_confirms(candidate, reports.last(), "after preview; run wt clean again"@);
                    assert(confirms(candidate, reports[reports.len() - 1]));
                }
                if from == Removal::Teardown && to == Removal::Again {
                    let i = choose|i: int| 0 <= i < before.len() && confirms(candidate, #[trigger] before[i]);
                    assert(confirms(candidate, reports[i]));
                }
                if from == Removal::Again && to == Removal::Discard {
                    lemma_unchanged_confirms(candidate, reports.last(), "during teardown"@);
                    let i = choose|i: int| 0 <= i < before.len() && confirms(candidate, #[trigger] before[i]);
                    assert(confirms(candidate, reports[i]));
                }
            },
            _ => {},
        }
    }
}

proof fn lemma_removal_step(candidate: CandidateData, skip_teardown: bool, reports: Seq<Event>, i: int)
    requires
        0 <= i < reports.len(),
    ensures
        removed_by(candidate, skip_teardown, reports.take(i + 1)) == match removed_by(
            candidate,
            skip_teardown,
            reports.take(i),
        ) {
            Ok(step) => advanced(step, candidate, skip_teardown, reports[i]),
            Err(message) => Err(message),
        },
{
    model::step(reports, i);
}

proof fn lemma_confirmed_is_unchanged(candidate: CandidateData, report: Event, moment: Seq<char>)
    requires
        confirms(candidate, report),
    ensures
        report matches Event::Inspected(found) && unchanged(candidate.found, model::outcome(found), moment) == Ok::<
            (),
            Seq<char>,
        >(()),
{
    let found = report->Inspected_0;
    match (candidate.found, found->Ok_0@) {
        (Found::Merged { changes: previewed, .. }, Found::Merged { changes, .. }) => {
            assert forall|i: int| 0 <= i < changes.len() implies not_in(previewed)(#[trigger] changes[i]) is None by {
                assert(previewed.contains(changes[i]));
            }
            model::found_none(changes, not_in(previewed));
        },
        _ => {},
    }
}

/// A candidate that is as it was previewed is removed: its record is the same, both inspections find
/// the same commit and no change that was not previewed, and its teardown succeeds or is skipped.
pub proof fn an_unchanged_candidate_is_removed(candidate: CandidateData, reports: Seq<Event>)
    requires
        reports.len() == 6,
        reports[0] matches Event::Record(Ok(Some(record))) && record@ == candidate.record,
        confirms(candidate, reports[1]),
        reports[2] matches Event::Finished(Ok(_)),
        confirms(candidate, reports[3]),
        reports[4] matches Event::Finished(Ok(_)),
        reports[5] matches Event::Finished(Ok(_)),
    ensures
        removed_by(candidate, false, reports.take(2)) == Ok::<Removal, Seq<char>>(Removal::Teardown),
        removed_by(candidate, false, reports.take(3)) == Ok::<Removal, Seq<char>>(Removal::Again),
        removed_by(candidate, false, reports.take(4)) == Ok::<Removal, Seq<char>>(Removal::Discard),
        removed_by(candidate, false, reports) == Ok::<Removal, Seq<char>>(Removal::Done),
        removed_by(candidate, true, reports.remove(2)) == Ok::<Removal, Seq<char>>(Removal::Done),
{
    lemma_confirmed_is_unchanged(candidate, reports[1], "after preview; run wt clean again"@);
    lemma_confirmed_is_unchanged(candidate, reports[3], "during teardown"@);
    assert(reports.take(0) =~= Seq::empty());
    assert(removed_by(candidate, false, reports.take(0)) == Ok::<Removal, Seq<char>>(Removal::Lookup));
    lemma_removal_step(candidate, false, reports, 0);
    lemma_removal_step(candidate, false, reports, 1);
    lemma_removal_step(candidate, false, reports, 2);
    lemma_removal_step(candidate, false, reports, 3);
    lemma_removal_step(candidate, false, reports, 4);
    lemma_removal_step(candidate, false, reports, 5);
    model::whole(reports);
    let fewer = reports.remove(2);
    assert(fewer.len() == 5);
    assert(fewer[0] == reports[0] && fewer[1] == reports[1] && fewer[2] == reports[3] && fewer[3] == reports[4]
        && fewer[4] == reports[5]);
    assert(fewer.take(0) =~= Seq::empty());
    assert(removed_by(candidate, true, fewer.take(0)) == Ok::<Removal, Seq<char>>(Removal::Lookup));
    lemma_removal_step(candidate, true, fewer, 0);
    lemma_removal_step(candidate, true, fewer, 1);
    lemma_removal_step(candidate, true, fewer, 2);
    lemma_removal_step(candidate, true, fewer, 3);
    lemma_removal_step(candidate, true, fewer, 4);
    model::whole(fewer);
}

/// A candidate whose directory was missing in the preview, and still is, is forgotten without
/// touching the disk; one whose directory is there again is not.
pub proof fn a_missing_candidate_is_forgotten(candidate: CandidateData, skip_teardown: bool, reports: Seq<Event>)
    requires
        candidate.found is Missing,
        reports.len() == 3,
        reports[0] matches Event::Record(Ok(Some(record))) && record@ == candidate.record,
        reports[1] is StillMissing,
        reports[2] matches Event::Finished(Ok(_)),
    ensures
        reports[1] == Event::StillMissing(true) ==> removed_by(candidate, skip_teardown, reports) == Ok::<
            Removal,
            Seq<char>,
        >(Removal::Done),
        reports[1] == Event::StillMissing(true) ==> removed_by(candidate, skip_teardown, reports.take(2)) == Ok::<
            Removal,
            Seq<char>,
        >(Removal::Forget),
        reports[1] == Event::StillMissing(false) ==> removed_by(candidate, skip_teardown, reports) is Err,
{
    assert(reports.take(0) =~= Seq::empty());
    assert(removed_by(candidate, skip_teardown, reports.take(0)) == Ok::<Removal, Seq<char>>(Removal::Lookup));
    lemma_removal_step(candidate, skip_teardown, reports, 0);
    lemma_removal_step(candidate, skip_teardown, reports, 1);
    lemma_removal_step(candidate, skip_teardown, reports, 2);
    model::whole(reports);
}

/// A removal ends at the first step that fails, and with what that step reported; where the record
/// is gone or is not the one that was previewed, nothing is removed.
pub proof fn a_failed_step_ends_the_removal(
    candidate: CandidateData,
    skip_teardown: bool,
    reports: Seq<Event>,
    more: Seq<Event>,
)
    requires
        removed_by(candidate, skip_teardown, reports) is Err,
    ensures
        removed_by(candidate, skip_teardown, reports + more) == removed_by(candidate, skip_teardown, reports),
    decreases more.len(),
{
    if more.len() == 0 {
        assert(reports + more =~= reports);
    } else {
        let all = reports + more;
        assert(all.drop_last() =~= reports + more.drop_last());
        a_failed_step_ends_the_removal(candidate, skip_teardown, reports, more.drop_last());
    }
}

/// A step that fails reports why; a record that is gone or changed stops the removal at once.
pub proof fn failures_are_reported(candidate: CandidateData, skip_teardown: bool, step: Removal, report: Event)
    requires
        answers(step, report),
    ensures
        report matches Event::Finished(Err(message)) ==> advanced(step, candidate, skip_teardown, report) == Err::<
            Removal,
            Seq<char>,
        >(message@),
        report matches Event::Inspected(Err(message)) ==> advanced(step, candidate, skip_teardown, report) == Err::<
            Removal,
            Seq<char>,
        >(message@),
        report matches Event::Record(Err(message)) ==> advanced(step, candidate, skip_teardown, report) == Err::<
            Removal,
            Seq<char>,
        >(message@),
        report matches Event::Record(Ok(None)) ==> advanced(step, candidate, skip_teardown, report) is Err,
        report matches Event::Record(Ok(Some(record))) ==> (advanced(step, candidate, skip_teardown, report) is Ok
            <==> record@ == candidate.record),
{
}

// ---------------------------------------------------------------------------
// Teardown
// ---------------------------------------------------------------------------

/// Whether a command runs when a worktree is removed, and which one, is settled by its record and
/// what is trusted: a record without one runs none, and a recorded one runs exactly where the
/// fingerprint recorded with it is trusted in its repository.
pub proof fn teardown_needs_trust(record: RecordData, trusted: Seq<(Seq<char>, Seq<char>)>)
    ensures
        record.teardown is None ==> teardown_of(record, trusted) == Ok::<Option<Seq<char>>, Seq<char>>(None),
        record.teardown matches Some(command) ==> (teardown_of(record, trusted) is Ok <==> (record.config_hash matches Some(
            hash,
        ) && state::trusts(trusted, record.repository, hash))),
        record.teardown is Some && teardown_of(record, trusted) is Ok ==> teardown_of(record, trusted) == Ok::<
            Option<Seq<char>>,
            Seq<char>,
        >(record.teardown),
{
}

/// The teardown command of a record: none, or one that is trusted in its repository.
pub open spec fn teardown_of(record: RecordData, trusted: Seq<(Seq<char>, Seq<char>)>) -> Result<
    Option<Seq<char>>,
    Seq<char>,
> {
    match (record.teardown, record.config_hash) {
        (None, _) => Ok(None),
        (Some(_), None) => Err("teardown command has no trust record"@),
        (Some(command), Some(hash)) => if state::trusts(trusted, record.repository, hash) {
            Ok(Some(command))
        } else {
            Err("teardown command is not trusted; use --skip-teardown to leave it running"@)
        },
    }
}

pub fn recorded_teardown(store: &Store, record: &Record) -> (r: Result<Option<String>, String>)
    ensures
        model::outcome_opt(r) == teardown_of(record@, store.trust_files()),
{
    match (&record.teardown, &record.config_hash) {
        (None, _) => Ok(None),
        (Some(_), None) => Err("teardown command has no trust record".to_owned()),
        (Some(command), Some(hash)) => {
            if store.is_trusted(&record.repository, hash) {
                Ok(Some(command.clone()))
            } else {
                Err("teardown command is not trusted; use --skip-teardown to leave it running".to_owned())
            }
        },
    }
}

/// A reason is shortened where it begins with one of the long forms, and what it speaks of stays as it
/// is; a reason that holds none of them is shown as it is.
pub proof fn reasons_are_shortened_at_their_start(rest: Seq<char>)
    ensures
        ({
            let unmanaged = "worktree contains an unmanaged file: "@;
            let modified = "worktree contains tracked changes: "@;
            let unmerged = "no merged PR found for this branch into "@;
            &&& !text::has_part(rest, unmanaged) && !text::has_part("Unmanaged: "@ + rest, modified)
                && !text::has_part("Unmanaged: "@ + rest, unmerged) ==> short(unmanaged + rest) == "Unmanaged: "@ + rest
            &&& !text::has_part(modified + rest, unmanaged) && !text::has_part(rest, modified) && !text::has_part(
                "Modified: "@ + rest,
                unmerged,
            ) ==> short(modified + rest) == "Modified: "@ + rest
            &&& !text::has_part(unmerged + rest, unmanaged) && !text::has_part(unmerged + rest, modified)
                && !text::has_part(rest, unmerged) ==> short(unmerged + rest) == "No merged PR into "@ + rest
            &&& !text::has_part(rest, unmanaged) && !text::has_part(rest, modified) && !text::has_part(rest, unmerged)
                ==> short(rest) == rest
        }),
{
    let unmanaged = "worktree contains an unmanaged file: "@;
    let modified = "worktree contains tracked changes: "@;
    let unmerged = "no merged PR found for this branch into "@;
    reveal_strlit("worktree contains an unmanaged file: ");
    reveal_strlit("worktree contains tracked changes: ");
    reveal_strlit("no merged PR found for this branch into ");
    lemma_unless_there(rest, unmanaged, "Unmanaged: "@);
    lemma_unless_there(rest, modified, "Modified: "@);
    lemma_unless_there(rest, unmerged, "No merged PR into "@);
    lemma_unless_there("Unmanaged: "@ + rest, modified, "Modified: "@);
    lemma_unless_there("Unmanaged: "@ + rest, unmerged, "No merged PR into "@);
    lemma_unless_there(modified + rest, unmanaged, "Unmanaged: "@);
    lemma_unless_there("Modified: "@ + rest, unmerged, "No merged PR into "@);
    lemma_unless_there(unmerged + rest, unmanaged, "Unmanaged: "@);
    lemma_unless_there(unmerged + rest, modified, "Modified: "@);
    lemma_replaced_start(unmanaged, rest, "Unmanaged: "@);
    lemma_replaced_start(modified, rest, "Modified: "@);
    lemma_replaced_start(unmerged, rest, "No merged PR into "@);
}

proof fn lemma_unless_there(s: Seq<char>, from: Seq<char>, to: Seq<char>)
    ensures
        !text::has_part(s, from) ==> text::replaced(s, from, to) == s,
{
    if !text::has_part(s, from) {
        text::absent_texts_are_not_replaced(s, from, to);
    }
}

proof fn lemma_replaced_start(from: Seq<char>, rest: Seq<char>, to: Seq<char>)
    requires
        from.len() > 0,
    ensures
        text::replaced(from + rest, from, to) == to + text::replaced(rest, from, to),
{
    let s = from + rest;
    assert(s.subrange(0, from.len() as int) =~= from);
    text::texts_are_replaced_from_the_first_on(s, from, to, 0);
    assert(s.skip(from.len() as int) =~= rest);
    assert(s.take(0) + to =~= to);
}

} // verus!
