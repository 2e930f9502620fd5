//! Which generated files are removed with a worktree, and in what order.

use vstd::prelude::*;

use crate::model;
use crate::paths;
use crate::state::Record;
use crate::text;

verus! {

broadcast use {crate::model::lemma_views_push, crate::model::lemma_pairs_push};

// ---------------------------------------------------------------------------
// Where files wait for deletion
// ---------------------------------------------------------------------------

pub open spec fn trash_name() -> Seq<char> {
    ".wt-trash"@
}

/// The directory next to a worktree that holds generated files awaiting deletion.
pub open spec fn trash_of(worktree: Seq<char>) -> Option<Seq<char>> {
    match paths::parent_of(worktree) {
        Some(parent) => Some(paths::joined(parent, trash_name())),
        None => None,
    }
}

pub fn trash_dir(worktree: &str) -> (r: Option<String>)
    ensures
        model::opt(r) == trash_of(worktree@),
{
    match paths::parent(worktree) {
        Some(parent) => Some(paths::join(&parent, ".wt-trash")),
        None => None,
    }
}

/// Whether a directory may be emptied: never an arbitrary one.
pub fn may_purge(trash: &str) -> (r: bool)
    ensures
        r == (paths::name_of(trash@) == Some(trash_name())),
{
    match paths::file_name(trash) {
        Some(name) => text::same(&name, ".wt-trash"),
        None => false,
    }
}

/// The trash next to a worktree lies in the directory that the worktree is in, and may be emptied.
pub proof fn trash_may_be_purged(worktree: Seq<char>)
    requires
        paths::parent_of(worktree) is Some,
    ensures
        trash_of(worktree) matches Some(trash) && paths::name_of(trash) == Some(trash_name()) && paths::lies_in(
            trash,
            paths::parent_of(worktree)->0,
        ),
{
    reveal_strlit(".wt-trash");
    assert(!trash_name().contains('/'));
    paths::a_joined_name_lies_in_its_directory(paths::parent_of(worktree)->0, trash_name());
}

// ---------------------------------------------------------------------------
// What to remove
// ---------------------------------------------------------------------------

/// What was found at a path, without following a link there.
#[derive(Clone, Copy)]
pub enum Status {
    Missing,
    Link,
    Present,
    Unreadable,
}

/// A path that was looked at.
pub struct Inspected {
    pub path: String,
    pub status: Status,
}

pub open spec fn status_under(path: Seq<char>) -> spec_fn(Inspected) -> Option<Status> {
    |found: Inspected|
        if paths::same_path(found.path@, path) {
            Some(found.status)
        } else {
            None
        }
}

/// What was found at a path; a path that was not looked at counts as missing.
pub open spec fn status_of(found: Seq<Inspected>, path: Seq<char>) -> Status {
    match model::first_some(found, status_under(path)) {
        Some(status) => status,
        None => Status::Missing,
    }
}

fn status(found: &Vec<Inspected>, path: &str) -> (r: Status)
    ensures
        r == status_of(found@, path@),
{
    let ghost f = status_under(path@);
    for i in 0..found.len()
        invariant
            f == status_under(path@),
            forall|k: int| 0 <= k < i ==> f(#[trigger] found@[k]) is None,
    {
        if paths::same(&found[i].path, path) {
            proof {
                model::found_some(found@, f, i as int);
            }
            return found[i].status;
        }
    }
    proof {
        model::found_none(found@, f);
    }
    Status::Missing
}

/// Whether the directories above a path are what they seem: the first that is a link, or that
/// cannot be looked at, is refused.
pub open spec fn checked(root: Seq<char>, directories: Seq<Seq<char>>, found: Seq<Inspected>) -> Result<(), Seq<char>>
    decreases directories.len(),
{
    if directories.len() == 0 {
        Ok(())
    } else {
        let place = paths::joined(root, directories[0]);
        match status_of(found, place) {
            Status::Link => Err("cleanup path has a symlink ancestor: "@ + place),
            Status::Unreadable => Err("inspect "@ + place),
            _ => checked(root, directories.drop_first(), found),
        }
    }
}

fn check_ancestors(root: &str, path: &str, found: &Vec<Inspected>) -> (r: Result<(), String>)
    ensures
        model::outcome(r) == checked(root@, paths::above(path@), found@),
{
    let directories = paths::ancestors(path);
    let ghost all = paths::above(path@);
    assert(all.skip(0) =~= all);
    for i in 0..directories.len()
        invariant
            all == model::views(directories@),
            all == paths::above(path@),
            checked(root@, all, found@) == checked(root@, all.skip(i as int), found@),
    {
        let place = paths::join(root, &directories[i]);
        proof {
            assert(all.skip(i as int)[0] == directories@[i as int]@);
            assert(all.skip(i as int).drop_first() =~= all.skip(i + 1));
        }
        match status(found, &place) {
            Status::Link => {
                return Err(text::concat("cleanup path has a symlink ancestor: ", &place));
            },
            Status::Unreadable => {
                return Err(text::concat("inspect ", &place));
            },
            _ => {},
        }
    }
    assert(all.skip(all.len() as int).len() == 0);
    Ok(())
}

/// The topmost of sorted paths.
pub open spec fn topmost(root: Seq<char>, list: Seq<Seq<char>>, found: Seq<Inspected>) -> Result<
    Seq<Seq<char>>,
    Seq<char>,
>
    decreases list.len(),
{
    if list.len() == 0 {
        Ok(Seq::empty())
    } else {
        match topmost(root, list.drop_last(), found) {
            Err(message) => Err(message),
            Ok(roots) => if paths::covered(roots, list.last()) {
                Ok(roots)
            } else {
                match checked(root, paths::above(list.last()), found) {
                    Err(message) => Err(message),
                    Ok(_) => Ok(roots.push(list.last())),
                }
            },
        }
    }
}

/// The paths to remove below a root: each once, without those that lie in another, and none that
/// sits below a link.
pub open spec fn removal_of(root: Seq<char>, list: Seq<Seq<char>>, found: Seq<Inspected>) -> Result<
    Seq<Seq<char>>,
    Seq<char>,
> {
    topmost(root, paths::sorted_set(list), found)
}

proof fn lemma_topmost_error(root: Seq<char>, list: Seq<Seq<char>>, found: Seq<Inspected>, n: int)
    requires
        0 <= n <= list.len(),
        topmost(root, list.take(n), found) is Err,
    ensures
        topmost(root, list, found) == topmost(root, list.take(n), found),
    decreases list.len(),
{
    if n < list.len() {
        assert(list.drop_last().take(n) =~= list.take(n));
        lemma_topmost_error(root, list.drop_last(), found, n);
    } else {
        assert(list.take(n) =~= list);
    }
}

/// The topmost of the paths to remove, given what was found at the directories above them.
pub fn removal_roots(root: &str, list: &Vec<String>, found: &Vec<Inspected>) -> (r: Result<Vec<String>, String>)
    ensures
        model::outcome_list(r) == removal_of(root@, model::views(list@), found@),
{
    let sorted = paths::sort_unique(list);
    let ghost all = paths::sorted_set(model::views(list@));
    let mut roots: Vec<String> = Vec::new();
    assert(all.take(0) =~= Seq::empty());
    assert(model::views(roots@) =~= Seq::empty());
    for i in 0..sorted.len()
        invariant
            all == model::views(sorted@),
            all == paths::sorted_set(model::views(list@)),
            topmost(root@, all.take(i as int), found@) == Ok::<Seq<Seq<char>>, Seq<char>>(model::views(roots@)),
    {
        proof {
            model::step(all, i as int);
            assert(all[i as int] == sorted@[i as int]@);
        }
        if !paths::list_covers(&roots, &sorted[i]) {
            match check_ancestors(root, &sorted[i], found) {
                Err(message) => {
                    proof {
                        lemma_topmost_error(root@, all, found@, i + 1);
                    }
                    return Err(message);
                },
                Ok(_) => {},
            }
            roots.push(sorted[i].clone());
        }
    }
    proof {
        model::whole(all);
    }
    Ok(roots)
}

/// The directories above the paths, below a root: those to look at before anything is removed.
pub fn to_inspect(root: &str, list: &Vec<String>) -> (r: Vec<String>)
    ensures
        model::views(r@) == inspected_places(root@, model::views(list@)),
{
    let ghost all = model::views(list@);
    let mut out: Vec<String> = Vec::new();
    assert(all.take(0) =~= Seq::empty());
    assert(model::views(out@) =~= Seq::empty());
    for i in 0..list.len()
        invariant
            all == model::views(list@),
            model::views(out@) == inspected_places(root@, all.take(i as int)),
    {
        proof {
            model::step(all, i as int);
            assert(all[i as int] == list@[i as int]@);
        }
        let directories = paths::ancestors(&list[i]);
        let ghost above = paths::above(list@[i as int]@);
        let ghost before = model::views(out@);
        let ghost places = above.map_values(|d: Seq<char>| paths::joined(root@, d));
        assert(before + places.take(0) =~= before);
        for j in 0..directories.len()
            invariant
                above == model::views(directories@),
                places == above.map_values(|d: Seq<char>| paths::joined(root@, d)),
                model::views(out@) == before + places.take(j as int),
        {
            proof {
                model::step(places, j as int);
                assert(above[j as int] == directories@[j as int]@);
                assert(before + places.take(j + 1) =~= (before + places.take(j as int)).push(places[j as int]));
            }
            out.push(paths::join(root, &directories[j]));
        }
        proof {
            model::whole(places);
        }
    }
    proof {
        model::whole(all);
    }
    out
}

pub open spec fn inspected_places(root: Seq<char>, list: Seq<Seq<char>>) -> Seq<Seq<char>>
    decreases list.len(),
{
    if list.len() == 0 {
        Seq::empty()
    } else {
        inspected_places(root, list.drop_last()) + paths::above(list.last()).map_values(
            |d: Seq<char>| paths::joined(root, d),
        )
    }
}

proof fn lemma_checked(root: Seq<char>, directories: Seq<Seq<char>>, found: Seq<Inspected>)
    requires
        checked(root, directories, found) is Ok,
    ensures
        forall|i: int|
            0 <= i < directories.len() ==> !(status_of(found, paths::joined(root, #[trigger] directories[i])) is Link),
    decreases directories.len(),
{
    if directories.len() > 0 {
        let rest = directories.drop_first();
        lemma_checked(root, rest, found);
        assert forall|i: int| 0 <= i < directories.len() implies !(status_of(
            found,
            paths::joined(root, #[trigger] directories[i]),
        ) is Link) by {
            if i > 0 {
                assert(rest[i - 1] == directories[i]);
            }
        }
    }
}

proof fn lemma_topmost(root: Seq<char>, list: Seq<Seq<char>>, found: Seq<Inspected>)
    requires
        topmost(root, list, found) is Ok,
        model::ascending(list, paths::path_order()),
    ensures
        ({
            let roots = topmost(root, list, found)->Ok_0;
            &&& forall|p: Seq<char>| #[trigger] roots.contains(p) ==> list.contains(p)
            &&& forall|p: Seq<char>| #[trigger] list.contains(p) ==> paths::covered(roots, p)
            &&& forall|i: int, j: int|
                0 <= i < roots.len() && 0 <= j < roots.len() && i != j ==> !paths::lies_in(
                    #[trigger] roots[i],
                    #[trigger] roots[j],
                )
            &&& forall|i: int, k: int|
                0 <= i < roots.len() && 0 <= k < paths::above(roots[i]).len() ==> !(status_of(
                    found,
                    paths::joined(root, #[trigger] paths::above(roots[i])[k]),
                ) is Link)
        }),
    decreases list.len(),
{
    if list.len() > 0 {
        let init = list.drop_last();
        let last = list.last();
        assert forall|i: int, j: int| 0 <= i < j < init.len() implies !paths::path_order()(
            #[trigger] init[j],
            #[trigger] init[i],
        ) by {
            assert(!paths::path_order()(list[j], list[i]));
        }
        lemma_topmost(root, init, found);
        let before = topmost(root, init, found)->Ok_0;
        let roots = topmost(root, list, found)->Ok_0;
        assert forall|p: Seq<char>| #[trigger] roots.contains(p) implies list.contains(p) by {
            let k = choose|k: int| 0 <= k < roots.len() && roots[k] == p;
            if k < before.len() {
                assert(before[k] == p);
                assert(before.contains(p));
                let m = choose|m: int| 0 <= m < init.len() && init[m] == p;
                assert(list[m] == p);
            } else {
                assert(list[list.len() - 1] == p);
            }
        }
        assert forall|p: Seq<char>| #[trigger] list.contains(p) implies paths::covered(roots, p) by {
            let m = choose|m: int| 0 <= m < list.len() && list[m] == p;
            if m < init.len() {
                assert(init[m] == p);
                assert(init.contains(p));
                let k = choose|k: int| 0 <= k < before.len() && paths::lies_in(p, #[trigger] before[k]);
                assert(roots[k] == before[k]);
            } else if !paths::covered(before, last) {
                assert(roots[roots.len() - 1] == last);
                assert(paths::lies_in(p, roots[roots.len() - 1]));
            }
        }
        if !paths::covered(before, last) {
            lemma_checked(root, paths::above(last), found);
            assert forall|i: int, j: int| 0 <= i < roots.len() && 0 <= j < roots.len() && i != j implies !paths::lies_in(
                #[trigger] roots[i],
                #[trigger] roots[j],
            ) by {
                if i < before.len() && j < before.len() {
                    assert(!paths::lies_in(before[i], before[j]));
                } else if i < before.len() {
                    assert(before.contains(before[i]));
                    let m = choose|m: int| 0 <= m < init.len() && init[m] == before[i];
                    assert(!paths::path_order()(list[list.len() - 1], list[m]));
                    if paths::lies_in(before[i], last) {
                        if paths::same_path(before[i], last) {
                            assert(paths::lies_in(last, before[i]));
                        } else {
                            paths::lemma_directory_first(before[i], last);
                        }
                    }
                } else {
                    assert(!paths::lies_in(last, before[j]));
                }
            }
        }
        assert forall|i: int, k: int| 0 <= i < roots.len() && 0 <= k < paths::above(roots[i]).len() implies !(status_of(
            found,
            paths::joined(root, #[trigger] paths::above(roots[i])[k]),
        ) is Link) by {
            if i < before.len() {
                assert(roots[i] == before[i]);
                assert(!(status_of(found, paths::joined(root, paths::above(before[i])[k])) is Link));
            }
        }
    }
}

/// What is removed is what was asked for: every path lies in one of the roots, every root was asked
/// for, and no root lies in another. Nothing at all is removed where one of the roots sits below a
/// link.
pub proof fn only_asked_paths_are_removed(root: Seq<char>, list: Seq<Seq<char>>, found: Seq<Inspected>)
    requires
        removal_of(root, list, found) is Ok,
    ensures
        ({
            let roots = removal_of(root, list, found)->Ok_0;
            &&& forall|p: Seq<char>| #[trigger] roots.contains(p) ==> list.contains(p)
            &&& forall|p: Seq<char>| #[trigger] list.contains(p) ==> paths::covered(roots, p)
            &&& forall|i: int, j: int|
                0 <= i < roots.len() && 0 <= j < roots.len() && i != j ==> !paths::lies_in(
                    #[trigger] roots[i],
                    #[trigger] roots[j],
                )
            &&& forall|i: int, k: int|
                0 <= i < roots.len() && 0 <= k < paths::above(roots[i]).len() ==> !(status_of(
                    found,
                    paths::joined(root, #[trigger] paths::above(roots[i])[k]),
                ) is Link)
        }),
{
    let sorted = paths::sorted_set(list);
    let roots = removal_of(root, list, found)->Ok_0;
    paths::sorted_set_is_the_set(list);
    lemma_topmost(root, sorted, found);
    assert forall|p: Seq<char>| #[trigger] roots.contains(p) implies list.contains(p) by {
        assert(sorted.contains(p));
    }
    assert forall|p: Seq<char>| #[trigger] list.contains(p) implies paths::covered(roots, p) by {
        let k = choose|k: int| 0 <= k < sorted.len() && paths::same_path(#[trigger] sorted[k], p);
        assert(sorted.contains(sorted[k]));
        let m = choose|m: int| 0 <= m < roots.len() && paths::lies_in(sorted[k], #[trigger] roots[m]);
        assert(paths::lies_in(p, roots[m]));
    }
}

/// Whether a directory above a path keeps it from being removed: a link, or what cannot be looked
/// at.
pub open spec fn stops(found: Seq<Inspected>, place: Seq<char>) -> bool {
    status_of(found, place) is Link || status_of(found, place) is Unreadable
}

proof fn lemma_checked_ok(root: Seq<char>, directories: Seq<Seq<char>>, found: Seq<Inspected>)
    ensures
        checked(root, directories, found) is Ok <==> forall|k: int|
            0 <= k < directories.len() ==> !stops(found, paths::joined(root, #[trigger] directories[k])),
        checked(root, directories, found) matches Err(message) ==> exists|k: int|
            0 <= k < directories.len() && {
                let place = paths::joined(root, #[trigger] directories[k]);
                ||| status_of(found, place) is Link && message == "cleanup path has a symlink ancestor: "@ + place
                ||| status_of(found, place) is Unreadable && message == "inspect "@ + place
            },
    decreases directories.len(),
{
    if directories.len() > 0 {
        let rest = directories.drop_first();
        let place = paths::joined(root, directories[0]);
        lemma_checked_ok(root, rest, found);
        if !stops(found, place) {
            if checked(root, rest, found) is Ok {
                assert forall|k: int| 0 <= k < directories.len() implies !stops(
                    found,
                    paths::joined(root, #[trigger] directories[k]),
                ) by {
                    if k > 0 {
                        assert(rest[k - 1] == directories[k]);
                    }
                }
            } else {
                let message = checked(root, rest, found)->Err_0;
                let k = choose|k: int|
                    0 <= k < rest.len() && {
                        let place = paths::joined(root, #[trigger] rest[k]);
                        ||| status_of(found, place) is Link && message == "cleanup path has a symlink ancestor: "@ + place
                        ||| status_of(found, place) is Unreadable && message == "inspect "@ + place
                    };
                assert(directories[k + 1] == rest[k]);
            }
        } else {
            assert(stops(found, paths::joined(root, directories[0])));
        }
    }
}

proof fn lemma_topmost_ok(root: Seq<char>, list: Seq<Seq<char>>, found: Seq<Inspected>)
    ensures
        topmost(root, list, found) is Ok ==> forall|i: int, k: int|
            0 <= i < topmost(root, list, found)->Ok_0.len() && 0 <= k < paths::above(
                topmost(root, list, found)->Ok_0[i],
            ).len() ==> !stops(
                found,
                paths::joined(root, #[trigger] paths::above(topmost(root, list, found)->Ok_0[i])[k]),
            ),
        topmost(root, list, found) matches Err(message) ==> exists|i: int, k: int|
            0 <= i < list.len() && 0 <= k < paths::above(list[i]).len() && {
                let place = paths::joined(root, #[trigger] paths::above(list[i])[k]);
                ||| status_of(found, place) is Link && message == "cleanup path has a symlink ancestor: "@ + place
                ||| status_of(found, place) is Unreadable && message == "inspect "@ + place
            },
    decreases list.len(),
{
    if list.len() > 0 {
        let init = list.drop_last();
        let last = list[list.len() - 1];
        lemma_topmost_ok(root, init, found);
        match topmost(root, init, found) {
            Err(message) => {
                let (i, k) = choose|i: int, k: int|
                    0 <= i < init.len() && 0 <= k < paths::above(init[i]).len() && {
                        let place = paths::joined(root, #[trigger] paths::above(init[i])[k]);
                        ||| status_of(found, place) is Link && message == "cleanup path has a symlink ancestor: "@ + place
                        ||| status_of(found, place) is Unreadable && message == "inspect "@ + place
                    };
                assert(list[i] == init[i]);
                assert(paths::above(list[i])[k] == paths::above(init[i])[k]);
            },
            Ok(before) => {
                if !paths::covered(before, last) {
                    lemma_checked_ok(root, paths::above(last), found);
                    if checked(root, paths::above(last), found) is Err {
                        let message = checked(root, paths::above(last), found)->Err_0;
                        let k = choose|k: int|
                            0 <= k < paths::above(last).len() && {
                                let place = paths::joined(root, #[trigger] paths::above(last)[k]);
                                ||| status_of(found, place) is Link && message
                                    == "cleanup path has a symlink ancestor: "@ + place
                                ||| status_of(found, place) is Unreadable && message == "inspect "@ + place
                            };
                        assert(paths::above(list[list.len() - 1])[k] == paths::above(last)[k]);
                    } else {
                        let roots = topmost(root, list, found)->Ok_0;
                        assert forall|i: int, k: int|
                            0 <= i < roots.len() && 0 <= k < paths::above(roots[i]).len() implies !stops(
                            found,
                            paths::joined(root, #[trigger] paths::above(roots[i])[k]),
                        ) by {
                            if i < before.len() {
                                assert(roots[i] == before[i]);
                                assert(!stops(found, paths::joined(root, paths::above(before[i])[k])));
                            }
                        }
                    }
                }
            },
        }
    }
}

/// A removal is refused only for a directory above a path that was asked for: a link, or one that
/// cannot be looked at, which the message names. Where no directory above any asked path is either,
/// it is not refused; and no directory above what is removed is either.
pub proof fn removal_is_refused_for_a_link_above(root: Seq<char>, list: Seq<Seq<char>>, found: Seq<Inspected>)
    ensures
        removal_of(root, list, found) matches Err(message) ==> exists|p: Seq<char>, k: int| #[trigger]
            list.contains(p) && 0 <= k < paths::above(p).len() && {
                let place = paths::joined(root, #[trigger] paths::above(p)[k]);
                ||| status_of(found, place) is Link && message == "cleanup path has a symlink ancestor: "@ + place
                ||| status_of(found, place) is Unreadable && message == "inspect "@ + place
            },
        removal_of(root, list, found) matches Ok(roots) ==> forall|i: int, k: int|
            0 <= i < roots.len() && 0 <= k < paths::above(roots[i]).len() ==> {
                let place = paths::joined(root, #[trigger] paths::above(roots[i])[k]);
                !(status_of(found, place) is Link) && !(status_of(found, place) is Unreadable)
            },
{
    let sorted = paths::sorted_set(list);
    paths::sorted_set_is_the_set(list);
    lemma_topmost_ok(root, sorted, found);
    match removal_of(root, list, found) {
        Err(message) => {
            let (i, k) = choose|i: int, k: int|
                0 <= i < sorted.len() && 0 <= k < paths::above(sorted[i]).len() && {
                    let place = paths::joined(root, #[trigger] paths::above(sorted[i])[k]);
                    ||| status_of(found, place) is Link && message == "cleanup path has a symlink ancestor: "@ + place
                    ||| status_of(found, place) is Unreadable && message == "inspect "@ + place
                };
            assert(sorted.contains(sorted[i]));
            assert(list.contains(sorted[i]));
        },
        Ok(roots) => {
            assert forall|i: int, k: int| 0 <= i < roots.len() && 0 <= k < paths::above(roots[i]).len() implies {
                let place = paths::joined(root, #[trigger] paths::above(roots[i])[k]);
                !(status_of(found, place) is Link) && !(status_of(found, place) is Unreadable)
            } by {
                assert(!stops(found, paths::joined(root, paths::above(roots[i])[k])));
            }
        },
    }
}

/// What was found at a path is what the first inspection of it says, and nothing where it was not
/// inspected.
pub proof fn statuses_are_those_inspected(found: Seq<Inspected>, path: Seq<char>, k: int)
    ensures
        0 <= k < found.len() && paths::same_path(found[k].path@, path) && (forall|i: int|
            0 <= i < k ==> !paths::same_path((#[trigger] found[i]).path@, path)) ==> status_of(found, path)
            == found[k].status,
        (forall|i: int| 0 <= i < found.len() ==> !paths::same_path((#[trigger] found[i]).path@, path)) ==> status_of(
            found,
            path,
        ) is Missing,
{
    let f = status_under(path);
    if 0 <= k < found.len() && paths::same_path(found[k].path@, path) && (forall|i: int|
        0 <= i < k ==> !paths::same_path((#[trigger] found[i]).path@, path)) {
        assert forall|i: int| 0 <= i < k implies f(#[trigger] found[i]) is None by {
            assert(!paths::same_path(found[i].path@, path));
        }
        model::found_some(found, f, k);
    }
    if forall|i: int| 0 <= i < found.len() ==> !paths::same_path((#[trigger] found[i]).path@, path) {
        assert forall|i: int| 0 <= i < found.len() implies f(#[trigger] found[i]) is None by {
            assert(!paths::same_path(found[i].path@, path));
        }
        model::found_none(found, f);
    }
}

/// Every directory above every asked path is inspected before anything is removed, and nothing
/// else is.
pub proof fn every_directory_above_is_inspected(root: Seq<char>, list: Seq<Seq<char>>)
    ensures
        forall|i: int, k: int|
            0 <= i < list.len() && 0 <= k < paths::above(list[i]).len() ==> inspected_places(root, list).contains(
                paths::joined(root, #[trigger] paths::above(list[i])[k]),
            ),
        forall|place: Seq<char>| #[trigger]
            inspected_places(root, list).contains(place) ==> exists|i: int, k: int|
                0 <= i < list.len() && 0 <= k < paths::above(list[i]).len() && place == paths::joined(
                    root,
                    #[trigger] paths::above(list[i])[k],
                ),
    decreases list.len(),
{
    if list.len() > 0 {
        let init = list.drop_last();
        let last = list[list.len() - 1];
        let before = inspected_places(root, init);
        let more = paths::above(last).map_values(|d: Seq<char>| paths::joined(root, d));
        let all = inspected_places(root, list);
        every_directory_above_is_inspected(root, init);
        assert(all == before + more);
        assert forall|i: int, k: int| 0 <= i < list.len() && 0 <= k < paths::above(list[i]).len() implies all.contains(
            paths::joined(root, #[trigger] paths::above(list[i])[k]),
        ) by {
            let place = paths::joined(root, paths::above(list[i])[k]);
            if i < init.len() {
                assert(init[i] == list[i]);
                assert(before.contains(paths::joined(root, paths::above(init[i])[k])));
                let j = choose|j: int| 0 <= j < before.len() && before[j] == place;
                assert(all[j] == place);
            } else {
                assert(more[k] == place);
                assert(all[before.len() + k] == place);
            }
        }
        assert forall|place: Seq<char>| #[trigger] all.contains(place) implies exists|i: int, k: int|
            0 <= i < list.len() && 0 <= k < paths::above(list[i]).len() && place == paths::joined(
                root,
                #[trigger] paths::above(list[i])[k],
            ) by {
            let j = choose|j: int| 0 <= j < all.len() && all[j] == place;
            if j < before.len() {
                assert(before[j] == place);
                assert(before.contains(place));
                let (i, k) = choose|i: int, k: int|
                    0 <= i < init.len() && 0 <= k < paths::above(init[i]).len() && place == paths::joined(
                        root,
                        #[trigger] paths::above(init[i])[k],
                    );
                assert(paths::above(list[i])[k] == paths::above(init[i])[k]);
            } else {
                let k = j - before.len();
                assert(more[k] == place);
                assert(place == paths::joined(root, paths::above(list[list.len() - 1])[k]));
            }
        }
    }
}

// ---------------------------------------------------------------------------
// In what order
// ---------------------------------------------------------------------------

/// What is at a path, as far as it was looked at: a directory with its entries, or anything else.
pub struct Tree {
    pub path: String,
    pub entries: Option<Vec<Tree>>,
}

/// The paths to delete whole: what lies `depth` levels down, and what is no directory above that.
pub open spec fn tasks_of(tree: Tree, depth: nat) -> Seq<Seq<char>>
    decreases depth, 0nat,
{
    match tree.entries {
        Some(entries) => if depth == 0 {
            seq![tree.path@]
        } else {
            tasks_of_all(entries@, (depth - 1) as nat)
        },
        None => seq![tree.path@],
    }
}

pub open spec fn tasks_of_all(list: Seq<Tree>, depth: nat) -> Seq<Seq<char>>
    decreases depth, list.len() + 1,
{
    if list.len() == 0 {
        Seq::empty()
    } else {
        tasks_of_all(list.drop_last(), depth) + tasks_of(list.last(), depth)
    }
}

/// The directories to remove once what is in them is gone, each behind those inside it.
pub open spec fn parents_of(tree: Tree, depth: nat) -> Seq<Seq<char>>
    decreases depth, 0nat,
{
    match tree.entries {
        Some(entries) => if depth == 0 {
            Seq::empty()
        } else {
            parents_of_all(entries@, (depth - 1) as nat).push(tree.path@)
        },
        None => Seq::empty(),
    }
}

pub open spec fn parents_of_all(list: Seq<Tree>, depth: nat) -> Seq<Seq<char>>
    decreases depth, list.len() + 1,
{
    if list.len() == 0 {
        Seq::empty()
    } else {
        parents_of_all(list.drop_last(), depth) + parents_of(list.last(), depth)
    }
}

pub fn partition(tree: &Tree, depth: usize, tasks: &mut Vec<String>, parents: &mut Vec<String>)
    ensures
        model::views(final(tasks)@) == model::views(old(tasks)@) + tasks_of(*tree, depth as nat),
        model::views(final(parents)@) == model::views(old(parents)@) + parents_of(*tree, depth as nat),
    decreases depth,
{
    let ghost first = model::views(tasks@);
    let ghost second = model::views(parents@);
    match &tree.entries {
        Some(entries) => {
            if depth == 0 {
                tasks.push(tree.path.clone());
                assert(first.push(tree.path@) =~= first + tasks_of(*tree, depth as nat));
                assert(second =~= second + parents_of(*tree, depth as nat));
                return;
            }
            let ghost d = (depth - 1) as nat;
            assert(entries@.take(0) =~= Seq::empty());
            assert(first + tasks_of_all(entries@.take(0), d) =~= first);
            assert(second + parents_of_all(entries@.take(0), d) =~= second);
            for i in 0..entries.len()
                invariant
                    depth > 0,
                    d == depth - 1,
                    model::views(tasks@) == first + tasks_of_all(entries@.take(i as int), d),
                    model::views(parents@) == second + parents_of_all(entries@.take(i as int), d),
            {
                let ghost a = tasks_of_all(entries@.take(i as int), d);
                let ghost b = parents_of_all(entries@.take(i as int), d);
                proof {
                    model::step(entries@, i as int);
                }
                partition(&entries[i], depth - 1, tasks, parents);
                assert(first + a + tasks_of(entries@[i as int], d) =~= first + (a + tasks_of(entries@[i as int], d)));
                assert(second + b + parents_of(entries@[i as int], d) =~= second + (b + parents_of(
                    entries@[i as int],
                    d,
                )));
            }
            proof {
                model::whole(entries@);
            }
            let ghost inner = parents_of_all(entries@, d);
            parents.push(tree.path.clone());
            assert((second + inner).push(tree.path@) =~= second + inner.push(tree.path@));
        },
        None => {
            tasks.push(tree.path.clone());
            assert(first.push(tree.path@) =~= first + tasks_of(*tree, depth as nat));
            assert(second =~= second + parents_of(*tree, depth as nat));
        },
    }
}

/// Whether the entries of directories lie in them.
pub open spec fn nested(tree: Tree) -> bool
    decreases tree,
{
    match tree.entries {
        Some(entries) => forall|i: int|
            0 <= i < entries@.len() ==> paths::lies_in((#[trigger] entries@[i]).path@, tree.path@) && nested(
                entries@[i],
            ),
        None => true,
    }
}

/// Nothing outside a directory is removed with it.
pub proof fn only_what_lies_below_is_removed(tree: Tree, depth: nat)
    requires
        nested(tree),
    ensures
        forall|i: int|
            0 <= i < tasks_of(tree, depth).len() ==> paths::lies_in(#[trigger] tasks_of(tree, depth)[i], tree.path@),
        forall|i: int|
            0 <= i < parents_of(tree, depth).len() ==> paths::lies_in(
                #[trigger] parents_of(tree, depth)[i],
                tree.path@,
            ),
    decreases depth, 0nat,
{
    match tree.entries {
        Some(entries) => {
            assert(paths::components(tree.path@).is_prefix_of(paths::components(tree.path@)));
            if depth > 0 {
                let d = (depth - 1) as nat;
                lemma_all_below(entries@, d, tree.path@);
                assert(tasks_of(tree, depth) == tasks_of_all(entries@, d));
                assert forall|i: int| 0 <= i < tasks_of(tree, depth).len() implies paths::lies_in(
                    #[trigger] tasks_of(tree, depth)[i],
                    tree.path@,
                ) by {
                    assert(paths::lies_in(tasks_of_all(entries@, d)[i], tree.path@));
                }
                let inner = parents_of_all(entries@, d);
                assert forall|i: int| 0 <= i < inner.push(tree.path@).len() implies paths::lies_in(
                    #[trigger] inner.push(tree.path@)[i],
                    tree.path@,
                ) by {
                    if i < inner.len() {
                        assert(paths::lies_in(inner[i], tree.path@));
                    }
                }
            }
        },
        None => {
            assert(paths::components(tree.path@).is_prefix_of(paths::components(tree.path@)));
        },
    }
}

proof fn lemma_all_below(list: Seq<Tree>, depth: nat, base: Seq<char>)
    requires
        forall|i: int| 0 <= i < list.len() ==> paths::lies_in((#[trigger] list[i]).path@, base) && nested(list[i]),
    ensures
        forall|i: int| 0 <= i < tasks_of_all(list, depth).len() ==> paths::lies_in(#[trigger] tasks_of_all(list, depth)[i], base),
        forall|i: int|
            0 <= i < parents_of_all(list, depth).len() ==> paths::lies_in(#[trigger] parents_of_all(list, depth)[i], base),
    decreases depth, list.len() + 1,
{
    if list.len() > 0 {
        let init = list.drop_last();
        let last = list[list.len() - 1];
        assert forall|i: int| 0 <= i < init.len() implies paths::lies_in((#[trigger] init[i]).path@, base) && nested(
            init[i],
        ) by {
            assert(init[i] == list[i]);
        }
        lemma_all_below(init, depth, base);
        only_what_lies_below_is_removed(last, depth);
        let a = tasks_of_all(init, depth);
        let b = tasks_of(last, depth);
        assert forall|i: int| 0 <= i < (a + b).len() implies paths::lies_in(#[trigger] (a + b)[i], base) by {
            if i < a.len() {
                assert(paths::lies_in(a[i], base));
            } else {
                assert(paths::lies_in(b[i - a.len()], last.path@));
                lemma_inside(b[i - a.len()], last.path@, base);
            }
        }
        let c = parents_of_all(init, depth);
        let d = parents_of(last, depth);
        assert forall|i: int| 0 <= i < (c + d).len() implies paths::lies_in(#[trigger] (c + d)[i], base) by {
            if i < c.len() {
                assert(paths::lies_in(c[i], base));
            } else {
                assert(paths::lies_in(d[i - c.len()], last.path@));
                lemma_inside(d[i - c.len()], last.path@, base);
            }
        }
    }
}

proof fn lemma_inside(p: Seq<char>, middle: Seq<char>, base: Seq<char>)
    requires
        paths::lies_in(p, middle),
        paths::lies_in(middle, base),
    ensures
        paths::lies_in(p, base),
{
    let n = paths::components(base).len() as int;
    assert(paths::components(p).take(n) =~= paths::components(middle).take(n));
}

/// What to delete, what to remove once that is gone, and by how many workers.
pub struct Plan {
    pub tasks: Vec<String>,
    pub parents: Vec<String>,
    pub workers: usize,
}

pub open spec fn tree_under(path: Seq<char>) -> spec_fn(Tree) -> Option<Tree> {
    |tree: Tree|
        if paths::same_path(tree.path@, path) {
            Some(tree)
        } else {
            None
        }
}

/// What was found at the places of the roots, for those where anything was.
pub open spec fn trees_of(root: Seq<char>, trees: Seq<Tree>) -> spec_fn(Seq<char>) -> Option<Tree> {
    |path: Seq<char>| model::first_some(trees, tree_under(paths::joined(root, path)))
}

/// How many levels are opened up before anything is deleted.
pub open spec fn levels() -> nat {
    2
}

fn find_tree<'a>(trees: &'a Vec<Tree>, path: &str) -> (r: Option<&'a Tree>)
    ensures
        match r {
            Some(tree) => model::first_some(trees@, tree_under(path@)) == Some(*tree),
            None => model::first_some(trees@, tree_under(path@)) is None,
        },
{
    let ghost f = tree_under(path@);
    for i in 0..trees.len()
        invariant
            f == tree_under(path@),
            forall|k: int| 0 <= k < i ==> f(#[trigger] trees@[k]) is None,
    {
        if paths::same(&trees[i].path, path) {
            proof {
                model::found_some(trees@, f, i as int);
            }
            return Some(&trees[i]);
        }
    }
    proof {
        model::found_none(trees@, f);
    }
    None
}

/// The paths to delete below a root, without following links: what was found at each of the
/// topmost paths, opened up two levels. Paths that are missing need no work.
pub fn remove_paths(root: &str, list: &Vec<String>, found: &Vec<Inspected>, trees: &Vec<Tree>) -> (r: Result<
    Plan,
    String,
>)
    ensures
        match removal_of(root@, model::views(list@), found@) {
            Err(message) => r matches Err(e) && e@ == message,
            Ok(roots) => r matches Ok(plan) && {
                let present = roots.filter_map(trees_of(root@, trees@));
                &&& model::views(plan.tasks@) == tasks_of_all(present, levels())
                &&& model::views(plan.parents@) == parents_of_all(present, levels())
                &&& plan.workers == if plan.tasks@.len() < 4 {
                    plan.tasks@.len()
                } else {
                    4
                }
            },
        },
{
    let roots = match removal_roots(root, list, found) {
        Ok(roots) => roots,
        Err(message) => {
            return Err(message);
        },
    };
    let ghost all = model::views(roots@);
    let ghost f = trees_of(root@, trees@);
    let mut tasks: Vec<String> = Vec::new();
    let mut parents: Vec<String> = Vec::new();
    proof {
        model::start_filter_map(all, f);
        assert(model::views(tasks@) =~= Seq::empty());
        assert(model::views(parents@) =~= Seq::empty());
    }
    for i in 0..roots.len()
        invariant
            all == model::views(roots@),
            f == trees_of(root@, trees@),
            model::views(tasks@) == tasks_of_all(all.take(i as int).filter_map(f), levels()),
            model::views(parents@) == parents_of_all(all.take(i as int).filter_map(f), levels()),
    {
        let ghost present = all.take(i as int).filter_map(f);
        proof {
            model::step_filter_map(all, i as int, f);
            assert(all[i as int] == roots@[i as int]@);
        }
        match find_tree(trees, &paths::join(root, &roots[i])) {
            Some(tree) => {
                partition(tree, 2, &mut tasks, &mut parents);
                assert(present.push(*tree).drop_last() =~= present);
            },
            None => {},
        }
    }
    proof {
        model::whole(all);
    }
    let workers: usize = if tasks.len() < 4 {
        tasks.len()
    } else {
        4
    };
    Ok(Plan { tasks, parents, workers })
}

// ---------------------------------------------------------------------------
// Moving files out of the way
// ---------------------------------------------------------------------------

/// A new directory in the trash, and what to move there.
pub struct Batch {
    pub directory: String,
    pub moves: Vec<(String, String)>,
}

/// The directory of a batch: no two that are made at once have the same.
pub open spec fn batch_directory(trash: Seq<char>, process: u32, nanos: u128, count: usize) -> Seq<char> {
    paths::joined(
        trash,
        text::decimal(process as nat) + "-"@ + text::decimal(nanos as nat) + "-"@ + text::decimal(count as nat),
    )
}

/// Where each of the roots is moved to.
pub open spec fn moves_of(root: Seq<char>, roots: Seq<Seq<char>>, directory: Seq<char>) -> Seq<(Seq<char>, Seq<char>)> {
    Seq::new(
        roots.len(),
        |i: int| (paths::joined(root, roots[i]), paths::joined(directory, text::decimal(i as nat))),
    )
}

/// How to move the configured paths out of the way, so that removal does not wait for large
/// generated trees; nothing where there are none.
pub fn trash_paths(
    root: &str,
    list: &Vec<String>,
    trash: &str,
    found: &Vec<Inspected>,
    process: u32,
    nanos: u128,
    count: usize,
) -> (r: Result<Option<Batch>, String>)
    ensures
        match removal_of(root@, model::views(list@), found@) {
            Err(message) => r matches Err(e) && e@ == message,
            Ok(roots) => if roots.len() == 0 {
                r matches Ok(None)
            } else {
                r matches Ok(Some(batch)) && {
                    &&& batch.directory@ == batch_directory(trash@, process, nanos, count)
                    &&& model::pairs(batch.moves@) == moves_of(root@, roots, batch.directory@)
                }
            },
        },
{
    let roots = match removal_roots(root, list, found) {
        Ok(roots) => roots,
        Err(message) => {
            return Err(message);
        },
    };
    assert(model::views(roots@).len() == roots@.len());
    if roots.len() == 0 {
        return Ok(None);
    }
    let mut name = text::concat3(&text::to_decimal(process as u64), "-", &text::to_decimal_wide(nanos));
    name.append("-");
    name.append(&text::to_decimal_wide(count as u128));
    let directory = paths::join(trash, &name);
    let ghost all = moves_of(root@, model::views(roots@), directory@);
    let mut moves: Vec<(String, String)> = Vec::new();
    assert(model::pairs(moves@) =~= all.take(0));
    for i in 0..roots.len()
        invariant
            all == moves_of(root@, model::views(roots@), directory@),
            model::pairs(moves@) == all.take(i as int),
    {
        proof {
            model::step(all, i as int);
            assert(model::views(roots@)[i as int] == roots@[i as int]@);
        }
        moves.push(
            (paths::join(root, &roots[i]), paths::join(&directory, &text::to_decimal_wide(i as u128))),
        );
    }
    proof {
        model::whole(all);
    }
    Ok(Some(Batch { directory, moves }))
}

/// How moving a path ended.
pub enum Moved {
    Done,
    Missing,
    OtherDevice,
    Failed,
}

/// Whether a path has to be deleted in place, after an attempt to move it.
pub fn after_move(source: &str, moved: &Moved) -> (r: Result<bool, String>)
    ensures
        match moved {
            Moved::Done => r == Ok::<bool, String>(false),
            Moved::Missing => r == Ok::<bool, String>(false),
            Moved::OtherDevice => r == Ok::<bool, String>(true),
            Moved::Failed => r matches Err(e) && e@ == "remove "@ + source@,
        },
{
    match moved {
        Moved::Done => Ok(false),
        Moved::Missing => Ok(false),
        Moved::OtherDevice => Ok(true),
        Moved::Failed => Err(text::concat("remove ", source)),
    }
}

// ---------------------------------------------------------------------------
// Removing a worktree
// ---------------------------------------------------------------------------

/// The trash for the generated files of a worktree.
pub fn worktree_trash(record: &Record) -> (r: Result<String, String>)
    ensures
        model::outcome(r) == match trash_of(record@.path) {
            Some(trash) => Ok::<Seq<char>, Seq<char>>(trash),
            None => Err("worktree path has no parent"@),
        },
{
    match trash_dir(&record.path) {
        Some(trash) => Ok(trash),
        None => Err("worktree path has no parent".to_owned()),
    }
}

/// The managed files of a worktree, where they are.
pub fn managed_paths(record: &Record) -> (r: Vec<String>)
    ensures
        model::views(r@) == record@.copied_files.map_values(
            |copy: (Seq<char>, Seq<char>)| paths::joined(record@.path, copy.0),
        ),
{
    let ghost all = record@.copied_files.map_values(
        |copy: (Seq<char>, Seq<char>)| paths::joined(record@.path, copy.0),
    );
    let mut out: Vec<String> = Vec::new();
    assert(model::views(out@) =~= all.take(0));
    for i in 0..record.copied_files.len()
        invariant
            all == record@.copied_files.map_values(
                |copy: (Seq<char>, Seq<char>)| paths::joined(record@.path, copy.0),
            ),
            model::views(out@) == all.take(i as int),
    {
        proof {
            model::step(all, i as int);
            assert(record@.copied_files[i as int] == (
                record.copied_files@[i as int].0@,
                record.copied_files@[i as int].1@,
            ));
        }
        out.push(paths::join(&record.path, &record.copied_files[i].0));
    }
    proof {
        model::whole(all);
    }
    out
}

/// How deleting a managed file ended.
pub enum Deleted {
    Done,
    Missing,
    Failed,
}

/// Whether removal goes on after a managed file: one that is missing is in order only with force.
pub fn delete_managed_files(path: &str, deleted: &Deleted, force: bool) -> (r: Result<(), String>)
    ensures
        model::outcome(r) == if deleted is Done || (deleted is Missing && force) {
            Ok::<(), Seq<char>>(())
        } else {
            Err("remove "@ + path@)
        },
{
    match deleted {
        Deleted::Done => Ok(()),
        Deleted::Missing => {
            if force {
                Ok(())
            } else {
                Err(text::concat("remove ", path))
            }
        },
        Deleted::Failed => Err(text::concat("remove ", path)),
    }
}

/// Whether a worktree is removed after its files were cleared: with force, Git deletes whatever
/// could not be moved aside.
pub fn remove_recorded_worktree(cleared: Result<(), String>, force: bool) -> (r: Result<(), String>)
    ensures
        model::outcome(r) == if force {
            Ok::<(), Seq<char>>(())
        } else {
            model::outcome(cleared)
        },
{
    if force {
        Ok(())
    } else {
        cleared
    }
}

/// Whether `part` is `tree` itself or stands at any depth in it.
pub open spec fn holds(tree: Tree, part: Tree) -> bool
    decreases tree,
{
    part == tree || (tree.entries matches Some(entries) && exists|i: int|
        0 <= i < entries@.len() && holds(#[trigger] entries@[i], part))
}

proof fn lemma_part_lies_below(tree: Tree, part: Tree)
    requires
        nested(tree),
        holds(tree, part),
    ensures
        paths::lies_in(part.path@, tree.path@),
    decreases tree,
{
    if part != tree {
        let entries = tree.entries->0;
        let i = choose|i: int| 0 <= i < entries@.len() && holds(#[trigger] entries@[i], part);
        assert(nested(entries@[i]));
        lemma_part_lies_below(entries@[i], part);
        lemma_inside(part.path@, entries@[i].path@, tree.path@);
    } else {
        assert(paths::components(tree.path@).is_prefix_of(paths::components(tree.path@)));
    }
}

proof fn lemma_entry_tasks(list: Seq<Tree>, depth: nat, k: int, path: Seq<char>)
    requires
        0 <= k < list.len(),
    ensures
        tasks_of(list[k], depth).contains(path) ==> tasks_of_all(list, depth).contains(path),
        parents_of(list[k], depth).contains(path) ==> parents_of_all(list, depth).contains(path),
    decreases list.len(),
{
    let init = list.drop_last();
    let a = tasks_of_all(init, depth);
    let b = tasks_of(list.last(), depth);
    let c = parents_of_all(init, depth);
    let d = parents_of(list.last(), depth);
    if k < init.len() {
        assert(init[k] == list[k]);
        lemma_entry_tasks(init, depth, k, path);
        if a.contains(path) {
            let i = choose|i: int| 0 <= i < a.len() && a[i] == path;
            assert((a + b)[i] == path);
        }
        if c.contains(path) {
            let i = choose|i: int| 0 <= i < c.len() && c[i] == path;
            assert((c + d)[i] == path);
        }
    } else {
        if b.contains(path) {
            let i = choose|i: int| 0 <= i < b.len() && b[i] == path;
            assert((a + b)[a.len() + i] == path);
        }
        if d.contains(path) {
            let i = choose|i: int| 0 <= i < d.len() && d[i] == path;
            assert((c + d)[c.len() + i] == path);
        }
    }
}

/// Nothing of a tree is left behind: every path in it lies in a path that is deleted whole, or is a
/// directory that is removed once it is empty.
pub proof fn nothing_of_a_tree_is_left(tree: Tree, depth: nat, part: Tree)
    requires
        nested(tree),
        holds(tree, part),
    ensures
        paths::covered(tasks_of(tree, depth), part.path@) || parents_of(tree, depth).contains(part.path@),
    decreases depth,
{
    if tree.entries is None || depth == 0 {
        lemma_part_lies_below(tree, part);
        assert(tasks_of(tree, depth)[0] == tree.path@);
    } else {
        let entries = tree.entries->0;
        let d = (depth - 1) as nat;
        let inner = parents_of_all(entries@, d);
        if part == tree {
            assert(parents_of(tree, depth)[inner.len() as int] == tree.path@);
        } else {
            let k = choose|k: int| 0 <= k < entries@.len() && holds(#[trigger] entries@[k], part);
            assert(nested(entries@[k]));
            nothing_of_a_tree_is_left(entries@[k], d, part);
            if paths::covered(tasks_of(entries@[k], d), part.path@) {
                let tasks = tasks_of(entries@[k], d);
                let i = choose|i: int| 0 <= i < tasks.len() && paths::lies_in(part.path@, #[trigger] tasks[i]);
                assert(tasks.contains(tasks[i]));
                lemma_entry_tasks(entries@, d, k, tasks[i]);
                let all = tasks_of_all(entries@, d);
                let j = choose|j: int| 0 <= j < all.len() && all[j] == tasks[i];
                assert(paths::lies_in(part.path@, all[j]));
            } else {
                lemma_entry_tasks(entries@, d, k, part.path@);
                let j = choose|j: int| 0 <= j < inner.len() && inner[j] == part.path@;
                assert(parents_of(tree, depth)[j] == part.path@);
            }
        }
    }
}

/// A directory is removed after everything in it: it comes last among the directories of its tree.
pub proof fn a_directory_is_removed_last(tree: Tree, depth: nat)
    requires
        tree.entries is Some,
        depth > 0,
    ensures
        parents_of(tree, depth).len() > 0,
        parents_of(tree, depth).last() == tree.path@,
{
}

/// Every root is moved, each to a place of its own in the batch's directory.
pub proof fn every_root_is_moved_to_its_own_place(root: Seq<char>, roots: Seq<Seq<char>>, directory: Seq<char>)
    ensures
        moves_of(root, roots, directory).len() == roots.len(),
        forall|i: int|
            0 <= i < roots.len() ==> (#[trigger] moves_of(root, roots, directory)[i]).0 == paths::joined(root, roots[i])
                && paths::lies_in(moves_of(root, roots, directory)[i].1, directory),
        forall|i: int, j: int|
            0 <= i < j < roots.len() ==> (#[trigger] moves_of(root, roots, directory)[i]).1 != (
            #[trigger] moves_of(root, roots, directory)[j]).1,
{
    let moves = moves_of(root, roots, directory);
    assert forall|i: int| 0 <= i < roots.len() implies (#[trigger] moves[i]).0 == paths::joined(root, roots[i])
        && paths::lies_in(moves[i].1, directory) by {
        lemma_number_name(i as nat);
        paths::a_joined_name_lies_in_its_directory(directory, text::decimal(i as nat));
    }
    assert forall|i: int, j: int| 0 <= i < j < roots.len() implies (#[trigger] moves[i]).1 != (#[trigger] moves[j]).1 by {
        lemma_number_name(i as nat);
        lemma_number_name(j as nat);
        paths::a_joined_name_lies_in_its_directory(directory, text::decimal(i as nat));
        paths::a_joined_name_lies_in_its_directory(directory, text::decimal(j as nat));
        if moves[i].1 == moves[j].1 {
            assert(text::decimal(i as nat) == text::decimal(j as nat));
            text::decimal_is_injective(i as nat, j as nat);
        }
    }
}

proof fn lemma_number_name(n: nat)
    ensures
        text::decimal(n).len() > 0,
        !text::decimal(n).contains('/'),
        !text::decimal(n).contains('-'),
        paths::is_normal(text::decimal(n)),
{
    text::lemma_decimal(n);
    let s = text::decimal(n);
    assert(text::is_ascii_digit(s[0]));
    if s.contains('/') {
        let i = choose|i: int| 0 <= i < s.len() && s[i] == '/';
        assert(text::is_ascii_digit(s[i]));
    }
    if s.contains('-') {
        let i = choose|i: int| 0 <= i < s.len() && s[i] == '-';
        assert(text::is_ascii_digit(s[i]));
    }
    assert(paths::root()[0] == '/' && paths::current()[0] == '.' && paths::up()[0] == '.');
}

/// Batches of different processes, moments or counts get directories of their own.
pub proof fn batches_have_directories_of_their_own(
    trash: Seq<char>,
    process: u32,
    nanos: u128,
    count: usize,
    other_process: u32,
    other_nanos: u128,
    other_count: usize,
)
    requires
        batch_directory(trash, process, nanos, count) == batch_directory(
            trash,
            other_process,
            other_nanos,
            other_count,
        ),
    ensures
        process == other_process,
        nanos == other_nanos,
        count == other_count,
{
    lemma_batch_name(trash, process as nat, nanos as nat, count as nat);
    lemma_batch_name(trash, other_process as nat, other_nanos as nat, other_count as nat);
    let a = seq![text::decimal(process as nat), text::decimal(nanos as nat), text::decimal(count as nat)];
    let b = seq![
        text::decimal(other_process as nat),
        text::decimal(other_nanos as nat),
        text::decimal(other_count as nat),
    ];
    let one = text::decimal(process as nat) + "-"@ + text::decimal(nanos as nat) + "-"@ + text::decimal(count as nat);
    let two = text::decimal(other_process as nat) + "-"@ + text::decimal(other_nanos as nat) + "-"@ + text::decimal(
        other_count as nat,
    );
    assert(paths::components(trash).push(one).last() == one);
    assert(paths::components(trash).push(two).last() == two);
    assert(one == two);
    assert(a == b);
    assert(a[0] == b[0] && a[1] == b[1] && a[2] == b[2]);
    text::decimal_is_injective(process as nat, other_process as nat);
    text::decimal_is_injective(nanos as nat, other_nanos as nat);
    text::decimal_is_injective(count as nat, other_count as nat);
}

proof fn lemma_batch_name(trash: Seq<char>, a: nat, b: nat, c: nat)
    ensures
        ({
            let name = text::decimal(a) + "-"@ + text::decimal(b) + "-"@ + text::decimal(c);
            &&& paths::components(paths::joined(trash, name)) == paths::components(trash).push(name)
            &&& text::split(name, '-') == seq![text::decimal(a), text::decimal(b), text::decimal(c)]
        }),
{
    reveal_strlit("-");
    lemma_number_name(a);
    lemma_number_name(b);
    lemma_number_name(c);
    let list = seq![text::decimal(a), text::decimal(b), text::decimal(c)];
    let name = text::decimal(a) + "-"@ + text::decimal(b) + "-"@ + text::decimal(c);
    assert("-"@ =~= seq!['-']);
    assert(text::joined(list, seq!['-']) == name) by {
        reveal_with_fuel(text::joined, 4);
        assert(list.drop_last() =~= seq![list[0], list[1]]);
        assert(list.drop_last().drop_last() =~= seq![list[0]]);
    }
    crate::environment_laws::joined_pieces_are_split_again(list, '-');
    if name.contains('/') {
        let i = choose|i: int| 0 <= i < name.len() && name[i] == '/';
        let first = list[0].len() as int;
        let second = first + 1 + list[1].len();
        if i < first {
            assert(list[0][i] == '/');
        } else if i > first && i < second {
            assert(list[1][i - first - 1] == '/');
        } else if i > second {
            assert(list[2][i - second - 1] == '/');
        }
    }
    assert(name[list[0].len() as int] == '-');
    assert(paths::is_normal(name)) by {
        assert(paths::root().len() == 1 && paths::current().len() == 1 && paths::up().len() == 2);
        assert(name.len() >= 5);
    }
    paths::a_joined_name_lies_in_its_directory(trash, name);
}

} // verus!
