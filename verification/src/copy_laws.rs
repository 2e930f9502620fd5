//! What holds of the files that are copied into a new worktree.

use vstd::prelude::*;

use crate::environment;
use crate::environment::{Selection, Source};
use crate::model;
use crate::paths;

verus! {

/// Whether a file is selected by a configured path, or is an ignored file that is private by its
/// name.
pub open spec fn selected(selections: Seq<Selection>, ignored: Seq<Source>, source: Source) -> bool {
    ||| exists|i: int| 0 <= i < selections.len() && (#[trigger] selections[i]).files@.contains(source)
    ||| ignored.contains(source) && environment::is_local_source()(source)
}

/// Whether copies come from sources that satisfy `from` and that the worktree does not have, each
/// path once.
pub open spec fn sound(copies: Seq<(Seq<char>, Option<Seq<char>>)>, from: spec_fn(Source) -> bool) -> bool {
    &&& forall|i: int|
        0 <= i < copies.len() ==> exists|source: Source|
            from(source) && !source.present && #[trigger] environment::copy_of(source) == #[trigger] copies[i]
    &&& forall|i: int, j: int|
        0 <= i < j < copies.len() ==> !paths::same_path(#[trigger] copies[i].0, #[trigger] copies[j].0)
}

/// Whether a source is there already or is copied.
pub open spec fn provided(copies: Seq<(Seq<char>, Option<Seq<char>>)>, source: Source) -> bool {
    source.present || paths::listed(environment::copied_paths(copies), source.path@)
}

proof fn lemma_provided_more(
    copies: Seq<(Seq<char>, Option<Seq<char>>)>,
    copy: (Seq<char>, Option<Seq<char>>),
    source: Source,
)
    requires
        provided(copies, source),
    ensures
        provided(copies.push(copy), source),
{
    let before = environment::copied_paths(copies);
    let after = environment::copied_paths(copies.push(copy));
    if !source.present {
        let i = choose|i: int| 0 <= i < before.len() && paths::same_path(#[trigger] before[i], source.path@);
        assert(after[i] == before[i]);
    }
}

proof fn lemma_with_source(
    copies: Seq<(Seq<char>, Option<Seq<char>>)>,
    source: Source,
    from: spec_fn(Source) -> bool,
)
    requires
        sound(copies, from),
        from(source),
    ensures
        sound(environment::with_source(copies, source), from),
        provided(environment::with_source(copies, source), source),
        forall|other: Source| #[trigger]
            provided(copies, other) ==> provided(environment::with_source(copies, source), other),
{
    let known = environment::copied_paths(copies);
    let copy = environment::copy_of(source);
    let after = environment::with_source(copies, source);
    if !source.present && !paths::listed(known, source.path@) {
        assert(environment::copied_paths(after)[copies.len() as int] == source.path@);
        assert forall|i: int| 0 <= i < after.len() implies exists|s: Source|
            from(s) && !s.present && #[trigger] environment::copy_of(s) == #[trigger] after[i] by {
            if i < copies.len() {
                assert(after[i] == copies[i]);
            } else {
                assert(environment::copy_of(source) == after[i]);
            }
        }
        assert forall|i: int, j: int| 0 <= i < j < after.len() implies !paths::same_path(
            #[trigger] after[i].0,
            #[trigger] after[j].0,
        ) by {
            assert(after[i] == copies[i]);
            if j < copies.len() {
                assert(after[j] == copies[j]);
            } else {
                assert(known[i] == copies[i].0);
            }
        }
        assert forall|other: Source| #[trigger] provided(copies, other) implies provided(after, other) by {
            lemma_provided_more(copies, copy, other);
        }
    }
}

proof fn lemma_with_sources(
    copies: Seq<(Seq<char>, Option<Seq<char>>)>,
    sources: Seq<Source>,
    from: spec_fn(Source) -> bool,
)
    requires
        sound(copies, from),
        forall|i: int| 0 <= i < sources.len() ==> from(#[trigger] sources[i]),
    ensures
        sound(environment::with_sources(copies, sources), from),
        forall|i: int|
            0 <= i < sources.len() ==> provided(environment::with_sources(copies, sources), #[trigger] sources[i]),
        forall|other: Source| #[trigger]
            provided(copies, other) ==> provided(environment::with_sources(copies, sources), other),
    decreases sources.len(),
{
    if sources.len() > 0 {
        let init = sources.drop_last();
        lemma_with_sources(copies, init, from);
        let before = environment::with_sources(copies, init);
        lemma_with_source(before, sources.last(), from);
        let after = environment::with_sources(copies, sources);
        assert forall|i: int| 0 <= i < sources.len() implies provided(after, #[trigger] sources[i]) by {
            if i < init.len() {
                assert(provided(before, init[i]));
            }
        }
        assert forall|other: Source| #[trigger] provided(copies, other) implies provided(after, other) by {
            assert(provided(before, other));
        }
    }
}

proof fn lemma_with_selections(selections: Seq<Selection>, from: spec_fn(Source) -> bool)
    requires
        forall|i: int, k: int|
            0 <= i < selections.len() && 0 <= k < selections[i].files@.len() ==> from(
                #[trigger] selections[i].files@[k],
            ),
    ensures
        sound(environment::with_selections(selections), from),
        forall|i: int, k: int|
            0 <= i < selections.len() && 0 <= k < selections[i].files@.len() ==> provided(
                environment::with_selections(selections),
                #[trigger] selections[i].files@[k],
            ),
    decreases selections.len(),
{
    if selections.len() > 0 {
        let init = selections.drop_last();
        assert forall|i: int, k: int| 0 <= i < init.len() && 0 <= k < init[i].files@.len() implies from(
            #[trigger] init[i].files@[k],
        ) by {
            assert(init[i].files@[k] == selections[i].files@[k]);
        }
        lemma_with_selections(init, from);
        let before = environment::with_selections(init);
        let files = selections.last().files@;
        assert forall|k: int| 0 <= k < files.len() implies from(#[trigger] files[k]) by {
            assert(from(selections[selections.len() - 1].files@[k]));
        }
        lemma_with_sources(before, files, from);
        let after = environment::with_selections(selections);
        assert forall|i: int, k: int|
            0 <= i < selections.len() && 0 <= k < selections[i].files@.len() implies provided(
            after,
            #[trigger] selections[i].files@[k],
        ) by {
            if i < init.len() {
                assert(provided(before, init[i].files@[k]));
            } else {
                assert(provided(after, files[k]));
            }
        }
    }
}

/// Copying overwrites nothing and copies nothing twice: what is copied was selected and is not in
/// the worktree, and a link is recreated exactly where it points outside the repository. What was
/// selected is there afterwards.
pub proof fn copies_overwrite_nothing(selections: Seq<Selection>, ignored: Seq<Source>)
    ensures
        ({
            let copies = environment::with_sources(
                environment::with_selections(selections),
                ignored.filter(environment::is_local_source()),
            );
            &&& sound(copies, |source: Source| selected(selections, ignored, source))
            &&& forall|source: Source| #[trigger]
                selected(selections, ignored, source) ==> provided(copies, source)
        }),
{
    let from = |source: Source| selected(selections, ignored, source);
    let local = ignored.filter(environment::is_local_source());
    assert forall|i: int, k: int| 0 <= i < selections.len() && 0 <= k < selections[i].files@.len() implies from(
        #[trigger] selections[i].files@[k],
    ) by {
        assert(selections[i].files@.contains(selections[i].files@[k]));
    }
    lemma_with_selections(selections, from);
    assert forall|i: int| 0 <= i < local.len() implies from(#[trigger] local[i]) by {
        ignored.lemma_filter_contains_rev(environment::is_local_source(), local[i]);
        ignored.lemma_filter_pred(environment::is_local_source(), i);
    }
    let before = environment::with_selections(selections);
    lemma_with_sources(before, local, from);
    let copies = environment::with_sources(before, local);
    assert forall|source: Source| #[trigger] selected(selections, ignored, source) implies provided(copies, source) by {
        if ignored.contains(source) && environment::is_local_source()(source) {
            let at = ignored.index_of(source);
            ignored.lemma_filter_contains(environment::is_local_source(), at);
            let k = local.index_of(source);
            assert(provided(copies, local[k]));
        } else {
            let i = choose|i: int| 0 <= i < selections.len() && (#[trigger] selections[i]).files@.contains(source);
            let k = selections[i].files@.index_of(source);
            assert(provided(before, selections[i].files@[k]));
        }
    }
}

/// An ignored file whose name ends in `.local` or holds `.local.` is copied into every worktree that
/// does not have it, whatever is configured.
pub proof fn private_files_are_copied(
    selections: Seq<Selection>,
    ignored: Seq<Source>,
    k: int,
    stem: Seq<char>,
    rest: Seq<char>,
)
    requires
        0 <= k < ignored.len(),
        !ignored[k].present,
        paths::name_of(ignored[k].path@) == Some(stem + ".local"@) || paths::name_of(ignored[k].path@) == Some(
            stem + ".local."@ + rest,
        ),
    ensures
        paths::listed(
            environment::copied_paths(
                environment::with_sources(
                    environment::with_selections(selections),
                    ignored.filter(environment::is_local_source()),
                ),
            ),
            ignored[k].path@,
        ),
{
    environment::local_names_are_private(stem, rest);
    copies_overwrite_nothing(selections, ignored);
    assert(ignored.contains(ignored[k]));
    assert(selected(selections, ignored, ignored[k]));
}

/// A file that a configured path selects is copied into every worktree that does not have it.
pub proof fn configured_files_are_copied(selections: Seq<Selection>, ignored: Seq<Source>, i: int, k: int)
    requires
        0 <= i < selections.len(),
        0 <= k < selections[i].files@.len(),
        !selections[i].files@[k].present,
    ensures
        paths::listed(
            environment::copied_paths(
                environment::with_sources(
                    environment::with_selections(selections),
                    ignored.filter(environment::is_local_source()),
                ),
            ),
            selections[i].files@[k].path@,
        ),
{
    copies_overwrite_nothing(selections, ignored);
    let source = selections[i].files@[k];
    assert(selections[i].files@.contains(source));
    assert(selected(selections, ignored, source));
}

/// A copied file that no configured path selects is an ignored one with `.local` at the end of its
/// name or `.local.` in it.
pub proof fn other_files_are_not_copied(selections: Seq<Selection>, ignored: Seq<Source>, source: Source)
    requires
        selected(selections, ignored, source),
        forall|i: int| 0 <= i < selections.len() ==> !(#[trigger] selections[i]).files@.contains(source),
    ensures
        ignored.contains(source),
        paths::name_of(source.path@) matches Some(name) && {
            ||| exists|stem: Seq<char>| name == #[trigger] (stem + ".local"@)
            ||| exists|stem: Seq<char>, rest: Seq<char>| name == #[trigger] (stem + ".local."@ + rest)
        },
{
    environment::private_names_are_local(paths::name_of(source.path@)->0);
}

/// A link that leads out of the checkout is copied as a link, to where it points; of any other file
/// the contents are copied.
pub proof fn only_outside_links_stay_links(source: Source)
    ensures
        environment::copy_of(source).0 == source.path@,
        environment::copy_of(source).1 matches Some(target) ==> source.outside && (source.link matches Some(link)
            && link@ == target),
        source.outside && source.link is Some ==> environment::copy_of(source).1 is Some,
{
}

/// A configured path waits for the setup commands exactly where it selects no file yet.
pub proof fn paths_without_files_are_pending(selections: Seq<Selection>, path: Seq<char>)
    ensures
        selections.filter_map(environment::pending_path()).contains(path) <==> exists|i: int|
            0 <= i < selections.len() && (#[trigger] selections[i]).path@ == path && selections[i].files@.len() == 0,
{
    let f = environment::pending_path();
    model::filter_map_keeps(selections, f);
    if exists|i: int|
        0 <= i < selections.len() && (#[trigger] selections[i]).path@ == path && selections[i].files@.len() == 0 {
        let i = choose|i: int|
            0 <= i < selections.len() && (#[trigger] selections[i]).path@ == path && selections[i].files@.len() == 0;
        assert(f(selections[i]) == Some(path));
    }
}

} // verus!
