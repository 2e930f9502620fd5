//! What holds of the store from one call to the next.

use vstd::prelude::*;

use crate::config;
use crate::json;
use crate::model;
use crate::ports;
use crate::ports::{Progress, RequestData};
use crate::state;
use crate::state::RecordData;
use crate::text;

verus! {

/// Whether at most one of the names is a spelling of this one.
pub open spec fn spelled_once(names: Seq<Seq<char>>, name: Seq<char>) -> bool {
    forall|i: int, j: int|
        #![trigger names[i], names[j]]
        0 <= i < j < names.len() ==> !(text::same_ignoring_case(names[i], name) && text::same_ignoring_case(
            names[j],
            name,
        ))
}

/// The name that stands for another is that name or one that differs only in case, and in the
/// second case it is there.
proof fn lemma_matching(names: Seq<Seq<char>>, name: Seq<char>)
    ensures
        text::same_ignoring_case(state::matching(names, name), name),
        !names.contains(state::matching(names, name)) ==> state::matching(names, name) == name && forall|i: int|
            0 <= i < names.len() ==> !text::same_ignoring_case(#[trigger] names[i], name),
    decreases names.len(),
{
    if !names.contains(name) {
        lemma_first_alike(names, name);
    }
}

proof fn lemma_first_alike(names: Seq<Seq<char>>, name: Seq<char>)
    ensures
        match model::first_some(names, state::alike(name)) {
            Some(other) => names.contains(other) && text::same_ignoring_case(other, name),
            None => forall|i: int| 0 <= i < names.len() ==> !text::same_ignoring_case(#[trigger] names[i], name),
        },
    decreases names.len(),
{
    if names.len() > 0 {
        let rest = names.drop_first();
        if text::same_ignoring_case(names[0], name) {
            assert(names.contains(names[0]));
        } else {
            lemma_first_alike(rest, name);
            match model::first_some(rest, state::alike(name)) {
                Some(other) => {
                    let k = choose|k: int| 0 <= k < rest.len() && rest[k] == other;
                    assert(names[k + 1] == other);
                },
                None => {
                    assert forall|i: int| 0 <= i < names.len() implies !text::same_ignoring_case(
                        #[trigger] names[i],
                        name,
                    ) by {
                        if i > 0 {
                            assert(names[i] == rest[i - 1]);
                        }
                    }
                },
            }
        }
    }
}

spec fn change<A>(target: Seq<char>, contents: A) -> spec_fn((Seq<char>, A)) -> (Seq<char>, A) {
    |f: (Seq<char>, A)|
        if f.0 == target {
            (f.0, contents)
        } else {
            f
        }
}

proof fn lemma_changed<A>(files: Seq<(Seq<char>, A)>, target: Seq<char>, contents: A, name: Seq<char>)
    ensures
        model::first_some(files.map_values(change(target, contents)), state::held_under(name)) == if name == target
            && state::names_of(files).contains(target) {
            Some(contents)
        } else if name == target {
            None
        } else {
            model::first_some(files, state::held_under(name))
        },
    decreases files.len(),
{
    let changed = files.map_values(change(target, contents));
    let names = state::names_of(files);
    if files.len() == 0 {
        assert(changed =~= Seq::empty());
    } else {
        let rest = files.drop_first();
        lemma_changed(rest, target, contents, name);
        assert(changed.drop_first() =~= rest.map_values(change(target, contents)));
        assert(state::names_of(rest) =~= names.drop_first());
        if names.contains(target) && files[0].0 != target {
            let k = choose|k: int| 0 <= k < names.len() && names[k] == target;
            assert(names.drop_first()[k - 1] == target);
        }
        if names.drop_first().contains(target) {
            let k = choose|k: int| 0 <= k < names.drop_first().len() && names.drop_first()[k] == target;
            assert(names[k + 1] == target);
        }
        if files[0].0 == target {
            assert(names[0] == target);
        }
    }
}

proof fn lemma_not_held<A>(files: Seq<(Seq<char>, A)>, name: Seq<char>)
    requires
        !state::names_of(files).contains(name),
    ensures
        model::first_some(files, state::held_under(name)) is None,
{
    assert forall|i: int| 0 <= i < files.len() implies state::held_under::<A>(name)(#[trigger] files[i]) is None by {
        assert(state::names_of(files)[i] == files[i].0);
    }
    model::found_none(files, state::held_under(name));
}

/// A file that was stored is found under its name, and what other names stand for is untouched.
pub proof fn storing_keeps_the_rest<A>(files: Seq<(Seq<char>, A)>, name: Seq<char>, contents: A, other: Seq<char>)
    ensures
        state::held(state::stored(files, name, contents), name) == Some(contents),
        !text::same_ignoring_case(name, other) ==> state::held(state::stored(files, name, contents), other)
            == state::held(files, other),
        spelled_once(state::names_of(files), other) ==> spelled_once(
            state::names_of(state::stored(files, name, contents)),
            other,
        ),
{
    let names = state::names_of(files);
    let target = state::matching(names, name);
    let after = state::stored(files, name, contents);
    let meant = state::matching(names, other);
    lemma_matching(names, name);
    lemma_matching(names, other);
    if names.contains(target) {
        assert(after =~= files.map_values(change(target, contents)));
        assert(state::names_of(after) =~= names);
        lemma_changed(files, target, contents, target);
        lemma_changed(files, target, contents, meant);
    } else {
        assert(after == files.push((name, contents)));
        assert(state::names_of(after) =~= names.push(name));
        assert(state::names_of(after)[names.len() as int] == name);
        assert(state::names_of(after).contains(name));
        lemma_not_held(files, name);
        model::first_some_push(files, (name, contents), state::held_under(name));
        if !text::same_ignoring_case(name, other) {
            model::first_some_push(names, name, state::alike(other));
            if names.contains(other) {
                let k = choose|k: int| 0 <= k < names.len() && names[k] == other;
                assert(state::names_of(after)[k] == other);
            }
            if state::names_of(after).contains(other) {
                let k = choose|k: int| 0 <= k < state::names_of(after).len() && state::names_of(after)[k] == other;
                assert(names[k] == other);
            }
            assert(state::matching(state::names_of(after), other) == meant);
            model::first_some_push(files, (name, contents), state::held_under(meant));
        }
        if spelled_once(names, other) {
            let more = state::names_of(after);
            assert forall|i: int, j: int|
                #![trigger more[i], more[j]]
                0 <= i < j < more.len() implies !(text::same_ignoring_case(more[i], other) && text::same_ignoring_case(
                more[j],
                other,
            )) by {
                assert(more[i] == names[i]);
                if j < names.len() {
                    assert(more[j] == names[j]);
                }
            }
        }
    }
}

proof fn lemma_filtered_names<A>(files: Seq<(Seq<char>, A)>, target: Seq<char>)
    ensures
        forall|name: Seq<char>| #[trigger]
            state::names_of(files.filter(state::not_named(target))).contains(name) <==> state::names_of(
                files,
            ).contains(name) && name != target,
        forall|name: Seq<char>|
            name != target ==> #[trigger] model::first_some(
                files.filter(state::not_named(target)),
                state::held_under(name),
            ) == model::first_some(files, state::held_under(name)),
        forall|name: Seq<char>|
            !text::same_ignoring_case(target, name) ==> #[trigger] model::first_some(
                state::names_of(files.filter(state::not_named(target))),
                state::alike(name),
            ) == model::first_some(state::names_of(files), state::alike(name)),
    decreases files.len(),
{
    reveal(Seq::filter);
    let names = state::names_of(files);
    let kept = files.filter(state::not_named(target));
    let kept_names = state::names_of(kept);
    if files.len() > 0 {
        let init = files.drop_last();
        let last = files.last();
        let kept_init = init.filter(state::not_named(target));
        lemma_filtered_names(init, target);
        assert(names =~= state::names_of(init).push(last.0));
        assert(files =~= init.push(last));
        if last.0 != target {
            assert(kept_names =~= state::names_of(kept_init).push(last.0));
        } else {
            assert(kept_names =~= state::names_of(kept_init));
        }
        assert forall|name: Seq<char>| #[trigger] kept_names.contains(name) <==> names.contains(name) && name
            != target by {
            assert(state::names_of(kept_init).contains(name) <==> state::names_of(init).contains(name) && name
                != target);
            lemma_contains_push(state::names_of(init), last.0, name);
            lemma_contains_push(state::names_of(kept_init), last.0, name);
        }
        assert forall|name: Seq<char>| name != target implies #[trigger] model::first_some(
            kept,
            state::held_under(name),
        ) == model::first_some(files, state::held_under(name)) by {
            model::first_some_push(init, last, state::held_under(name));
            model::first_some_push(kept_init, last, state::held_under(name));
            assert(model::first_some(kept_init, state::held_under(name)) == model::first_some(
                init,
                state::held_under(name),
            ));
        }
        assert forall|name: Seq<char>| !text::same_ignoring_case(target, name) implies #[trigger] model::first_some(
            kept_names,
            state::alike(name),
        ) == model::first_some(names, state::alike(name)) by {
            model::first_some_push(state::names_of(init), last.0, state::alike(name));
            model::first_some_push(state::names_of(kept_init), last.0, state::alike(name));
            assert(model::first_some(state::names_of(kept_init), state::alike(name)) == model::first_some(
                state::names_of(init),
                state::alike(name),
            ));
        }
    } else {
        assert(kept_names =~= names);
    }
}

proof fn lemma_contains_push(s: Seq<Seq<char>>, x: Seq<char>, y: Seq<char>)
    ensures
        s.push(x).contains(y) <==> s.contains(y) || x == y,
{
    if s.contains(y) {
        let k = choose|k: int| 0 <= k < s.len() && s[k] == y;
        assert(s.push(x)[k] == y);
    }
    if x == y {
        assert(s.push(x)[s.len() as int] == y);
    }
}

/// A file that was removed is not found under its name, where no other file spelled that name; what
/// other names stand for is untouched.
pub proof fn removing_keeps_the_rest<A>(files: Seq<(Seq<char>, A)>, name: Seq<char>, other: Seq<char>)
    ensures
        spelled_once(state::names_of(files), name) ==> state::held(state::without(files, name), name) is None,
        spelled_once(state::names_of(files), name) ==> spelled_once(state::names_of(state::without(files, name)), name),
        !text::same_ignoring_case(name, other) ==> state::held(state::without(files, name), other) == state::held(
            files,
            other,
        ),
{
    let names = state::names_of(files);
    let target = state::matching(names, name);
    let after = state::without(files, name);
    let after_names = state::names_of(after);
    lemma_matching(names, name);
    lemma_matching(names, other);
    lemma_filtered_names(files, target);
    if spelled_once(names, name) {
        assert forall|i: int| 0 <= i < after_names.len() implies !text::same_ignoring_case(#[trigger] after_names[i], name) by {
            assert(after_names.contains(after_names[i]));
            let k = choose|k: int| 0 <= k < names.len() && names[k] == after_names[i];
            if names.contains(target) {
                let t = choose|t: int| 0 <= t < names.len() && names[t] == target;
                assert(k != t);
                assert(text::same_ignoring_case(names[t], name));
            }
        }
        lemma_first_alike(after_names, name);
        if after_names.contains(name) {
            let k = choose|k: int| 0 <= k < after_names.len() && after_names[k] == name;
            assert(text::same_ignoring_case(after_names[k], name));
        }
        lemma_first_alike_none(after_names, name);
        lemma_not_held(after, name);
    }
    if !text::same_ignoring_case(name, other) {
        let meant = state::matching(names, other);
        assert(!text::same_ignoring_case(target, other));
        assert(meant != target);
        assert(after_names.contains(other) <==> names.contains(other));
        assert(model::first_some(after_names, state::alike(other)) == model::first_some(names, state::alike(other)));
        assert(state::matching(after_names, other) == meant);
        assert(model::first_some(after, state::held_under(meant)) == model::first_some(
            files,
            state::held_under(meant),
        ));
    }
}

proof fn lemma_first_alike_none(names: Seq<Seq<char>>, name: Seq<char>)
    requires
        forall|i: int| 0 <= i < names.len() ==> !text::same_ignoring_case(#[trigger] names[i], name),
    ensures
        model::first_some(names, state::alike(name)) is None,
{
    assert forall|i: int| 0 <= i < names.len() implies state::alike(name)(#[trigger] names[i]) is None by {}
    model::found_none(names, state::alike(name));
}

// ---------------------------------------------------------------------------
// Records
// ---------------------------------------------------------------------------

/// Where at most one file spells a name, two spellings of it stand for the same file.
pub proof fn spellings_stand_for_one_file<A>(files: Seq<(Seq<char>, A)>, name: Seq<char>, spelled: Seq<char>)
    requires
        spelled_once(state::names_of(files), name),
        text::same_ignoring_case(spelled, name),
    ensures
        state::held(files, spelled) == state::held(files, name),
{
    let names = state::names_of(files);
    let a = state::matching(names, name);
    let b = state::matching(names, spelled);
    lemma_matching(names, name);
    lemma_matching(names, spelled);
    if names.contains(a) {
        let k = choose|k: int| 0 <= k < names.len() && names[k] == a;
        assert(text::same_ignoring_case(names[k], spelled));
        assert(names.contains(b));
        let n = choose|n: int| 0 <= n < names.len() && names[n] == b;
        assert(text::same_ignoring_case(names[k], name) && text::same_ignoring_case(names[n], name));
        assert(k == n);
        assert(a == b);
    } else {
        if names.contains(b) {
            let n = choose|n: int| 0 <= n < names.len() && names[n] == b;
            assert(text::same_ignoring_case(names[n], name));
        }
        lemma_not_held(files, a);
        lemma_not_held(files, b);
    }
}

proof fn lemma_lower_concat(a: Seq<char>, b: Seq<char>)
    ensures
        text::lower_text(a + b) == text::lower_text(a) + text::lower_text(b),
{
    assert(text::lower_text(a + b) =~= text::lower_text(a) + text::lower_text(b));
}

/// The spelling of a repository shows in the names of its files, and nothing else does.
proof fn lemma_flat_spelled(repository: Seq<char>, spelled: Seq<char>)
    requires
        text::same_ignoring_case(spelled, repository),
    ensures
        text::same_ignoring_case(state::flat(spelled), state::flat(repository)),
    decreases repository.len(),
{
    reveal_strlit("/");
    assert(text::lower_text(spelled).len() == spelled.len());
    assert(text::lower_text(repository).len() == repository.len());
    if repository.len() > 0 {
        let c = repository[0];
        let d = spelled[0];
        assert(text::lower_text(repository)[0] == text::ascii_lower(c));
        assert(text::lower_text(spelled)[0] == text::ascii_lower(d));
        let rest = repository.drop_first();
        let more = spelled.drop_first();
        assert(text::lower_text(rest) =~= text::lower_text(repository).drop_first());
        assert(text::lower_text(more) =~= text::lower_text(spelled).drop_first());
        lemma_flat_spelled(rest, more);
        assert("/"@.is_prefix_of(repository) <==> c == '/') by {
            if c == '/' {
                assert("/"@ =~= repository.subrange(0, 1));
            } else {
                assert(repository.subrange(0, 1)[0] == c);
            }
        }
        assert("/"@.is_prefix_of(spelled) <==> d == '/') by {
            if d == '/' {
                assert("/"@ =~= spelled.subrange(0, 1));
            } else {
                assert(spelled.subrange(0, 1)[0] == d);
            }
        }
        assert(repository.skip(1) =~= rest);
        assert(spelled.skip(1) =~= more);
        if c == '/' {
            lemma_lower_concat("--"@, state::flat(rest));
            lemma_lower_concat("--"@, state::flat(more));
        } else {
            lemma_lower_concat(seq![c], state::flat(rest));
            lemma_lower_concat(seq![d], state::flat(more));
            assert(text::lower_text(seq![c]) =~= seq![text::ascii_lower(c)]);
            assert(text::lower_text(seq![d]) =~= seq![text::ascii_lower(d)]);
        }
    } else {
        assert(spelled =~= repository);
    }
}

proof fn lemma_record_spelled(repository: Seq<char>, spelled: Seq<char>, issue: u64, branch: Seq<char>)
    requires
        text::same_ignoring_case(spelled, repository),
    ensures
        text::same_ignoring_case(state::issue_name(spelled, issue), state::issue_name(repository, issue)),
        text::same_ignoring_case(state::branch_name(spelled, branch), state::branch_name(repository, branch)),
{
    lemma_flat_spelled(repository, spelled);
    let a = "--"@ + text::decimal(issue as nat) + ".json"@;
    let hash = text::hexadecimal(state::hash_of(vstd::utf8::encode_utf8(branch)) as nat, 16);
    let b = "--branch-"@ + hash + ".json"@;
    assert(state::issue_name(spelled, issue) =~= state::flat(spelled) + a);
    assert(state::issue_name(repository, issue) =~= state::flat(repository) + a);
    assert(state::branch_name(spelled, branch) =~= state::flat(spelled) + b);
    assert(state::branch_name(repository, branch) =~= state::flat(repository) + b);
    lemma_lower_concat(state::flat(spelled), a);
    lemma_lower_concat(state::flat(repository), a);
    lemma_lower_concat(state::flat(spelled), b);
    lemma_lower_concat(state::flat(repository), b);
}

/// What is found of the worktree that a record is about, under one spelling of its repository.
pub open spec fn found_of(
    files: Seq<(Seq<char>, Option<RecordData>)>,
    record: RecordData,
    spelled: Seq<char>,
) -> Result<Option<RecordData>, Seq<char>> {
    match record.issue {
        Some(issue) => state::record_under(files, state::issue_name(spelled, issue)),
        None => state::branch_record(files, spelled, record.branch),
    }
}

/// A saved record is found again: by its issue, or by its branch where it has none; under every
/// spelling of its repository where at most one file spelled its name before.
pub proof fn a_saved_record_is_found(
    files: Seq<(Seq<char>, Option<RecordData>)>,
    record: RecordData,
    spelled: Seq<char>,
)
    requires
        text::same_ignoring_case(spelled, record.repository),
        spelled == record.repository || spelled_once(state::names_of(files), state::record_name(record)),
    ensures
        found_of(state::stored(files, state::record_name(record), Some(record)), record, spelled) == Ok::<
            Option<RecordData>,
            Seq<char>,
        >(Some(record)),
{
    let name = state::record_name(record);
    let after = state::stored(files, name, Some(record));
    storing_keeps_the_rest(files, name, Some(record), name);
    if spelled != record.repository {
        match record.issue {
            Some(issue) => {
                lemma_record_spelled(record.repository, spelled, issue, record.branch);
                spellings_stand_for_one_file(after, name, state::issue_name(spelled, issue));
            },
            None => {
                lemma_record_spelled(record.repository, spelled, 0, record.branch);
                spellings_stand_for_one_file(after, name, state::branch_name(spelled, record.branch));
            },
        }
    }
}

/// A deleted record is not found any more, under any spelling of its repository, where at most one
/// file spelled its name.
pub proof fn a_deleted_record_is_gone(
    files: Seq<(Seq<char>, Option<RecordData>)>,
    record: RecordData,
    spelled: Seq<char>,
)
    requires
        text::same_ignoring_case(spelled, record.repository),
        spelled_once(state::names_of(files), state::record_name(record)),
    ensures
        found_of(state::without(files, state::record_name(record)), record, spelled) == Ok::<
            Option<RecordData>,
            Seq<char>,
        >(None),
{
    let name = state::record_name(record);
    let after = state::without(files, name);
    removing_keeps_the_rest(files, name, name);
    match record.issue {
        Some(issue) => {
            lemma_record_spelled(record.repository, spelled, issue, record.branch);
            spellings_stand_for_one_file(after, name, state::issue_name(spelled, issue));
        },
        None => {
            lemma_record_spelled(record.repository, spelled, 0, record.branch);
            spellings_stand_for_one_file(after, name, state::branch_name(spelled, record.branch));
        },
    }
}

/// The files of two issues of a repository have names that differ in more than case.
pub proof fn issues_have_files_of_their_own(repository: Seq<char>, issue: u64, other: u64)
    requires
        issue != other,
    ensures
        !text::same_ignoring_case(state::issue_name(repository, issue), state::issue_name(repository, other)),
{
    let a = state::issue_name(repository, issue);
    let b = state::issue_name(repository, other);
    if text::same_ignoring_case(a, b) {
        let head = state::flat(repository) + "--"@;
        let tail = ".json"@;
        let x = text::decimal(issue as nat);
        let y = text::decimal(other as nat);
        assert(a =~= head + x + tail);
        assert(b =~= head + y + tail);
        assert(text::lower_text(a).len() == a.len());
        assert(text::lower_text(b).len() == b.len());
        assert(x.len() == y.len());
        text::lemma_decimal(issue as nat);
        text::lemma_decimal(other as nat);
        assert forall|i: int| 0 <= i < x.len() implies x[i] == y[i] by {
            assert(text::is_ascii_digit(x[i]) && text::is_ascii_digit(y[i]));
            assert(a[head.len() + i] == x[i]);
            assert(b[head.len() + i] == y[i]);
            assert(text::lower_text(a)[head.len() + i] == text::ascii_lower(x[i]));
            assert(text::lower_text(b)[head.len() + i] == text::ascii_lower(y[i]));
        }
        assert(x =~= y);
        text::decimal_is_injective(issue as nat, other as nat);
    }
}

/// Saving or deleting the record of one issue leaves what is known of the others.
pub proof fn issues_are_kept_apart(
    files: Seq<(Seq<char>, Option<RecordData>)>,
    record: RecordData,
    issue: u64,
    other: u64,
)
    requires
        record.issue == Some(issue),
        issue != other,
    ensures
        state::record_under(
            state::stored(files, state::record_name(record), Some(record)),
            state::issue_name(record.repository, other),
        ) == state::record_under(files, state::issue_name(record.repository, other)),
        state::record_under(
            state::without(files, state::record_name(record)),
            state::issue_name(record.repository, other),
        ) == state::record_under(files, state::issue_name(record.repository, other)),
{
    issues_have_files_of_their_own(record.repository, issue, other);
    storing_keeps_the_rest(
        files,
        state::record_name(record),
        Some(record),
        state::issue_name(record.repository, other),
    );
    removing_keeps_the_rest(files, state::record_name(record), state::issue_name(record.repository, other));
}

// ---------------------------------------------------------------------------
// Trust
// ---------------------------------------------------------------------------

/// Trusting a fingerprint adds exactly it to what a repository trusts, leaves a file of whole lines,
/// and changes nothing when it is done again. The repository may be spelled in another case where at
/// most one file spells its name.
pub proof fn trusting_adds_one_fingerprint(
    files: Seq<(Seq<char>, Seq<char>)>,
    repository: Seq<char>,
    spelled: Seq<char>,
    hash: Seq<char>,
    other: Seq<char>,
)
    requires
        text::same_ignoring_case(spelled, repository),
        spelled == repository || spelled_once(state::names_of(files), state::flat(repository)),
        text::ends_a_line(state::trust_text(files, repository)),
        !hash.contains('\n'),
        hash.len() > 0 ==> hash.last() != '\r',
    ensures
        state::trusts(state::trusting(files, repository, hash), spelled, hash),
        state::trusts(state::trusting(files, repository, hash), spelled, other) <==> state::trusts(
            files,
            spelled,
            other,
        ) || other == hash,
        text::ends_a_line(state::trust_text(state::trusting(files, repository, hash), spelled)),
        state::trusting(state::trusting(files, repository, hash), spelled, hash) == state::trusting(
            files,
            repository,
            hash,
        ),
        spelled_once(state::names_of(files), state::flat(repository)) ==> spelled_once(
            state::names_of(state::trusting(files, repository, hash)),
            state::flat(repository),
        ),
{
    let after = state::trusting(files, repository, hash);
    let name = state::flat(repository);
    if !state::trusts(files, repository, hash) {
        let before = state::trust_text(files, repository);
        reveal_strlit("\n");
        assert("\n"@ =~= seq!['\n']);
        let contents = before + hash + "\n"@;
        storing_keeps_the_rest(files, name, contents, name);
        text::lemma_lines_append(before, hash);
        assert(text::without_return(hash) == hash);
        assert(text::lines(contents) == text::lines(before).push(hash));
        lemma_contains_push(text::lines(before), hash, other);
        lemma_contains_push(text::lines(before), hash, hash);
    }
    if spelled != repository {
        lemma_flat_spelled(repository, spelled);
        spellings_stand_for_one_file(files, name, state::flat(spelled));
        spellings_stand_for_one_file(after, name, state::flat(spelled));
    }
}

/// Trust is asked for again when a command changes: trusting one pair of commands never makes
/// another pair trusted.
pub proof fn changed_commands_need_new_trust(
    files: Seq<(Seq<char>, Seq<char>)>,
    repository: Seq<char>,
    bootstrap: Option<Seq<char>>,
    teardown: Option<Seq<char>>,
    new_bootstrap: Option<Seq<char>>,
    new_teardown: Option<Seq<char>>,
)
    requires
        text::ends_a_line(state::trust_text(files, repository)),
        config::fingerprint(bootstrap, teardown) is Some,
        config::fingerprint(new_bootstrap, new_teardown) is Some,
        (bootstrap, teardown) != (new_bootstrap, new_teardown),
    ensures
        ({
            let hash = config::fingerprint(bootstrap, teardown)->0;
            let new_hash = config::fingerprint(new_bootstrap, new_teardown)->0;
            &&& state::trusts(state::trusting(files, repository, hash), repository, hash)
            &&& state::trusts(state::trusting(files, repository, hash), repository, new_hash) == state::trusts(
                files,
                repository,
                new_hash,
            )
        }),
{
    let hash = config::fingerprint(bootstrap, teardown)->0;
    let new_hash = config::fingerprint(new_bootstrap, new_teardown)->0;
    config::fingerprints_tell_commands_apart(bootstrap, teardown, new_bootstrap, new_teardown);
    json::json_pair_is_one_line(bootstrap, teardown);
    assert(!hash.contains('\n')) by {
        if hash.contains('\n') {
            let k = choose|k: int| 0 <= k < hash.len() && hash[k] == '\n';
            assert(hash[k] as int >= 32);
        }
    }
    trusting_adds_one_fingerprint(files, repository, repository, hash, new_hash);
}

// ---------------------------------------------------------------------------
// Ports
// ---------------------------------------------------------------------------

/// Every port of every record counts as leased.
proof fn lemma_leased(records: Seq<RecordData>, i: int, k: int)
    requires
        0 <= i < records.len(),
        0 <= k < records[i].ports.len(),
    ensures
        state::leased(records).contains(records[i].ports[k].1),
    decreases records.len(),
{
    let init = records.drop_last();
    let last = records.last().ports.map_values(|p: (Seq<char>, u16)| p.1);
    let all = state::leased(init) + last;
    let port = records[i].ports[k].1;
    if i == records.len() - 1 {
        assert(all[state::leased(init).len() + k] == last[k]);
    } else {
        assert(init[i] == records[i]);
        lemma_leased(init, i, k);
        let at = state::leased(init).index_of(port);
        assert(all[at] == port);
    }
}

/// Worktrees have ports of their own: once leasing has ended, every request is met, by a port that
/// no record holds, and two requests share one exactly where they ask for the same port.
pub proof fn worktrees_have_ports_of_their_own(
    records: Seq<RecordData>,
    requests: Seq<RequestData>,
    progress: Progress,
)
    requires
        ports::in_order(requests, state::leased(records), progress),
        progress.candidate is None,
    ensures
        progress.done.len() == requests.len(),
        forall|n: int, i: int, k: int|
            0 <= n < progress.done.len() && 0 <= i < records.len() && 0 <= k < records[i].ports.len()
                ==> (#[trigger] progress.done[n]).assigned != (#[trigger] records[i].ports[k]).1,
        forall|n: int, m: int|
            0 <= n < progress.done.len() && 0 <= m < progress.done.len() ==> ((
            #[trigger] progress.done[n]).assigned == (#[trigger] progress.done[m]).assigned <==> requests[n].original
                == requests[m].original),
{
    assert forall|n: int, i: int, k: int|
        0 <= n < progress.done.len() && 0 <= i < records.len() && 0 <= k < records[i].ports.len() implies (
    #[trigger] progress.done[n]).assigned != (#[trigger] records[i].ports[k]).1 by {
        lemma_leased(records, i, k);
    }
}

} // verus!
