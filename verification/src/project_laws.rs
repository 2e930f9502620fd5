//! What holds of the names of Compose projects.

use vstd::prelude::*;

use crate::app;
use crate::app::Target;
use crate::state;
use crate::text;

verus! {

/// Whether a text is made of lower-case letters, digits and single hyphens.
pub open spec fn is_plain(s: Seq<char>) -> bool {
    app::single_hyphens(s) && forall|i: int| 0 <= i < s.len() ==> app::is_slug_char(#[trigger] s[i])
}

proof fn lemma_project_with(name: Seq<char>, c: char)
    requires
        is_plain(name),
    ensures
        is_plain(app::project_with(name, c)),
{
    let more = app::project_with(name, c);
    assert forall|i: int| 0 <= i < more.len() implies app::is_slug_char(#[trigger] more[i]) by {
        if i < name.len() {
            assert(more[i] == name[i]);
        }
    }
    assert forall|i: int| !#[trigger] app::two_hyphens(more, i) by {
        assert(!app::two_hyphens(name, i));
    }
}

proof fn lemma_project_from(name: Seq<char>, rest: Seq<char>)
    requires
        name.len() < 63,
    ensures
        name.is_prefix_of(app::project_from(name, rest)),
        app::project_from(name, rest).len() <= 63,
        is_plain(name) ==> is_plain(app::project_from(name, rest)),
    decreases rest.len(),
{
    let r = app::project_from(name, rest);
    if rest.len() == 0 {
        assert(name =~= r.subrange(0, name.len() as int));
    } else {
        let more = app::project_with(name, rest[0]);
        assert(name =~= more.subrange(0, name.len() as int));
        if is_plain(name) {
            lemma_project_with(name, rest[0]);
        }
        if more.len() != 63 {
            lemma_project_from(more, rest.drop_first());
            assert(more.len() <= r.len());
            assert(name =~= r.subrange(0, name.len() as int)) by {
                assert(more =~= r.subrange(0, more.len() as int));
                assert forall|i: int| 0 <= i < name.len() implies name[i] == r[i] by {
                    assert(r.subrange(0, more.len() as int)[i] == r[i]);
                    assert(more[i] == name[i]);
                }
            }
        }
    }
}

/// A Compose project name starts with `wt`, has at most 63 characters, and is a slug: it is made of
/// lower-case letters and digits, with single hyphens between them.
pub proof fn project_names_are_valid(repository: Seq<char>, reference: Seq<char>)
    ensures
        ({
            let name = app::project_name(repository, reference);
            &&& 2 <= name.len() <= 63
            &&& name[0] == 'w' && name[1] == 't'
            &&& app::is_slug(name)
        }),
{
    reveal_strlit("wt-");
    reveal_strlit("-");
    let full = if app::keeps_reference(repository, reference) {
        let raw = "wt-"@ + reference + "-"@ + repository;
        let one = app::project_with(Seq::empty(), 'w');
        let two = app::project_with(one, 't');
        assert(raw[0] == 'w' && raw[1] == 't');
        assert(raw.drop_first()[0] == 't');
        assert(two =~= seq!['w', 't']);
        let rest = raw.drop_first().drop_first();
        assert(app::project_from(Seq::empty(), raw) == app::project_from(one, raw.drop_first()));
        assert(app::project_from(one, raw.drop_first()) == app::project_from(two, rest));
        assert forall|i: int| !#[trigger] app::two_hyphens(two, i) by {}
        lemma_project_from(two, rest);
        lemma_prefix_kept(two, app::project_from(two, rest));
        app::project_from(two, rest)
    } else {
        let start = hashed_start(reference);
        lemma_hashed_start(reference);
        let rest = "-"@ + reference + "-"@ + repository;
        lemma_project_from(start, rest);
        lemma_prefix_kept(start, app::project_from(start, rest));
        app::project_from(start, rest)
    };
    let name = app::project_name(repository, reference);
    app::lemma_trimmed_end(full, "-"@);
    assert(!"-"@.contains('t')) by {
        if "-"@.contains('t') {
            let k = choose|k: int| 0 <= k < "-"@.len() && "-"@[k] == 't';
            assert("-"@[k] == '-');
        }
    }
    lemma_trimmed_keeps(full, "-"@, 1);
    assert("-"@.contains('-')) by {
        assert("-"@[0] == '-');
    }
    lemma_prefix_kept(name, full);
    assert forall|i: int| 0 <= i < name.len() implies app::is_slug_char(#[trigger] name[i]) by {
        assert(name[i] == full[i]);
    }
    assert forall|i: int| !#[trigger] app::two_hyphens(name, i) by {
        assert(!app::two_hyphens(full, i));
    }
}

proof fn lemma_prefix_kept(start: Seq<char>, s: Seq<char>)
    requires
        start.is_prefix_of(s),
    ensures
        start.len() <= s.len(),
        forall|i: int| 0 <= i < start.len() ==> #[trigger] start[i] == s[i],
{
    assert forall|i: int| 0 <= i < start.len() implies #[trigger] start[i] == s[i] by {
        assert(s.subrange(0, start.len() as int)[i] == s[i]);
    }
}

/// What the name of a project starts with that does not hold its reference as it is.
pub open spec fn hashed_start(reference: Seq<char>) -> Seq<char> {
    "wt"@ + text::hexadecimal(state::hash_of(vstd::utf8::encode_utf8(reference)) as nat, 16)
}

proof fn lemma_hashed_start(reference: Seq<char>)
    ensures
        hashed_start(reference).len() == 18,
        hashed_start(reference)[0] == 'w',
        hashed_start(reference)[1] == 't',
        hashed_start(reference)[2] != '-',
        hashed_start(reference)[17] != '-',
        is_plain(hashed_start(reference)),
{
    reveal_strlit("wt");
    let hash = state::hash_of(vstd::utf8::encode_utf8(reference)) as nat;
    let hex = text::hexadecimal(hash, 16);
    text::lemma_hexadecimal(hash, 16);
    let start = hashed_start(reference);
    assert forall|i: int| 0 <= i < 18 implies app::is_slug_char(#[trigger] start[i]) && start[i] != '-' by {
        if i >= 2 {
            assert(start[i] == hex[i - 2]);
        }
    }
    assert forall|i: int| !#[trigger] app::two_hyphens(start, i) by {
        if 0 <= i < 18 {
            assert(start[i] != '-');
        }
    }
}

proof fn lemma_project_digits(name: Seq<char>, digits: Seq<char>, rest: Seq<char>)
    requires
        forall|i: int| 0 <= i < digits.len() ==> text::is_ascii_digit(#[trigger] digits[i]),
        name.len() + digits.len() < 63,
    ensures
        app::project_from(name, digits + rest) == app::project_from(name + digits, rest),
    decreases digits.len(),
{
    if digits.len() == 0 {
        assert(digits + rest =~= rest);
        assert(name + digits =~= name);
    } else {
        let all = digits + rest;
        assert(text::is_ascii_digit(digits[0]));
        assert(all[0] == digits[0]);
        assert(text::ascii_lower(digits[0]) == digits[0]);
        let tail = digits.drop_first();
        assert(all.drop_first() =~= tail + rest);
        let more = name.push(digits[0]);
        assert forall|i: int| 0 <= i < tail.len() implies text::is_ascii_digit(#[trigger] tail[i]) by {
            assert(tail[i] == digits[i + 1]);
        }
        lemma_project_digits(more, tail, rest);
        assert(more + tail =~= name + digits);
    }
}

/// The number of an issue is a reference that stays as it is, and a slug.
proof fn lemma_issue_reference(issue: u64)
    ensures
        text::number_upto(text::decimal(issue as nat), u64::MAX as nat) == Some(issue as nat),
        app::is_slug(text::decimal(issue as nat)),
{
    let digits = text::decimal(issue as nat);
    text::lemma_decimal(issue as nat);
    assert(text::is_ascii_digit(digits[0]));
    assert(text::is_ascii_digit(digits[digits.len() - 1]));
    assert(text::unsigned(digits) == digits);
    assert forall|i: int| !#[trigger] app::two_hyphens(digits, i) by {
        if 0 <= i < digits.len() {
            assert(text::is_ascii_digit(digits[i]));
        }
    }
    assert forall|i: int| 0 <= i < digits.len() implies app::is_slug_char(#[trigger] digits[i]) by {
        assert(text::is_ascii_digit(digits[i]));
    }
}

/// The project of an issue starts with its number, and something other than a digit follows.
proof fn lemma_issue_project(repository: Seq<char>, issue: u64)
    ensures
        ({
            let name = app::project_name(repository, text::decimal(issue as nat));
            let digits = text::decimal(issue as nat);
            let n = 3 + digits.len();
            &&& name.len() >= n
            &&& name[2] == '-'
            &&& forall|i: int| 0 <= i < digits.len() ==> name[3 + i] == #[trigger] digits[i]
            &&& name.len() > n ==> name[n as int] == '-'
        }),
{
    let digits = text::decimal(issue as nat);
    text::lemma_decimal(issue as nat);
    assert(digits.len() <= 20) by {
        reveal_with_fuel(text::decimal, 21);
    }
    assert forall|i: int| 0 <= i < digits.len() implies text::is_ascii_digit(#[trigger] digits[i]) by {}
    reveal_strlit("wt-");
    reveal_strlit("-");
    let raw = "wt-"@ + digits + "-"@ + repository;
    let one = app::project_with(Seq::empty(), 'w');
    let two = app::project_with(one, 't');
    let three = app::project_with(two, '-');
    assert(raw[0] == 'w' && raw[1] == 't' && raw[2] == '-');
    let first = raw.drop_first();
    let second = first.drop_first();
    let third = second.drop_first();
    assert(first[0] == 't' && second[0] == '-');
    assert(three =~= seq!['w', 't', '-']);
    assert(app::project_from(Seq::empty(), raw) == app::project_from(one, first));
    assert(app::project_from(one, first) == app::project_from(two, second));
    assert(app::project_from(two, second) == app::project_from(three, third));
    let rest = "-"@ + repository;
    assert(third =~= digits + rest);
    lemma_project_digits(three, digits, rest);
    let start = three + digits;
    assert(start.last() == digits.last());
    assert(text::is_ascii_digit(digits[digits.len() - 1]));
    let more = app::project_with(start, '-');
    assert(rest[0] == '-');
    assert(more == start.push('-'));
    lemma_project_from(more, rest.drop_first());
    let full = app::project_from(Seq::empty(), raw);
    assert(full == app::project_from(more, rest.drop_first()));
    assert forall|i: int| 0 <= i < more.len() implies full[i] == more[i] by {
        assert(full.subrange(0, more.len() as int)[i] == full[i]);
    }
    app::lemma_trimmed_end(full, "-"@);
    assert(!"-"@.contains(full[start.len() - 1])) by {
        assert(full[start.len() - 1] == digits[digits.len() - 1]);
    }
    lemma_trimmed_keeps(full, "-"@, start.len() - 1);
    let name = app::project_name(repository, digits);
    assert(app::keeps_reference(repository, digits)) by {
        lemma_issue_reference(issue);
    }
    assert(name[2] == full[2] && full[2] == more[2]);
    assert forall|i: int| 0 <= i < digits.len() implies name[3 + i] == #[trigger] digits[i] by {
        assert(name[3 + i] == full[3 + i]);
        assert(more[3 + i] == digits[i]);
    }
    if name.len() > start.len() {
        assert(name[start.len() as int] == full[start.len() as int]);
    }
}

/// Worktrees of different issues have different Compose projects.
pub proof fn issues_have_projects_of_their_own(
    repository: Seq<char>,
    issue: u64,
    other_repository: Seq<char>,
    other: u64,
)
    requires
        issue != other,
    ensures
        app::project_name(repository, text::decimal(issue as nat)) != app::project_name(
            other_repository,
            text::decimal(other as nat),
        ),
{
    let a = text::decimal(issue as nat);
    let b = text::decimal(other as nat);
    lemma_issue_project(repository, issue);
    lemma_issue_project(other_repository, other);
    text::lemma_decimal(issue as nat);
    text::lemma_decimal(other as nat);
    let name = app::project_name(repository, a);
    if name == app::project_name(other_repository, b) {
        if a.len() == b.len() {
            assert forall|i: int| 0 <= i < a.len() implies a[i] == b[i] by {
                assert(name[3 + i] == a[i]);
                assert(name[3 + i] == b[i]);
            }
            assert(a =~= b);
            text::decimal_is_injective(issue as nat, other as nat);
        } else if a.len() < b.len() {
            assert(name[3 + a.len() as int] == b[a.len() as int]);
            assert(text::is_ascii_digit(b[a.len() as int]));
        } else {
            assert(name[3 + b.len() as int] == a[b.len() as int]);
            assert(text::is_ascii_digit(a[b.len() as int]));
        }
    }
}

proof fn lemma_trimmed_keeps(s: Seq<char>, set: Seq<char>, at: int)
    requires
        0 <= at < s.len(),
        !set.contains(s[at]),
    ensures
        text::trimmed_end_of(s, set).len() > at,
    decreases s.len(),
{
    let drop = |c: char| set.contains(c);
    if drop(s.last()) {
        lemma_trimmed_keeps(s.drop_last(), set, at);
    }
}

// ---------------------------------------------------------------------------
// Names that hold the whole reference and the whole repository
// ---------------------------------------------------------------------------

/// What a text adds to a project name that has room for all of it.
pub open spec fn flat_from(hyphen: bool, rest: Seq<char>) -> Seq<char>
    decreases rest.len(),
{
    if rest.len() == 0 {
        Seq::empty()
    } else if text::is_ascii_alphanumeric(rest[0]) {
        seq![text::ascii_lower(rest[0])] + flat_from(false, rest.drop_first())
    } else if hyphen {
        flat_from(true, rest.drop_first())
    } else {
        seq!['-'] + flat_from(true, rest.drop_first())
    }
}

pub open spec fn ends_with_hyphen(s: Seq<char>) -> bool {
    s.len() > 0 && s.last() == '-'
}

proof fn lemma_fitting(name: Seq<char>, rest: Seq<char>)
    requires
        name.len() + rest.len() <= 63,
    ensures
        app::project_from(name, rest) == name + flat_from(ends_with_hyphen(name), rest),
    decreases rest.len(),
{
    if rest.len() == 0 {
        assert(name + Seq::<char>::empty() =~= name);
    } else {
        let more = app::project_with(name, rest[0]);
        let tail = rest.drop_first();
        lemma_fitting(more, tail);
        if more.len() == 63 {
            assert(tail.len() == 0);
            assert(more + Seq::<char>::empty() =~= more);
        }
        assert(text::ascii_lower(rest[0]) != '-' || !text::is_ascii_alphanumeric(rest[0]));
        assert(app::project_from(name, rest) =~= name + flat_from(ends_with_hyphen(name), rest));
    }
}

/// A slug, or one with a hyphen behind it, stays as it is.
proof fn lemma_flat_slug(hyphen: bool, s: Seq<char>, rest: Seq<char>)
    requires
        s.len() > 0,
        hyphen ==> s[0] != '-',
        app::single_hyphens(s),
        forall|i: int| 0 <= i < s.len() ==> app::is_slug_char(#[trigger] s[i]),
    ensures
        flat_from(hyphen, s + rest) == s + flat_from(s.last() == '-', rest),
    decreases s.len(),
{
    let all = s + rest;
    let tail = s.drop_first();
    assert(app::is_slug_char(s[0]));
    assert(all[0] == s[0]);
    assert(all.drop_first() =~= tail + rest);
    assert(text::ascii_lower(s[0]) == s[0]);
    if tail.len() > 0 {
        assert forall|i: int| 0 <= i < tail.len() implies app::is_slug_char(#[trigger] tail[i]) by {
            assert(tail[i] == s[i + 1]);
        }
        assert forall|i: int| !#[trigger] app::two_hyphens(tail, i) by {
            assert(!app::two_hyphens(s, i + 1));
        }
        assert(!app::two_hyphens(s, 0));
        lemma_flat_slug(s[0] == '-', tail, rest);
        assert(seq![s[0]] + (tail + flat_from(tail.last() == '-', rest)) =~= s + flat_from(s.last() == '-', rest));
    } else {
        assert(tail + rest =~= rest);
        assert(s =~= seq![s[0]]);
    }
}

proof fn lemma_flat_start(rest: Seq<char>)
    ensures
        flat_from(true, rest).len() > 0 ==> flat_from(true, rest)[0] != '-',
    decreases rest.len(),
{
    if rest.len() > 0 && !text::is_ascii_alphanumeric(rest[0]) {
        lemma_flat_start(rest.drop_first());
    }
}

/// What follows the reference in a project name that has room for all of it.
pub open spec fn ending(repository: Seq<char>) -> Seq<char> {
    let flat = flat_from(true, repository);
    if flat.len() == 0 {
        flat
    } else {
        "-"@ + text::trimmed_end_of(flat, "-"@)
    }
}

proof fn lemma_trimmed_behind(start: Seq<char>, s: Seq<char>)
    requires
        s.len() > 0,
        s[0] != '-',
    ensures
        text::trimmed_end_of(start + s, "-"@) == start + text::trimmed_end_of(s, "-"@),
    decreases s.len(),
{
    let all = start + s;
    let drop = |c: char| "-"@.contains(c);
    reveal_strlit("-");
    assert(all.last() == s.last());
    if drop(s.last()) {
        let k = choose|k: int| 0 <= k < "-"@.len() && "-"@[k] == s.last();
        assert("-"@[k] == '-');
        assert(s.len() > 1);
        lemma_trimmed_behind(start, s.drop_last());
        assert(all.drop_last() =~= start + s.drop_last());
    }
}

/// A project name that has room for a slug and the repository holds both.
proof fn lemma_held(repository: Seq<char>, reference: Seq<char>)
    requires
        app::is_slug(reference),
        reference.len() + repository.len() <= 59,
    ensures
        app::project_name(repository, reference) == "wt-"@ + reference + ending(repository),
        ending(repository).len() > 0 ==> ending(repository)[0] == '-',
{
    reveal_strlit("wt-");
    reveal_strlit("-");
    let raw = "wt-"@ + reference + "-"@ + repository;
    let start = "wt-"@ + reference + "-"@;
    let flat = flat_from(true, repository);
    lemma_fitting(Seq::empty(), raw);
    assert(Seq::<char>::empty() + flat_from(false, raw) =~= flat_from(false, raw));
    assert(raw =~= start + repository);
    assert forall|i: int| 0 <= i < start.len() implies app::is_slug_char(#[trigger] start[i]) by {
        if 3 <= i < 3 + reference.len() {
            assert(start[i] == reference[i - 3]);
        }
    }
    assert forall|i: int| !#[trigger] app::two_hyphens(start, i) by {
        assert(!app::two_hyphens(reference, i - 3));
        if i == 2 {
            assert(start[3] == reference[0]);
        } else if i == 3 + reference.len() - 1 {
            assert(start[i] == reference.last());
        } else if 3 <= i < 3 + reference.len() - 1 {
            assert(start[i] == reference[i - 3] && start[i + 1] == reference[i - 2]);
        }
    }
    lemma_flat_slug(false, start, repository);
    lemma_flat_start(repository);
    let full = start + flat;
    assert(start.last() == '-');
    assert(app::project_from(Seq::empty(), raw) == full);
    if flat.len() == 0 {
        let drop = |c: char| "-"@.contains(c);
        assert(full =~= start);
        assert("-"@[0] == '-');
        assert(drop(full.last()));
        let shorter = full.drop_last();
        assert(shorter =~= "wt-"@ + reference);
        assert(shorter.last() == reference.last());
        assert(!drop(shorter.last())) by {
            if "-"@.contains(shorter.last()) {
                let k = choose|k: int| 0 <= k < "-"@.len() && "-"@[k] == shorter.last();
                assert("-"@[k] == '-');
            }
        }
        assert(text::trimmed_end_of(shorter, "-"@) == shorter);
        assert(text::trimmed_end_of(full, "-"@) == text::trimmed_end_of(shorter, "-"@));
        assert("wt-"@ + reference + ending(repository) =~= shorter);
    } else {
        lemma_trimmed_behind(start, flat);
        assert(start + text::trimmed_end_of(flat, "-"@) =~= "wt-"@ + reference + ending(repository));
    }
}

// ---------------------------------------------------------------------------
// Worktrees of one repository
// ---------------------------------------------------------------------------

/// Whether a worktree can be added for a target: a branch whose name would mean an issue cannot be
/// asked for.
pub open spec fn can_be_added(target: Target) -> bool {
    target matches Target::Branch(branch) ==> !app::means_issue(branch)
}

/// The file in which the worktree of a target is recorded.
pub open spec fn recorded_in(repository: Seq<char>, target: Target) -> Seq<char> {
    match target {
        Target::Issue(number) => state::issue_name(repository, number),
        Target::Branch(branch) => state::branch_name(repository, branch),
    }
}

pub open spec fn project_of(repository: Seq<char>, target: Target) -> Seq<char> {
    app::project_name(repository, app::key_of(target))
}

/// Whether a project name has room for a target and the repository.
pub open spec fn has_room(repository: Seq<char>, target: Target) -> bool {
    app::is_slug(app::key_of(target)) && app::key_of(target).len() + repository.len() <= 59
}

/// A name that holds no hash starts otherwise than one that does.
proof fn lemma_kept_start(repository: Seq<char>, target: Target)
    requires
        can_be_added(target),
        app::keeps_reference(repository, app::key_of(target)),
    ensures
        has_room(repository, target) || target is Issue,
        project_of(repository, target).len() > 2,
        project_of(repository, target)[2] == '-',
{
    reveal_strlit("wt-");
    match target {
        Target::Issue(number) => {
            text::lemma_decimal(number as nat);
            lemma_issue_project(repository, number);
        },
        Target::Branch(branch) => {
            lemma_held(repository, branch);
        },
    }
}

proof fn lemma_hashed(repository: Seq<char>, reference: Seq<char>)
    requires
        !app::keeps_reference(repository, reference),
    ensures
        app::project_name(repository, reference).len() >= 18,
        app::project_name(repository, reference).take(18) == hashed_start(reference),
        app::project_name(repository, reference)[2] != '-',
{
    let start = hashed_start(reference);
    let rest = "-"@ + reference + "-"@ + repository;
    let full = app::project_from(start, rest);
    let name = app::project_name(repository, reference);
    lemma_hashed_start(reference);
    lemma_project_from(start, rest);
    lemma_prefix_kept(start, full);
    app::lemma_trimmed_end(full, "-"@);
    reveal_strlit("-");
    assert(!"-"@.contains(full[17])) by {
        assert(full[17] == start[17]);
        if "-"@.contains(full[17]) {
            let k = choose|k: int| 0 <= k < "-"@.len() && "-"@[k] == full[17];
            assert("-"@[k] == '-');
        }
    }
    lemma_trimmed_keeps(full, "-"@, 17);
    lemma_prefix_kept(name, full);
    assert forall|i: int| 0 <= i < 18 implies name.take(18)[i] == start[i] by {
        assert(name[i] == full[i]);
        assert(start[i] == full[i]);
    }
    assert(name.take(18) =~= start);
    assert(name[2] == full[2] && full[2] == start[2]);
}

/// The number of an issue that leaves no room for the repository is no branch with room for it.
proof fn lemma_crowded_issue(repository: Seq<char>, issue: u64, branch: Seq<char>)
    requires
        text::decimal(issue as nat).len() + repository.len() > 59,
        app::is_slug(branch),
        branch.len() + repository.len() <= 59,
    ensures
        app::project_name(repository, text::decimal(issue as nat)) != app::project_name(repository, branch),
{
    reveal_strlit("wt-");
    let digits = text::decimal(issue as nat);
    text::lemma_decimal(issue as nat);
    lemma_issue_project(repository, issue);
    lemma_held(repository, branch);
    let n = branch.len() as int;
    let name = app::project_name(repository, digits);
    let other = "wt-"@ + branch + ending(repository);
    assert(name[3 + n] == digits[n]);
    assert(text::is_ascii_digit(digits[n]));
    if ending(repository).len() > 0 {
        assert(other[3 + n] == ending(repository)[0]);
    }
}

proof fn lemma_held_apart(repository: Seq<char>, a: Seq<char>, b: Seq<char>)
    requires
        app::is_slug(a),
        app::is_slug(b),
        a.len() + repository.len() <= 59,
        b.len() + repository.len() <= 59,
        app::project_name(repository, a) == app::project_name(repository, b),
    ensures
        a == b,
{
    lemma_held(repository, a);
    lemma_held(repository, b);
    reveal_strlit("wt-");
    let x = "wt-"@ + a + ending(repository);
    let y = "wt-"@ + b + ending(repository);
    assert(x.len() == y.len());
    assert forall|i: int| 0 <= i < a.len() implies a[i] == b[i] by {
        assert(x[3 + i] == a[i]);
        assert(y[3 + i] == b[i]);
    }
    assert(a =~= b);
}

/// Two worktrees of one repository have Compose projects of their own, except two branches whose
/// names stand in neither project name and have the same hash; those are recorded in one file, which
/// holds one of them.
pub proof fn worktrees_have_projects_of_their_own(repository: Seq<char>, a: Target, b: Target)
    requires
        can_be_added(a),
        can_be_added(b),
        a != b,
        app::keeps_reference(repository, app::key_of(a)) || app::keeps_reference(repository, app::key_of(b))
            || recorded_in(repository, a) != recorded_in(repository, b),
    ensures
        project_of(repository, a) != project_of(repository, b),
{
    let x = app::key_of(a);
    let y = app::key_of(b);
    if project_of(repository, a) == project_of(repository, b) {
        if a is Issue {
            lemma_issue_reference(a->Issue_0);
        }
        if b is Issue {
            lemma_issue_reference(b->Issue_0);
        }
        if !app::keeps_reference(repository, x) {
            lemma_hashed(repository, x);
        } else {
            lemma_kept_start(repository, a);
        }
        if !app::keeps_reference(repository, y) {
            lemma_hashed(repository, y);
        } else {
            lemma_kept_start(repository, b);
        }
        if !app::keeps_reference(repository, x) {
            let p = text::hexadecimal(state::hash_of(vstd::utf8::encode_utf8(x)) as nat, 16);
            let q = text::hexadecimal(state::hash_of(vstd::utf8::encode_utf8(y)) as nat, 16);
            assert(hashed_start(x) == hashed_start(y));
            reveal_strlit("wt");
            assert(hashed_start(x).skip(2) =~= p);
            assert(hashed_start(y).skip(2) =~= q);
            assert(p == q);
        } else if has_room(repository, a) && has_room(repository, b) {
            lemma_held_apart(repository, x, y);
            if a is Issue && b is Issue {
                text::decimal_is_injective(a->Issue_0 as nat, b->Issue_0 as nat);
            }
        } else if a is Issue && b is Issue {
            issues_have_projects_of_their_own(repository, a->Issue_0, repository, b->Issue_0);
        } else if a is Issue {
            lemma_crowded_issue(repository, a->Issue_0, y);
        } else {
            lemma_crowded_issue(repository, b->Issue_0, x);
        }
    }
}

} // verus!
