//! Rewriting the local references of a text lease by lease, with markers in between, comes to
//! rewriting all of them at once.

use vstd::prelude::*;

use crate::environment;
use crate::model;
use crate::ports::AssignmentData;
use crate::text;

verus! {

// ---------------------------------------------------------------------------
// All references at once
// ---------------------------------------------------------------------------

/// The references that leases rewrite: under both names of this machine, lease by lease.
pub open spec fn references_of(assignments: Seq<AssignmentData>) -> Seq<Seq<char>>
    decreases assignments.len(),
{
    if assignments.len() == 0 {
        Seq::empty()
    } else {
        let port = text::decimal(assignments.last().original as nat);
        references_of(assignments.drop_last()).push("localhost:"@ + port).push("127.0.0.1:"@ + port)
    }
}

/// The first of the references that a text starts with.
pub open spec fn first_reference(s: Seq<char>, references: Seq<Seq<char>>) -> Option<int>
    decreases references.len(),
{
    if references.len() == 0 {
        None
    } else {
        match first_reference(s, references.drop_last()) {
            Some(k) => Some(k),
            None => if environment::starts_with_reference(s, references.last()) {
                Some(references.len() - 1)
            } else {
                None
            },
        }
    }
}

/// The text with something else in place of the port of every reference, read from left to right;
/// the name of this machine, ten characters with its colon, stays.
pub open spec fn at_once(s: Seq<char>, references: Seq<Seq<char>>, to: spec_fn(int) -> Seq<char>) -> Seq<char>
    decreases s.len(),
{
    if s.len() == 0 {
        s
    } else {
        match first_reference(s, references) {
            Some(k) => if 0 < references[k].len() <= s.len() {
                references[k].take(10) + to(k) + at_once(s.skip(references[k].len() as int), references, to)
            } else {
                s
            },
            None => seq![s[0]] + at_once(s.drop_first(), references, to),
        }
    }
}

/// The port that was leased for each reference.
pub open spec fn leased_ports(assignments: Seq<AssignmentData>) -> spec_fn(int) -> Seq<char> {
    |k: int| text::decimal(assignments[k / 2].assigned as nat)
}

/// A marker without the underscores at its start.
pub open spec fn marker_end(index: nat) -> Seq<char> {
    "WT_ASSIGNED_PORT_"@ + text::decimal(index) + "__"@
}

/// Whether a text, behind a marker, makes another marker with its last underscores.
pub open spec fn completes_marker(rest: Seq<char>, index: nat) -> bool {
    marker_end(index).is_prefix_of(rest) || (seq!['_'] + marker_end(index)).is_prefix_of(rest)
}

/// Whether leases do not get in each other's way: within no reference starts one of an earlier
/// lease, as `127.0.0.1` may in the port of a reference, and what follows a reference does not end
/// like the marker of an earlier lease.
pub open spec fn apart(s: Seq<char>, references: Seq<Seq<char>>) -> bool
    decreases s.len(),
{
    if s.len() == 0 {
        true
    } else {
        match first_reference(s, references) {
            Some(k) => if 0 < references[k].len() <= s.len() {
                let rest = s.skip(references[k].len() as int);
                &&& forall|j: int|
                    0 < j < references[k].len() ==> first_reference(#[trigger] s.skip(j), references.take(k)) is None
                &&& forall|j: nat| j < k / 2 ==> !#[trigger] completes_marker(rest, j)
                &&& apart(rest, references)
            } else {
                true
            },
            None => apart(s.drop_first(), references),
        }
    }
}

// ---------------------------------------------------------------------------
// References and markers
// ---------------------------------------------------------------------------

/// Whether a text is a reference: a name of this machine and a port.
pub open spec fn is_reference(r: Seq<char>) -> bool {
    &&& r.len() > 10
    &&& r.take(10) == "localhost:"@ || r.take(10) == "127.0.0.1:"@
    &&& text::all_digits(r.skip(10))
}

pub open spec fn are_references(references: Seq<Seq<char>>) -> bool {
    forall|k: int| 0 <= k < references.len() ==> is_reference(#[trigger] references[k])
}

/// Whether a character may stand in a marker.
pub open spec fn is_mark(c: char) -> bool {
    c == '_' || text::is_ascii_digit(c) || ('A' <= c && c <= 'Z')
}

/// Whether a text may be the end of a marker.
pub open spec fn ends_like_marker(u: Seq<char>) -> bool {
    &&& forall|i: int| 0 <= i < u.len() ==> is_mark(#[trigger] u[i])
    &&& u.len() > 0 ==> u[u.len() - 1] == '_'
    &&& u.len() > 1 ==> u[u.len() - 2] == '_'
}

proof fn lemma_reference(r: Seq<char>)
    requires
        is_reference(r),
    ensures
        r[0] == 'l' || (r[0] == '1' && r[1] == '2' && r[3] == '.'),
        r[3] == 'a' || r[3] == '.',
        r[1] != '_',
        r[9] == ':',
        text::is_ascii_digit(r[r.len() - 1]),
        !r.contains('_'),
        forall|i: int| 0 <= i < 10 ==> #[trigger] r.take(10)[i] == r[i] && r[i] != '_',
{
    reveal_strlit("localhost:");
    reveal_strlit("127.0.0.1:");
    let host = r.take(10);
    assert(host[0] == r[0] && host[1] == r[1] && host[3] == r[3] && host[9] == r[9]);
    assert(r.skip(10)[r.len() - 11] == r[r.len() - 1]);
    assert forall|i: int| 0 <= i < 10 implies #[trigger] r.take(10)[i] == r[i] && r[i] != '_' by {
        assert(host[i] == "localhost:"@[i] || host[i] == "127.0.0.1:"@[i]);
    }
    if r.contains('_') {
        let k = choose|k: int| 0 <= k < r.len() && r[k] == '_';
        if k < 10 {
            assert(host[k] == r[k]);
        } else {
            assert(text::is_ascii_digit(r.skip(10)[k - 10]));
        }
    }
}

proof fn lemma_marker_end(index: nat)
    ensures
        ends_like_marker(marker_end(index)),
        ends_like_marker(environment::marker(index)),
        environment::marker(index) == seq!['_', '_'] + marker_end(index),
        ends_like_marker(seq!['_'] + marker_end(index)),
        marker_end(index).len() > 19,
        marker_end(index)[0] == 'W',
{
    reveal_strlit("WT_ASSIGNED_PORT_");
    reveal_strlit("__WT_ASSIGNED_PORT_");
    reveal_strlit("__");
    text::lemma_decimal(index);
    let digits = text::decimal(index);
    let end = marker_end(index);
    assert("__WT_ASSIGNED_PORT_"@ =~= seq!['_', '_'] + "WT_ASSIGNED_PORT_"@);
    assert(environment::marker(index) =~= seq!['_', '_'] + end);
    assert forall|i: int| 0 <= i < end.len() implies is_mark(#[trigger] end[i]) by {
        if 17 <= i < 17 + digits.len() {
            assert(end[i] == digits[i - 17]);
            assert(text::is_ascii_digit(digits[i - 17]));
        } else if i < 17 {
            assert(end[i] == "WT_ASSIGNED_PORT_"@[i]);
        }
    }
    let longer = seq!['_'] + end;
    assert forall|i: int| 0 <= i < longer.len() implies is_mark(#[trigger] longer[i]) by {
        if i > 0 {
            assert(longer[i] == end[i - 1]);
        }
    }
    let whole = environment::marker(index);
    assert forall|i: int| 0 <= i < whole.len() implies is_mark(#[trigger] whole[i]) by {
        if i > 1 {
            assert(whole[i] == end[i - 2]);
        }
    }
}

/// A text that starts with the end of a marker starts with no reference.
proof fn lemma_no_reference_in_marker(u: Seq<char>, rest: Seq<char>, r: Seq<char>)
    requires
        ends_like_marker(u),
        u.len() > 0,
        is_reference(r),
    ensures
        !r.is_prefix_of(u + rest),
{
    lemma_reference(r);
    let s = u + rest;
    if r.is_prefix_of(s) {
        assert(r[0] == s[0] && r[1] == s[1] && r[3] == s[3]) by {
            assert(s.subrange(0, r.len() as int)[0] == s[0]);
            assert(s.subrange(0, r.len() as int)[1] == s[1]);
            assert(s.subrange(0, r.len() as int)[3] == s[3]);
        }
        assert(is_mark(u[0]));
        if u.len() > 3 {
            assert(is_mark(u[3]));
        }
    }
}

proof fn lemma_references_of(assignments: Seq<AssignmentData>)
    ensures
        references_of(assignments).len() == 2 * assignments.len(),
        are_references(references_of(assignments)),
    decreases assignments.len(),
{
    if assignments.len() > 0 {
        let init = assignments.drop_last();
        lemma_references_of(init);
        let port = text::decimal(assignments.last().original as nat);
        text::lemma_decimal(assignments.last().original as nat);
        reveal_strlit("localhost:");
        reveal_strlit("127.0.0.1:");
        let a = "localhost:"@ + port;
        let b = "127.0.0.1:"@ + port;
        assert(a.take(10) =~= "localhost:"@ && a.skip(10) =~= port);
        assert(b.take(10) =~= "127.0.0.1:"@ && b.skip(10) =~= port);
        let all = references_of(assignments);
        assert forall|k: int| 0 <= k < all.len() implies is_reference(#[trigger] all[k]) by {
            if k < 2 * init.len() {
                assert(all[k] == references_of(init)[k]);
            }
        }
    }
}

/// The references of the first leases are the first references.
proof fn lemma_first_references(assignments: Seq<AssignmentData>, n: int)
    requires
        0 <= n <= assignments.len(),
    ensures
        references_of(assignments.take(n)) == references_of(assignments).take(2 * n),
    decreases assignments.len() - n,
{
    lemma_references_of(assignments);
    if n == assignments.len() {
        model::whole(assignments);
        assert(references_of(assignments).take(2 * n) =~= references_of(assignments));
    } else {
        lemma_first_references(assignments, n + 1);
        model::step(assignments, n);
        let more = assignments.take(n + 1);
        lemma_references_of(assignments.take(n));
        assert(more.drop_last() =~= assignments.take(n));
        assert(references_of(assignments.take(n)) =~= references_of(more).take(2 * n));
        assert(references_of(assignments).take(2 * (n + 1)).take(2 * n) =~= references_of(assignments).take(2 * n));
    }
}

// ---------------------------------------------------------------------------
// The first reference
// ---------------------------------------------------------------------------

proof fn lemma_first_reference(s: Seq<char>, references: Seq<Seq<char>>)
    ensures
        match first_reference(s, references) {
            Some(k) => 0 <= k < references.len() && environment::starts_with_reference(s, references[k]) && forall|j: int|
                0 <= j < k ==> !environment::starts_with_reference(s, #[trigger] references[j]),
            None => forall|j: int|
                0 <= j < references.len() ==> !environment::starts_with_reference(s, #[trigger] references[j]),
        },
    decreases references.len(),
{
    if references.len() > 0 {
        let init = references.drop_last();
        lemma_first_reference(s, init);
        match first_reference(s, init) {
            Some(k) => {
                assert(references[k] == init[k]);
                assert forall|j: int| 0 <= j < k implies !environment::starts_with_reference(
                    s,
                    #[trigger] references[j],
                ) by {
                    assert(references[j] == init[j]);
                }
            },
            None => {
                assert forall|j: int| 0 <= j < init.len() implies !environment::starts_with_reference(
                    s,
                    #[trigger] references[j],
                ) by {
                    assert(references[j] == init[j]);
                }
            },
        }
    }
}

/// The first reference among fewer references.
proof fn lemma_first_of_fewer(s: Seq<char>, references: Seq<Seq<char>>, n: int)
    requires
        0 <= n <= references.len(),
    ensures
        first_reference(s, references.take(n)) == match first_reference(s, references) {
            Some(k) => if k < n {
                Some(k)
            } else {
                None
            },
            None => None,
        },
{
    let fewer = references.take(n);
    lemma_first_reference(s, references);
    lemma_first_reference(s, fewer);
    match first_reference(s, references) {
        Some(k) => {
            if k < n {
                assert(fewer[k] == references[k]);
            }
        },
        None => {},
    }
    match first_reference(s, fewer) {
        Some(k) => {
            assert(fewer[k] == references[k]);
        },
        None => {},
    }
}

/// Where no reference starts, the text is copied.
proof fn lemma_copied(s: Seq<char>, references: Seq<Seq<char>>, to: spec_fn(int) -> Seq<char>, n: int)
    requires
        0 <= n <= s.len(),
        forall|j: int| 0 <= j < n ==> first_reference(#[trigger] s.skip(j), references) is None,
    ensures
        at_once(s, references, to) == s.take(n) + at_once(s.skip(n), references, to),
    decreases n,
{
    assert(s.skip(0) =~= s);
    if n == 0 {
        assert(s.take(0) + at_once(s, references, to) =~= at_once(s, references, to));
    } else {
        let rest = s.drop_first();
        assert(first_reference(s.skip(0), references) is None);
        assert forall|j: int| 0 <= j < n - 1 implies first_reference(#[trigger] rest.skip(j), references) is None by {
            assert(rest.skip(j) =~= s.skip(j + 1));
        }
        lemma_copied(rest, references, to, n - 1);
        assert(rest.skip(n - 1) =~= s.skip(n));
        assert(seq![s[0]] + (rest.take(n - 1) + at_once(s.skip(n), references, to)) =~= s.take(n) + at_once(
            s.skip(n),
            references,
            to,
        ));
    }
}

/// A text with a reference at its start, and what it comes to.
proof fn lemma_at_reference(s: Seq<char>, references: Seq<Seq<char>>, to: spec_fn(int) -> Seq<char>, k: int)
    requires
        are_references(references),
        first_reference(s, references) == Some(k),
    ensures
        0 <= k < references.len(),
        10 < references[k].len() <= s.len(),
        s == references[k] + s.skip(references[k].len() as int),
        at_once(s, references, to) == references[k].take(10) + to(k) + at_once(
            s.skip(references[k].len() as int),
            references,
            to,
        ),
        s.len() == references[k].len() || !text::is_ascii_digit(s[references[k].len() as int]),
{
    lemma_first_reference(s, references);
    assert(is_reference(references[k]));
    let n = references[k].len() as int;
    assert(s =~= s.subrange(0, n) + s.skip(n));
}

// ---------------------------------------------------------------------------
// Marking
// ---------------------------------------------------------------------------

/// The marker of each reference.
pub open spec fn markers() -> spec_fn(int) -> Seq<char> {
    |k: int| environment::marker((k / 2) as nat)
}

/// What was marked is the text itself up to its first underscore, unless that is behind a colon.
proof fn lemma_agrees(s: Seq<char>, references: Seq<Seq<char>>, n: int)
    requires
        are_references(references),
        0 <= n <= at_once(s, references, markers()).len(),
        forall|i: int| 0 <= i < n ==> #[trigger] at_once(s, references, markers())[i] != '_',
        n > 0 ==> at_once(s, references, markers())[n - 1] != ':',
    ensures
        n <= s.len(),
        s.take(n) == at_once(s, references, markers()).take(n),
        n == s.len() <==> n == at_once(s, references, markers()).len(),
        n < s.len() ==> s[n] == at_once(s, references, markers())[n],
    decreases s.len(),
{
    let p = at_once(s, references, markers());
    if s.len() > 0 {
        match first_reference(s, references) {
            Some(k) => {
                lemma_at_reference(s, references, markers(), k);
                let r = references[k];
                lemma_reference(r);
                let mark = environment::marker((k / 2) as nat);
                lemma_marker_end((k / 2) as nat);
                assert forall|i: int| 0 <= i < 10 implies #[trigger] p[i] == s[i] by {
                    assert(p[i] == r.take(10)[i]);
                    assert(s[i] == r[i]);
                }
                assert(p[10] == mark[0]);
                assert(p[9] == ':');
                if n > 10 {
                    assert(p[10] != '_');
                }
                assert(n < 10);
                assert(s.take(n) =~= p.take(n));
            },
            None => {
                let rest = s.drop_first();
                let more = at_once(rest, references, markers());
                if n > 0 {
                    assert forall|i: int| 0 <= i < n - 1 implies #[trigger] more[i] != '_' by {
                        assert(p[i + 1] == more[i]);
                    }
                    if n > 1 {
                        assert(p[n - 1] == more[n - 2]);
                    }
                    lemma_agrees(rest, references, n - 1);
                    assert forall|i: int| 0 <= i < n implies s[i] == p[i] by {
                        if i > 0 {
                            assert(rest.take(n - 1)[i - 1] == rest[i - 1]);
                            assert(more.take(n - 1)[i - 1] == more[i - 1]);
                        }
                    }
                    assert(s.take(n) =~= p.take(n));
                } else {
                    assert(s.take(n) =~= p.take(n));
                }
            },
        }
    } else {
        assert(s.take(n) =~= p.take(n));
    }
}

/// The text that was marked starts with a reference only where the text does.
proof fn lemma_reference_kept(s: Seq<char>, references: Seq<Seq<char>>, r: Seq<char>)
    requires
        are_references(references),
        is_reference(r),
        environment::starts_with_reference(at_once(s, references, markers()), r),
    ensures
        environment::starts_with_reference(s, r),
{
    let p = at_once(s, references, markers());
    let n = r.len() as int;
    lemma_reference(r);
    assert forall|i: int| 0 <= i < n implies #[trigger] p[i] == r[i] && p[i] != '_' by {
        assert(p.subrange(0, n)[i] == p[i]);
        assert(r.contains(r[i]));
    }
    lemma_agrees(s, references, n);
    assert(s.subrange(0, n) =~= r) by {
        assert(s.subrange(0, n) =~= s.take(n));
        assert(p.take(n) =~= p.subrange(0, n));
    }
}

/// What holds no reference at its first characters is passed over.
proof fn lemma_passed_over(front: Seq<char>, rest: Seq<char>, r: Seq<char>, to: Seq<char>)
    requires
        r.len() > 0,
        forall|i: int| 0 <= i < front.len() ==> !r.is_prefix_of(#[trigger] (front + rest).skip(i)),
    ensures
        environment::references_replaced(front + rest, r, to) == front + environment::references_replaced(rest, r, to),
    decreases front.len(),
{
    let s = front + rest;
    if front.len() == 0 {
        assert(s =~= rest);
        assert(front + environment::references_replaced(rest, r, to) =~= environment::references_replaced(
            rest,
            r,
            to,
        ));
    } else {
        let less = front.drop_first();
        assert(s.skip(0) =~= s);
        assert(!r.is_prefix_of(s.skip(0)));
        assert(s.drop_first() =~= less + rest);
        assert forall|i: int| 0 <= i < less.len() implies !r.is_prefix_of(#[trigger] (less + rest).skip(i)) by {
            assert((less + rest).skip(i) =~= s.skip(i + 1));
        }
        lemma_passed_over(less, rest, r, to);
        assert(seq![s[0]] + (less + environment::references_replaced(rest, r, to)) =~= front
            + environment::references_replaced(rest, r, to));
    }
}

/// Whether marking one more reference, in a text where the first ones are marked, marks it as well.
spec fn marks_next(s: Seq<char>, all: Seq<Seq<char>>, n: int) -> bool {
    environment::references_replaced(
        at_once(s, all.take(n), markers()),
        all[n],
        all[n].take(10) + markers()(n),
    ) == at_once(s, all.take(n + 1), markers())
}

/// A character at which none of the first references starts changes nothing.
proof fn lemma_one_over(s: Seq<char>, all: Seq<Seq<char>>, n: int)
    requires
        are_references(all),
        0 <= n < all.len(),
        s.len() > 0,
        first_reference(s, all.take(n + 1)) is None,
        marks_next(s.drop_first(), all, n),
    ensures
        marks_next(s, all, n),
{
    let fewer = all.take(n);
    let p = at_once(s, fewer, markers());
    let rest = at_once(s.drop_first(), fewer, markers());
    lemma_first_of_fewer(s, all, n);
    lemma_first_of_fewer(s, all, n + 1);
    lemma_first_reference(s, all.take(n + 1));
    assert(all.take(n + 1)[n] == all[n]);
    lemma_fewer_references(all, n);
    if environment::starts_with_reference(p, all[n]) {
        lemma_reference_kept(s, fewer, all[n]);
    }
    assert(p == seq![s[0]] + rest);
    assert(p.drop_first() =~= rest);
}

proof fn lemma_some_over(s: Seq<char>, all: Seq<Seq<char>>, n: int, count: int)
    requires
        are_references(all),
        0 <= n < all.len(),
        0 <= count <= s.len(),
        forall|j: int| 0 <= j < count ==> first_reference(#[trigger] s.skip(j), all.take(n + 1)) is None,
        marks_next(s.skip(count), all, n),
    ensures
        marks_next(s, all, n),
    decreases count,
{
    assert(s.skip(0) =~= s);
    if count > 0 {
        let rest = s.drop_first();
        assert(first_reference(s.skip(0), all.take(n + 1)) is None);
        assert forall|j: int| 0 <= j < count - 1 implies first_reference(#[trigger] rest.skip(j), all.take(n + 1)) is None by {
            assert(rest.skip(j) =~= s.skip(j + 1));
        }
        assert(rest.skip(count - 1) =~= s.skip(count));
        lemma_some_over(rest, all, n, count - 1);
        lemma_one_over(s, all, n);
    }
}

/// No reference starts within one that is marked.
proof fn lemma_none_in_marked(r: Seq<char>, index: nat, rest: Seq<char>, other: Seq<char>, at: int)
    requires
        is_reference(r),
        is_reference(other),
        0 <= at < 10 + environment::marker(index).len(),
    ensures
        !other.is_prefix_of((r.take(10) + environment::marker(index) + rest).skip(at)),
{
    let mark = environment::marker(index);
    let s = r.take(10) + mark + rest;
    lemma_marker_end(index);
    if at < 10 {
        lemma_reference(other);
        let t = s.skip(at);
        if other.is_prefix_of(t) {
            assert(t.subrange(0, other.len() as int)[10 - at] == t[10 - at]);
            assert(t[10 - at] == s[10]);
            assert(s[10] == mark[0]);
            assert(other[10 - at] == '_');
        }
    } else {
        let u = mark.skip(at - 10);
        assert forall|j: int| 0 <= j < u.len() implies is_mark(#[trigger] u[j]) by {
            assert(u[j] == mark[j + at - 10]);
        }
        assert(u + rest =~= s.skip(at));
        lemma_no_reference_in_marker(u, rest, other);
    }
}

/// A reference that is marked already is passed over.
proof fn lemma_marked_over(r: Seq<char>, index: nat, rest: Seq<char>, other: Seq<char>, to: Seq<char>)
    requires
        is_reference(r),
        is_reference(other),
    ensures
        environment::references_replaced(r.take(10) + environment::marker(index) + rest, other, to) == r.take(10)
            + environment::marker(index) + environment::references_replaced(rest, other, to),
{
    let front = r.take(10) + environment::marker(index);
    assert forall|i: int| 0 <= i < front.len() implies !other.is_prefix_of(#[trigger] (front + rest).skip(i)) by {
        lemma_none_in_marked(r, index, rest, other, i);
    }
    lemma_passed_over(front, rest, other, to);
}

proof fn lemma_fewer_references(all: Seq<Seq<char>>, n: int)
    requires
        are_references(all),
        0 <= n <= all.len(),
    ensures
        are_references(all.take(n)),
{
    let fewer = all.take(n);
    assert forall|k: int| 0 <= k < fewer.len() implies is_reference(#[trigger] fewer[k]) by {
        assert(fewer[k] == all[k]);
    }
}

/// At a reference of a later lease nothing is marked yet.
proof fn lemma_at_later(s: Seq<char>, all: Seq<Seq<char>>, n: int, k: int)
    requires
        are_references(all),
        0 <= n < k < all.len(),
        s.len() > 0,
        first_reference(s, all) == Some(k),
        forall|j: int| 0 < j < all[k].len() ==> first_reference(#[trigger] s.skip(j), all.take(k)) is None,
        marks_next(s.skip(all[k].len() as int), all, n),
    ensures
        marks_next(s, all, n),
{
    let more = all.take(n + 1);
    let size = all[k].len() as int;
    lemma_at_reference(s, all, markers(), k);
    lemma_first_of_fewer(s, all, n + 1);
    assert(s.skip(0) =~= s);
    assert forall|j: int| 0 <= j < size implies first_reference(#[trigger] s.skip(j), more) is None by {
        if j > 0 {
            lemma_first_of_fewer(s.skip(j), all.take(k), n + 1);
            assert(all.take(k).take(n + 1) =~= more);
        }
    }
    lemma_some_over(s, all, n, size);
}

/// At a reference of the lease itself, the reference is there still, and is marked.
proof fn lemma_at_own(s: Seq<char>, all: Seq<Seq<char>>, n: int)
    requires
        are_references(all),
        0 <= n < all.len(),
        s.len() > 0,
        first_reference(s, all) == Some(n),
        forall|j: int| 0 < j < all[n].len() ==> first_reference(#[trigger] s.skip(j), all.take(n)) is None,
        marks_next(s.skip(all[n].len() as int), all, n),
    ensures
        marks_next(s, all, n),
{
    let fewer = all.take(n);
    let more = all.take(n + 1);
    let r = all[n];
    let size = r.len() as int;
    let rest = s.skip(size);
    lemma_fewer_references(all, n);
    lemma_fewer_references(all, n + 1);
    lemma_first_of_fewer(s, all, n);
    lemma_first_of_fewer(s, all, n + 1);
    lemma_at_reference(s, all, markers(), n);
    assert(s.skip(0) =~= s);
    assert forall|j: int| 0 <= j < size implies first_reference(#[trigger] s.skip(j), fewer) is None by {}
    lemma_copied(s, fewer, markers(), size);
    let p = at_once(s, fewer, markers());
    let q = at_once(rest, fewer, markers());
    assert(s.take(size) =~= r);
    assert(p == r + q);
    lemma_agrees(rest, fewer, 0);
    assert(p.subrange(0, size) =~= r);
    assert(p.skip(size) =~= q);
    if rest.len() > 0 {
        assert(p[size] == q[0] && q[0] == rest[0] && rest[0] == s[size]);
    }
    assert(environment::starts_with_reference(p, r));
    lemma_at_reference(s, more, markers(), n);
    assert(more[n] == r);
}

/// A reference of an earlier lease is marked already.
proof fn lemma_at_earlier(s: Seq<char>, all: Seq<Seq<char>>, n: int, k: int)
    requires
        are_references(all),
        0 <= k < n < all.len(),
        s.len() > 0,
        first_reference(s, all) == Some(k),
        marks_next(s.skip(all[k].len() as int), all, n),
    ensures
        marks_next(s, all, n),
{
    let fewer = all.take(n);
    let more = all.take(n + 1);
    let rest = s.skip(all[k].len() as int);
    lemma_fewer_references(all, n);
    lemma_fewer_references(all, n + 1);
    lemma_first_of_fewer(s, all, n);
    lemma_first_of_fewer(s, all, n + 1);
    lemma_at_reference(s, fewer, markers(), k);
    lemma_at_reference(s, more, markers(), k);
    assert(fewer[k] == all[k] && more[k] == all[k]);
    lemma_marked_over(
        all[k],
        (k / 2) as nat,
        at_once(rest, fewer, markers()),
        all[n],
        all[n].take(10) + markers()(n),
    );
}

proof fn lemma_marks_next(s: Seq<char>, all: Seq<Seq<char>>, n: int)
    requires
        are_references(all),
        0 <= n < all.len(),
        apart(s, all),
    ensures
        marks_next(s, all, n),
    decreases s.len(),
{
    if s.len() > 0 {
        match first_reference(s, all) {
            None => {
                lemma_first_of_fewer(s, all, n + 1);
                lemma_marks_next(s.drop_first(), all, n);
                lemma_one_over(s, all, n);
            },
            Some(k) => {
                lemma_at_reference(s, all, markers(), k);
                lemma_marks_next(s.skip(all[k].len() as int), all, n);
                if k > n {
                    lemma_at_later(s, all, n, k);
                } else if k == n {
                    lemma_at_own(s, all, n);
                } else {
                    lemma_at_earlier(s, all, n, k);
                }
            },
        }
    }
}

/// Marking lease by lease marks all references at once.
proof fn lemma_marked_at_once(contents: Seq<char>, assignments: Seq<AssignmentData>, n: int)
    requires
        0 <= n <= assignments.len(),
        apart(contents, references_of(assignments)),
        environment::marked(contents, assignments.take(n)) is Ok,
    ensures
        environment::marked(contents, assignments.take(n)) == Ok::<Seq<char>, Seq<char>>(
            at_once(contents, references_of(assignments).take(2 * n), markers()),
        ),
    decreases n,
{
    let all = references_of(assignments);
    lemma_references_of(assignments);
    if n == 0 {
        lemma_nothing_at_once(contents, markers());
        assert(all.take(0) =~= Seq::empty());
    } else {
        let k = n - 1;
        model::step(assignments, k);
        assert(assignments.take(n).drop_last() =~= assignments.take(k));
        assert(assignments.take(n).last() == assignments[k]);
        lemma_marked_at_once(contents, assignments, k);
        lemma_marks_next(contents, all, 2 * k);
        lemma_marks_next(contents, all, 2 * k + 1);
        lemma_first_references(assignments, n);
        lemma_references_of(assignments.take(k));
        let port = text::decimal(assignments[k].original as nat);
        let own = references_of(assignments.take(n));
        assert(own[2 * k] == "localhost:"@ + port);
        assert(own[2 * k + 1] == "127.0.0.1:"@ + port);
        assert(all[2 * k] == own[2 * k] && all[2 * k + 1] == own[2 * k + 1]);
        reveal_strlit("localhost:");
        reveal_strlit("127.0.0.1:");
        assert(all[2 * k].take(10) =~= "localhost:"@);
        assert(all[2 * k + 1].take(10) =~= "127.0.0.1:"@);
        assert((2 * k) / 2 == k && (2 * k + 1) / 2 == k);
        assert(markers()(2 * k) == environment::marker(k as nat));
        assert(markers()(2 * k + 1) == environment::marker(k as nat));
    }
}

proof fn lemma_nothing_at_once(s: Seq<char>, to: spec_fn(int) -> Seq<char>)
    ensures
        at_once(s, Seq::empty(), to) == s,
    decreases s.len(),
{
    if s.len() > 0 {
        lemma_nothing_at_once(s.drop_first(), to);
        assert(seq![s[0]] + s.drop_first() =~= s);
    }
}

// ---------------------------------------------------------------------------
// Putting ports in the place of markers
// ---------------------------------------------------------------------------

/// The ports of the first leases, and the markers of the others.
pub open spec fn half_filled(assignments: Seq<AssignmentData>, n: int) -> spec_fn(int) -> Seq<char> {
    |k: int|
        if 0 <= k / 2 < n {
            text::decimal(assignments[k / 2].assigned as nat)
        } else {
            environment::marker((k / 2) as nat)
        }
}

/// The end of a marker and the start of a reference have nothing in common.
proof fn lemma_marker_is_no_reference(u: Seq<char>, r: Seq<char>, p: Seq<char>)
    requires
        ends_like_marker(u),
        u.len() > 0,
        is_reference(r),
        r.take(10).is_prefix_of(p),
    ensures
        !u.is_prefix_of(p),
{
    lemma_reference(r);
    if u.is_prefix_of(p) {
        let n = u.len() as int;
        assert(p[0] == r[0] && p[1] == r[1] && p[3] == r[3]) by {
            assert(p.subrange(0, 10)[0] == p[0] && r.take(10)[0] == r[0]);
            assert(p.subrange(0, 10)[1] == p[1] && r.take(10)[1] == r[1]);
            assert(p.subrange(0, 10)[3] == p[3] && r.take(10)[3] == r[3]);
        }
        assert(p.subrange(0, n)[0] == u[0]);
        assert(is_mark(u[0]));
        if n > 1 {
            assert(p.subrange(0, n)[1] == u[1]);
        }
        if n > 3 {
            assert(p.subrange(0, n)[3] == u[3]);
            assert(is_mark(u[3]));
        }
    }
}

/// A text starts with the end of a marker exactly where it does with its references changed.
proof fn lemma_marker_ends_kept(s: Seq<char>, references: Seq<Seq<char>>, to: spec_fn(int) -> Seq<char>, u: Seq<char>)
    requires
        are_references(references),
        ends_like_marker(u),
    ensures
        u.is_prefix_of(at_once(s, references, to)) <==> u.is_prefix_of(s),
    decreases u.len(),
{
    let p = at_once(s, references, to);
    if u.len() == 0 {
        assert(u =~= p.subrange(0, 0));
        assert(u =~= s.subrange(0, 0));
    } else if s.len() > 0 {
        match first_reference(s, references) {
            Some(k) => {
                lemma_at_reference(s, references, to, k);
                let r = references[k];
                assert(p.subrange(0, 10) =~= r.take(10));
                assert(s.subrange(0, 10) =~= r.take(10));
                lemma_marker_is_no_reference(u, r, p);
                lemma_marker_is_no_reference(u, r, s);
            },
            None => {
                let less = u.drop_first();
                let rest = s.drop_first();
                let more = at_once(rest, references, to);
                assert forall|i: int| 0 <= i < less.len() implies is_mark(#[trigger] less[i]) by {
                    assert(less[i] == u[i + 1]);
                }
                lemma_marker_ends_kept(rest, references, to, less);
                lemma_prefix_behind(u, s);
                lemma_prefix_behind(u, p);
                assert(p.drop_first() =~= more);
            },
        }
    }
}

proof fn lemma_prefix_behind(u: Seq<char>, s: Seq<char>)
    requires
        u.len() > 0,
        s.len() > 0,
    ensures
        u.is_prefix_of(s) <==> u[0] == s[0] && u.drop_first().is_prefix_of(s.drop_first()),
{
    let n = u.len() as int;
    if u.is_prefix_of(s) {
        assert(s.subrange(0, n)[0] == s[0]);
        assert(s.drop_first().subrange(0, n - 1) =~= s.subrange(0, n).drop_first());
    }
    if u[0] == s[0] && u.drop_first().is_prefix_of(s.drop_first()) {
        assert forall|i: int| 0 <= i < n implies s.subrange(0, n)[i] == u[i] by {
            if i > 0 {
                assert(s.drop_first().subrange(0, n - 1)[i - 1] == u.drop_first()[i - 1]);
            }
        }
        assert(s.subrange(0, n) =~= u);
    }
}

/// What holds no such text at its first characters stays.
proof fn lemma_stays(front: Seq<char>, rest: Seq<char>, from: Seq<char>, to: Seq<char>)
    requires
        from.len() > 0,
        forall|i: int| 0 <= i < front.len() ==> !from.is_prefix_of(#[trigger] (front + rest).skip(i)),
    ensures
        text::replaced(front + rest, from, to) == front + text::replaced(rest, from, to),
    decreases front.len(),
{
    let s = front + rest;
    if front.len() == 0 {
        assert(s =~= rest);
        assert(front + text::replaced(rest, from, to) =~= text::replaced(rest, from, to));
    } else {
        let less = front.drop_first();
        assert(s.skip(0) =~= s);
        assert(!from.is_prefix_of(s.skip(0)));
        assert(s.drop_first() =~= less + rest);
        assert forall|i: int| 0 <= i < less.len() implies !from.is_prefix_of(#[trigger] (less + rest).skip(i)) by {
            assert((less + rest).skip(i) =~= s.skip(i + 1));
        }
        lemma_stays(less, rest, from, to);
        assert(seq![s[0]] + (less + text::replaced(rest, from, to)) =~= front + text::replaced(rest, from, to));
    }
}

/// What holds no underscore stays, whatever marker is looked for.
proof fn lemma_plain_stays(front: Seq<char>, rest: Seq<char>, index: nat, to: Seq<char>)
    requires
        !front.contains('_'),
    ensures
        text::replaced(front + rest, environment::marker(index), to) == front + text::replaced(
            rest,
            environment::marker(index),
            to,
        ),
{
    let mark = environment::marker(index);
    lemma_marker_end(index);
    let s = front + rest;
    assert forall|i: int| 0 <= i < front.len() implies !mark.is_prefix_of(#[trigger] s.skip(i)) by {
        if mark.is_prefix_of(s.skip(i)) {
            assert(s.skip(i).subrange(0, mark.len() as int)[0] == s[i]);
            assert(front[i] == '_');
        }
    }
    lemma_stays(front, rest, mark, to);
}

/// Within one marker starts no other, unless what follows completes it.
proof fn lemma_markers_apart(index: nat, other: nat, rest: Seq<char>, at: int)
    requires
        index != other,
        !completes_marker(rest, other),
        0 <= at < environment::marker(index).len(),
    ensures
        !environment::marker(other).is_prefix_of((environment::marker(index) + rest).skip(at)),
{
    let mark = environment::marker(index);
    let wanted = environment::marker(other);
    let s = mark + rest;
    let t = s.skip(at);
    let n = mark.len() as int;
    lemma_marker_end(index);
    lemma_marker_end(other);
    if wanted.is_prefix_of(t) {
        assert forall|i: int| 0 <= i < wanted.len() implies #[trigger] s[at + i] == wanted[i] by {
            assert(t.subrange(0, wanted.len() as int)[i] == t[i]);
        }
        assert(s[at + 0] == wanted[0] && s[at + 1] == wanted[1] && s[at + 2] == wanted[2]);
        assert(wanted[2] == marker_end(other)[0]);
        if at == n - 1 {
            let tail = seq!['_'] + marker_end(other);
            assert forall|i: int| 0 <= i < tail.len() implies rest[i] == tail[i] by {
                assert(s[at + (i + 1)] == wanted[i + 1]);
            }
            assert(rest.subrange(0, tail.len() as int) =~= tail);
        } else if at == n - 2 {
            let tail = marker_end(other);
            assert forall|i: int| 0 <= i < tail.len() implies rest[i] == tail[i] by {
                assert(s[at + (i + 2)] == wanted[i + 2]);
            }
            assert(rest.subrange(0, tail.len() as int) =~= tail);
        } else if at == 0 {
            lemma_markers_differ(index, other, rest);
        } else {
            lemma_underscores(index, at);
        }
    }
}

/// Two underscores stand side by side in a marker only at its ends.
proof fn lemma_underscores(index: nat, at: int)
    requires
        0 < at < environment::marker(index).len() - 2,
    ensures
        environment::marker(index)[at] != '_' || environment::marker(index)[at + 1] != '_',
{
    reveal_strlit("__WT_ASSIGNED_PORT_");
    reveal_strlit("__");
    text::lemma_decimal(index);
    let digits = text::decimal(index);
    let mark = environment::marker(index);
    if 19 <= at < 19 + digits.len() {
        assert(mark[at] == digits[at - 19]);
        assert(text::is_ascii_digit(digits[at - 19]));
    } else if at == 18 {
        assert(mark[19] == digits[0]);
        assert(text::is_ascii_digit(digits[0]));
    } else {
        assert(mark[at] == "__WT_ASSIGNED_PORT_"@[at]);
        assert(mark[at + 1] == "__WT_ASSIGNED_PORT_"@[at + 1]);
    }
}

/// A text that starts with one marker does not start with another.
proof fn lemma_markers_differ(index: nat, other: nat, rest: Seq<char>)
    requires
        index != other,
    ensures
        !environment::marker(other).is_prefix_of(environment::marker(index) + rest),
{
    reveal_strlit("__WT_ASSIGNED_PORT_");
    reveal_strlit("__");
    text::lemma_decimal(index);
    text::lemma_decimal(other);
    let a = text::decimal(index);
    let b = text::decimal(other);
    let mark = environment::marker(index);
    let wanted = environment::marker(other);
    let s = mark + rest;
    if wanted.is_prefix_of(s) {
        assert forall|i: int| 0 <= i < wanted.len() implies #[trigger] s[i] == wanted[i] by {
            assert(s.subrange(0, wanted.len() as int)[i] == s[i]);
        }
        if a.len() == b.len() {
            assert forall|i: int| 0 <= i < a.len() implies a[i] == b[i] by {
                assert(s[19 + i] == wanted[19 + i]);
            }
            assert(a =~= b);
            text::decimal_is_injective(index, other);
        } else if a.len() < b.len() {
            let n = 19 + a.len();
            assert(s[n as int] == wanted[n as int]);
            assert(mark[n as int] == '_');
            assert(wanted[n as int] == b[a.len() as int]);
            assert(text::is_ascii_digit(b[a.len() as int]));
        } else {
            let n = 19 + b.len();
            assert(s[n as int] == wanted[n as int]);
            assert(mark[n as int] == a[b.len() as int]);
            assert(text::is_ascii_digit(a[b.len() as int]));
            assert(wanted[n as int] == '_');
        }
    }
}

proof fn lemma_no_part_behind(s: Seq<char>, part: Seq<char>, n: int)
    requires
        !text::has_part(s, part),
        0 <= n <= s.len(),
    ensures
        !text::has_part(s.skip(n), part),
{
    let rest = s.skip(n);
    if text::has_part(rest, part) {
        let at = choose|at: int| text::occurs_at(rest, part, at);
        assert(s.subrange(at + n, at + n + part.len()) =~= rest.subrange(at, at + part.len()));
        assert(text::occurs_at(s, part, at + n));
    }
}

proof fn lemma_host_is_plain(r: Seq<char>)
    requires
        is_reference(r),
    ensures
        !r.take(10).contains('_'),
{
    lemma_reference(r);
    let host = r.take(10);
    if host.contains('_') {
        let i = choose|i: int| 0 <= i < host.len() && host[i] == '_';
        assert(r.take(10)[i] == r[i]);
    }
}

proof fn lemma_number_is_plain(n: nat)
    ensures
        !text::decimal(n).contains('_'),
{
    text::lemma_decimal(n);
    let number = text::decimal(n);
    if number.contains('_') {
        let i = choose|i: int| 0 <= i < number.len() && number[i] == '_';
        assert(text::is_ascii_digit(number[i]));
    }
}

/// What stands in the place of one port, when one more marker is replaced.
proof fn lemma_filled_over(filled: Seq<char>, index: nat, n: nat, rest: Seq<char>, port: Seq<char>)
    requires
        index < n ==> !filled.contains('_'),
        index >= n ==> filled == environment::marker(index),
        index > n ==> !completes_marker(rest, n),
    ensures
        text::replaced(filled + rest, environment::marker(n), port) == (if index == n {
            port
        } else {
            filled
        }) + text::replaced(rest, environment::marker(n), port),
{
    let mark = environment::marker(n);
    if index < n {
        lemma_plain_stays(filled, rest, n, port);
    } else if index == n {
        lemma_marker_end(n);
        let t = mark + rest;
        assert(t.subrange(0, mark.len() as int) =~= mark);
        assert(t.skip(mark.len() as int) =~= rest);
    } else {
        lemma_marker_end(n);
        assert forall|i: int| 0 <= i < filled.len() implies !mark.is_prefix_of(#[trigger] (filled + rest).skip(i)) by {
            lemma_markers_apart(index, n, rest, i);
        }
        lemma_stays(filled, rest, mark, port);
    }
}

/// Putting one more port in the place of its marker, at a reference.
proof fn lemma_fills_reference(s: Seq<char>, assignments: Seq<AssignmentData>, n: int, k: int)
    requires
        0 <= n < assignments.len(),
        apart(s, references_of(assignments)),
        s.len() > 0,
        first_reference(s, references_of(assignments)) == Some(k),
        text::replaced(
            at_once(
                s.skip(references_of(assignments)[k].len() as int),
                references_of(assignments),
                half_filled(assignments, n),
            ),
            environment::marker(n as nat),
            text::decimal(assignments[n].assigned as nat),
        ) == at_once(
            s.skip(references_of(assignments)[k].len() as int),
            references_of(assignments),
            half_filled(assignments, n + 1),
        ),
    ensures
        text::replaced(
            at_once(s, references_of(assignments), half_filled(assignments, n)),
            environment::marker(n as nat),
            text::decimal(assignments[n].assigned as nat),
        ) == at_once(s, references_of(assignments), half_filled(assignments, n + 1)),
{
    let all = references_of(assignments);
    let before = half_filled(assignments, n);
    let after = half_filled(assignments, n + 1);
    let mark = environment::marker(n as nat);
    let port = text::decimal(assignments[n].assigned as nat);
    lemma_references_of(assignments);
    lemma_at_reference(s, all, before, k);
    lemma_at_reference(s, all, after, k);
    let rest = s.skip(all[k].len() as int);
    let more = at_once(rest, all, before);
    let done = text::replaced(more, mark, port);
    let host = all[k].take(10);
    let index = (k / 2) as nat;
    lemma_host_is_plain(all[k]);
    assert(host + before(k) + more =~= host + (before(k) + more));
    lemma_plain_stays(host, before(k) + more, n as nat, port);
    if index < n {
        lemma_number_is_plain(assignments[k / 2].assigned as nat);
    } else if index > n {
        assert(!completes_marker(rest, n as nat));
        lemma_marker_end(n as nat);
        lemma_marker_ends_kept(rest, all, before, marker_end(n as nat));
        lemma_marker_ends_kept(rest, all, before, seq!['_'] + marker_end(n as nat));
    }
    lemma_filled_over(before(k), index, n as nat, more, port);
    assert(host + (after(k) + done) =~= host + after(k) + done);
}

/// Putting one more port in the place of its marker.
proof fn lemma_fills_next(s: Seq<char>, assignments: Seq<AssignmentData>, n: int)
    requires
        0 <= n < assignments.len(),
        apart(s, references_of(assignments)),
        !text::has_part(s, environment::marker(n as nat)),
    ensures
        text::replaced(
            at_once(s, references_of(assignments), half_filled(assignments, n)),
            environment::marker(n as nat),
            text::decimal(assignments[n].assigned as nat),
        ) == at_once(s, references_of(assignments), half_filled(assignments, n + 1)),
    decreases s.len(),
{
    let all = references_of(assignments);
    let before = half_filled(assignments, n);
    let mark = environment::marker(n as nat);
    if s.len() > 0 {
        lemma_references_of(assignments);
        match first_reference(s, all) {
            None => {
                let p = at_once(s, all, before);
                let rest = s.drop_first();
                assert(s.skip(1) =~= rest);
                lemma_no_part_behind(s, mark, 1);
                lemma_fills_next(rest, assignments, n);
                lemma_marker_end(n as nat);
                lemma_marker_ends_kept(s, all, before, mark);
                if mark.is_prefix_of(s) {
                    assert(text::occurs_at(s, mark, 0));
                }
                assert(p.drop_first() =~= at_once(rest, all, before));
            },
            Some(k) => {
                lemma_at_reference(s, all, before, k);
                let size = all[k].len() as int;
                lemma_no_part_behind(s, mark, size);
                lemma_fills_next(s.skip(size), assignments, n);
                lemma_fills_reference(s, assignments, n, k);
            },
        }
    }
}

/// A marker that stands in a text stands there still when references are changed.
proof fn lemma_part_kept(
    s: Seq<char>,
    references: Seq<Seq<char>>,
    to: spec_fn(int) -> Seq<char>,
    index: nat,
    at: int,
)
    requires
        are_references(references),
        text::occurs_at(s, environment::marker(index), at),
    ensures
        text::has_part(at_once(s, references, to), environment::marker(index)),
    decreases s.len(),
{
    let mark = environment::marker(index);
    let p = at_once(s, references, to);
    lemma_marker_end(index);
    if at == 0 {
        lemma_marker_ends_kept(s, references, to, mark);
        assert(text::occurs_at(p, mark, 0));
    } else {
        match first_reference(s, references) {
            None => {
                let rest = s.drop_first();
                assert(rest.subrange(at - 1, at - 1 + mark.len()) =~= s.subrange(at, at + mark.len()));
                lemma_part_kept(rest, references, to, index, at - 1);
                lemma_part_behind(seq![s[0]], at_once(rest, references, to), mark);
            },
            Some(k) => {
                lemma_at_reference(s, references, to, k);
                let r = references[k];
                let size = r.len() as int;
                let rest = s.skip(size);
                lemma_reference(r);
                if at < size {
                    assert(s.subrange(at, at + mark.len())[0] == s[at]);
                    assert(r[at] == '_');
                    assert(r.contains('_'));
                }
                assert(rest.subrange(at - size, at - size + mark.len()) =~= s.subrange(at, at + mark.len()));
                lemma_part_kept(rest, references, to, index, at - size);
                lemma_part_behind(r.take(10) + to(k), at_once(rest, references, to), mark);
            },
        }
    }
}

proof fn lemma_part_behind(front: Seq<char>, rest: Seq<char>, part: Seq<char>)
    requires
        text::has_part(rest, part),
    ensures
        text::has_part(front + rest, part),
{
    let at = choose|at: int| text::occurs_at(rest, part, at);
    let n = front.len() as int;
    assert((front + rest).subrange(n + at, n + at + part.len()) =~= rest.subrange(at, at + part.len()));
    assert(text::occurs_at(front + rest, part, n + at));
}

/// A text whose references could be marked holds none of the markers.
proof fn lemma_no_markers(contents: Seq<char>, assignments: Seq<AssignmentData>, n: int)
    requires
        0 <= n < assignments.len(),
        apart(contents, references_of(assignments)),
        environment::marked(contents, assignments) is Ok,
    ensures
        !text::has_part(contents, environment::marker(n as nat)),
{
    let all = references_of(assignments);
    let mark = environment::marker(n as nat);
    lemma_marked_before(contents, assignments, n);
    lemma_marked_before(contents, assignments, n + 1);
    lemma_marked_at_once(contents, assignments, n);
    model::step(assignments, n);
    assert(assignments.take(n + 1).drop_last() =~= assignments.take(n));
    lemma_references_of(assignments);
    let first = all.take(2 * n);
    lemma_fewer_references(all, 2 * n);
    if text::has_part(contents, mark) {
        let at = choose|at: int| text::occurs_at(contents, mark, at);
        lemma_part_kept(contents, first, markers(), n as nat, at);
    }
}

proof fn lemma_marked_before(contents: Seq<char>, assignments: Seq<AssignmentData>, n: int)
    requires
        0 <= n <= assignments.len(),
        environment::marked(contents, assignments) is Ok,
    ensures
        environment::marked(contents, assignments.take(n)) is Ok,
    decreases assignments.len() - n,
{
    if n == assignments.len() {
        model::whole(assignments);
    } else {
        lemma_marked_before(contents, assignments, n + 1);
        model::step(assignments, n);
        assert(assignments.take(n + 1).drop_last() =~= assignments.take(n));
    }
}

proof fn lemma_unmarked_at_once(contents: Seq<char>, assignments: Seq<AssignmentData>, n: int)
    requires
        0 <= n <= assignments.len(),
        apart(contents, references_of(assignments)),
        environment::marked(contents, assignments) is Ok,
    ensures
        environment::unmarked(
            at_once(contents, references_of(assignments), half_filled(assignments, 0)),
            assignments.take(n),
        ) == at_once(contents, references_of(assignments), half_filled(assignments, n)),
    decreases n,
{
    if n > 0 {
        let k = n - 1;
        model::step(assignments, k);
        assert(assignments.take(n).drop_last() =~= assignments.take(k));
        assert(assignments.take(n).last() == assignments[k]);
        lemma_unmarked_at_once(contents, assignments, k);
        lemma_no_markers(contents, assignments, k);
        lemma_fills_next(contents, assignments, k);
    }
}

proof fn lemma_same_at_once(
    s: Seq<char>,
    references: Seq<Seq<char>>,
    f: spec_fn(int) -> Seq<char>,
    g: spec_fn(int) -> Seq<char>,
)
    requires
        forall|k: int| 0 <= k < references.len() ==> #[trigger] f(k) == g(k),
    ensures
        at_once(s, references, f) == at_once(s, references, g),
    decreases s.len(),
{
    if s.len() > 0 {
        lemma_first_reference(s, references);
        match first_reference(s, references) {
            Some(k) => {
                if 0 < references[k].len() <= s.len() {
                    lemma_same_at_once(s.skip(references[k].len() as int), references, f, g);
                    assert(f(k) == g(k));
                }
            },
            None => {
                lemma_same_at_once(s.drop_first(), references, f, g);
            },
        }
    }
}

/// Every local reference of a text is rewritten at once, from left to right, to the port that was
/// leased first for the port that it names, where the text is not refused for a marker in it and
/// leases do not get in each other's way.
pub proof fn references_are_rewritten_at_once(contents: Seq<char>, assignments: Seq<AssignmentData>)
    requires
        environment::references_rewritten(contents, assignments) is Ok,
        apart(contents, references_of(assignments)),
    ensures
        environment::references_rewritten(contents, assignments) == Ok::<Seq<char>, Seq<char>>(
            at_once(contents, references_of(assignments), leased_ports(assignments)),
        ),
{
    let all = references_of(assignments);
    let n = assignments.len() as int;
    lemma_references_of(assignments);
    model::whole(assignments);
    lemma_marked_at_once(contents, assignments, n);
    assert(all.take(2 * n) =~= all);
    lemma_same_at_once(contents, all, markers(), half_filled(assignments, 0));
    lemma_unmarked_at_once(contents, assignments, n);
    lemma_same_at_once(contents, all, half_filled(assignments, n), leased_ports(assignments));
}

} // verus!
