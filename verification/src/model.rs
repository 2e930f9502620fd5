//! Mathematical views of lists and outcomes, and the sequence facts that loops rely on.

use vstd::prelude::*;

verus! {

/// The texts that a list of strings holds.
pub open spec fn views(list: Seq<String>) -> Seq<Seq<char>> {
    list.map_values(|s: String| s@)
}

/// Pushing a string pushes its text.
pub broadcast proof fn lemma_views_push(list: Seq<String>, s: String)
    ensures
        #[trigger] views(list.push(s)) == views(list).push(s@),
{
    assert(views(list.push(s)) =~= views(list).push(s@));
}

/// The text that an optional string holds.
pub open spec fn opt(s: Option<String>) -> Option<Seq<char>> {
    match s {
        Some(s) => Some(s@),
        None => None,
    }
}

/// The text that an optional borrowed string holds.
pub open spec fn opt_str(s: Option<&str>) -> Option<Seq<char>> {
    match s {
        Some(s) => Some(s@),
        None => None,
    }
}

/// The texts that an optional pair of strings holds.
pub open spec fn opt_pair(p: Option<(String, String)>) -> Option<(Seq<char>, Seq<char>)> {
    match p {
        Some((a, b)) => Some((a@, b@)),
        None => None,
    }
}

/// The texts that a list of pairs of strings holds.
pub open spec fn pairs(list: Seq<(String, String)>) -> Seq<(Seq<char>, Seq<char>)> {
    list.map_values(|p: (String, String)| (p.0@, p.1@))
}

/// What a call came to, with the text of its complaint.
pub open spec fn outcome_plain<T>(r: Result<T, String>) -> Result<T, Seq<char>> {
    match r {
        Ok(value) => Ok(value),
        Err(message) => Err(message@),
    }
}

/// Pushing a pair of strings pushes its texts.
pub broadcast proof fn lemma_pairs_push(list: Seq<(String, String)>, p: (String, String))
    ensures
        #[trigger] pairs(list.push(p)) == pairs(list).push((p.0@, p.1@)),
{
    assert(pairs(list.push(p)) =~= pairs(list).push((p.0@, p.1@)));
}

/// What a fallible function came to: the view of its value, or the text of its error.
pub open spec fn outcome<T: View>(r: Result<T, String>) -> Result<T::V, Seq<char>> {
    match r {
        Ok(value) => Ok(value@),
        Err(message) => Err(message@),
    }
}

/// What a function that returns a list of texts or fails came to.
pub open spec fn outcome_list(r: Result<Vec<String>, String>) -> Result<Seq<Seq<char>>, Seq<char>> {
    match r {
        Ok(list) => Ok(views(list@)),
        Err(message) => Err(message@),
    }
}

/// What a function that returns an optional text or fails came to.
pub open spec fn outcome_opt(r: Result<Option<String>, String>) -> Result<Option<Seq<char>>, Seq<char>> {
    match r {
        Ok(value) => Ok(opt(value)),
        Err(message) => Err(message@),
    }
}

// ---------------------------------------------------------------------------
// Prefixes of a sequence, as a loop walks it
// ---------------------------------------------------------------------------

/// One more element taken from the front is that element pushed.
pub proof fn step<A>(s: Seq<A>, i: int)
    requires
        0 <= i < s.len(),
    ensures
        s.take(i + 1) == s.take(i).push(s[i]),
        s.take(i + 1).drop_last() == s.take(i),
        s.take(i + 1).last() == s[i],
{
    assert(s.take(i + 1) =~= s.take(i).push(s[i]));
    assert(s.take(i + 1).drop_last() =~= s.take(i));
}

/// Everything taken from the front is the whole sequence.
pub proof fn whole<A>(s: Seq<A>)
    ensures
        s.take(s.len() as int) == s,
{
    assert(s.take(s.len() as int) =~= s);
}

/// Filtering one more element keeps it exactly where it satisfies the predicate.
pub proof fn step_filter<A>(s: Seq<A>, i: int, keep: spec_fn(A) -> bool)
    requires
        0 <= i < s.len(),
    ensures
        s.take(i + 1).filter(keep) == if keep(s[i]) {
            s.take(i).filter(keep).push(s[i])
        } else {
            s.take(i).filter(keep)
        },
{
    step(s, i);
    reveal(Seq::filter);
}

/// Nothing is left of nothing.
pub proof fn start_filter<A>(s: Seq<A>, keep: spec_fn(A) -> bool)
    ensures
        s.take(0).filter(keep) == Seq::<A>::empty(),
{
    reveal(Seq::filter);
    assert(s.take(0) =~= Seq::<A>::empty());
}

/// Mapping one more element to an optional value pushes the value where there is one.
pub proof fn step_filter_map<A, B>(s: Seq<A>, i: int, f: spec_fn(A) -> Option<B>)
    requires
        0 <= i < s.len(),
    ensures
        s.take(i + 1).filter_map(f) == match f(s[i]) {
            Some(value) => s.take(i).filter_map(f).push(value),
            None => s.take(i).filter_map(f),
        },
{
    step(s, i);
    reveal_with_fuel(Seq::filter_map, 2);
    match f(s[i]) {
        Some(value) => {
            assert(s.take(i).filter_map(f) + seq![value] =~= s.take(i).filter_map(f).push(value));
        },
        None => {},
    }
}

/// Nothing maps to nothing.
pub proof fn start_filter_map<A, B>(s: Seq<A>, f: spec_fn(A) -> Option<B>)
    ensures
        s.take(0).filter_map(f) == Seq::<B>::empty(),
{
    assert(s.take(0) =~= Seq::<A>::empty());
}

/// A filter keeps what satisfies its condition, and nothing else.
pub proof fn filter_keeps<A>(s: Seq<A>, keep: spec_fn(A) -> bool)
    ensures
        forall|x: A| #[trigger] s.filter(keep).contains(x) <==> s.contains(x) && keep(x),
        forall|k: int| 0 <= k < s.len() && keep(#[trigger] s[k]) ==> s.filter(keep).contains(s[k]),
        s.filter(keep).len() <= s.len(),
    decreases s.len(),
{
    let n = s.len() as int;
    if n == 0 {
        start_filter(s, keep);
        assert(s.take(0) =~= s);
    } else {
        let init = s.take(n - 1);
        filter_keeps(init, keep);
        step_filter(s, n - 1, keep);
        whole(s);
        let kept = init.filter(keep);
        assert forall|x: A| #[trigger] s.filter(keep).contains(x) <==> s.contains(x) && keep(x) by {
            if s.contains(x) {
                let k = choose|k: int| 0 <= k < s.len() && s[k] == x;
                if k < n - 1 {
                    assert(init[k] == x);
                }
            }
            if keep(s[n - 1]) {
                let all = kept.push(s[n - 1]);
                if kept.contains(x) {
                    let k = choose|k: int| 0 <= k < kept.len() && kept[k] == x;
                    assert(all[k] == x);
                }
                assert(all[kept.len() as int] == s[n - 1]);
                if all.contains(x) && x != s[n - 1] {
                    let k = choose|k: int| 0 <= k < all.len() && all[k] == x;
                    assert(kept[k] == x);
                }
            }
            if init.contains(x) {
                let k = choose|k: int| 0 <= k < init.len() && init[k] == x;
                assert(s[k] == x);
            }
        }
        assert forall|k: int| 0 <= k < s.len() && keep(#[trigger] s[k]) implies s.filter(keep).contains(s[k]) by {
            assert(s.contains(s[k]));
        }
    }
}

/// Mapping to optional values keeps every value that there is, and nothing else.
pub proof fn filter_map_keeps<A, B>(s: Seq<A>, f: spec_fn(A) -> Option<B>)
    ensures
        forall|k: int| 0 <= k < s.len() && f(#[trigger] s[k]) is Some ==> s.filter_map(f).contains(f(s[k])->0),
        forall|y: B| #[trigger]
            s.filter_map(f).contains(y) ==> exists|k: int| 0 <= k < s.len() && f(#[trigger] s[k]) == Some(y),
        s.filter_map(f).len() <= s.len(),
    decreases s.len(),
{
    let n = s.len() as int;
    if n == 0 {
        start_filter_map(s, f);
        assert(s.take(0) =~= s);
    } else {
        let init = s.take(n - 1);
        filter_map_keeps(init, f);
        step_filter_map(s, n - 1, f);
        whole(s);
        let kept = init.filter_map(f);
        let all = s.filter_map(f);
        assert forall|k: int| 0 <= k < s.len() && f(#[trigger] s[k]) is Some implies all.contains(f(s[k])->0) by {
            if k < n - 1 {
                assert(init[k] == s[k]);
                assert(kept.contains(f(s[k])->0));
                let j = choose|j: int| 0 <= j < kept.len() && kept[j] == f(s[k])->0;
                assert(all[j] == kept[j]);
            } else {
                assert(all[all.len() - 1] == f(s[k])->0);
            }
        }
        assert forall|y: B| #[trigger] all.contains(y) implies exists|k: int|
            0 <= k < s.len() && f(#[trigger] s[k]) == Some(y) by {
            let j = choose|j: int| 0 <= j < all.len() && all[j] == y;
            if j < kept.len() {
                assert(kept[j] == y);
                assert(kept.contains(y));
                let k = choose|k: int| 0 <= k < init.len() && f(#[trigger] init[k]) == Some(y);
                assert(s[k] == init[k]);
            } else {
                assert(f(s[n - 1]) == Some(y));
            }
        }
    }
}

/// Two lists one after the other map to their values one after the other.
pub proof fn filter_map_adds<A, B>(a: Seq<A>, b: Seq<A>, f: spec_fn(A) -> Option<B>)
    ensures
        (a + b).filter_map(f) == a.filter_map(f) + b.filter_map(f),
    decreases b.len(),
{
    let n = b.len() as int;
    if n == 0 {
        assert(a + b =~= a);
        start_filter_map(b, f);
        assert(b.take(0) =~= b);
        assert(a.filter_map(f) + b.filter_map(f) =~= a.filter_map(f));
    } else {
        let init = b.take(n - 1);
        let all = a + b;
        filter_map_adds(a, init, f);
        assert(all.take(a.len() + n - 1) =~= a + init);
        step_filter_map(all, a.len() + n - 1, f);
        step_filter_map(b, n - 1, f);
        whole(all);
        whole(b);
        assert(all.filter_map(f) =~= a.filter_map(f) + b.filter_map(f));
    }
}

/// A single element stays or goes by itself.
pub proof fn filter_one<A>(x: A, keep: spec_fn(A) -> bool)
    ensures
        seq![x].filter(keep) == if keep(x) {
            seq![x]
        } else {
            Seq::empty()
        },
{
    let s = seq![x];
    start_filter(s, keep);
    step_filter(s, 0, keep);
    whole(s);
    assert(Seq::<A>::empty().push(x) =~= seq![x]);
}

/// A single element maps to its value, if it has one.
pub proof fn filter_map_one<A, B>(x: A, f: spec_fn(A) -> Option<B>)
    ensures
        seq![x].filter_map(f) == match f(x) {
            Some(value) => seq![value],
            None => Seq::empty(),
        },
{
    let s = seq![x];
    start_filter_map(s, f);
    step_filter_map(s, 0, f);
    whole(s);
    if f(x) is Some {
        assert(Seq::<B>::empty().push(f(x)->0) =~= seq![f(x)->0]);
    }
}

/// The first element that maps to a value, as that value.
pub open spec fn first_some<A, B>(s: Seq<A>, f: spec_fn(A) -> Option<B>) -> Option<B>
    decreases s.len(),
{
    if s.len() == 0 {
        None
    } else {
        match f(s[0]) {
            Some(value) => Some(value),
            None => first_some(s.drop_first(), f),
        }
    }
}

/// Elements that map to nothing do not count.
pub proof fn lemma_first_some<A, B>(s: Seq<A>, f: spec_fn(A) -> Option<B>, n: int)
    requires
        0 <= n <= s.len(),
        forall|i: int| 0 <= i < n ==> f(#[trigger] s[i]) is None,
    ensures
        first_some(s, f) == first_some(s.skip(n), f),
    decreases n,
{
    if n == 0 {
        assert(s.skip(0) =~= s);
    } else {
        assert(f(s[0]) is None);
        let rest = s.drop_first();
        assert forall|i: int| 0 <= i < n - 1 implies f(#[trigger] rest[i]) is None by {
            assert(rest[i] == s[i + 1]);
        }
        lemma_first_some(rest, f, n - 1);
        assert(rest.skip(n - 1) =~= s.skip(n));
    }
}

/// The first value found at position `n`, after elements that map to nothing.
pub proof fn found_some<A, B>(s: Seq<A>, f: spec_fn(A) -> Option<B>, n: int)
    requires
        0 <= n < s.len(),
        forall|i: int| 0 <= i < n ==> f(#[trigger] s[i]) is None,
        f(s[n]) is Some,
    ensures
        first_some(s, f) == f(s[n]),
{
    lemma_first_some(s, f, n);
    assert(s.skip(n)[0] == s[n]);
}

/// No value, where every element maps to nothing.
pub proof fn found_none<A, B>(s: Seq<A>, f: spec_fn(A) -> Option<B>)
    requires
        forall|i: int| 0 <= i < s.len() ==> f(#[trigger] s[i]) is None,
    ensures
        first_some(s, f) is None,
{
    lemma_first_some(s, f, s.len() as int);
    assert(s.skip(s.len() as int) =~= Seq::<A>::empty());
}

/// A search that finds nothing has passed over every element.
pub proof fn none_found<A, B>(s: Seq<A>, f: spec_fn(A) -> Option<B>, n: int)
    requires
        first_some(s, f) is None,
        0 <= n < s.len(),
    ensures
        f(s[n]) is None,
    decreases s.len(),
{
    if n > 0 {
        none_found(s.drop_first(), f, n - 1);
    }
}

/// A search goes on to an element at the end only where nothing was found before it.
pub proof fn first_some_push<A, B>(s: Seq<A>, x: A, f: spec_fn(A) -> Option<B>)
    ensures
        first_some(s.push(x), f) == match first_some(s, f) {
            Some(b) => Some(b),
            None => f(x),
        },
    decreases s.len(),
{
    reveal_with_fuel(first_some, 2);
    if s.len() > 0 {
        assert(s.push(x).drop_first() =~= s.drop_first().push(x));
        first_some_push(s.drop_first(), x, f);
        assert(s.push(x)[0] == s[0]);
    } else {
        assert(s.push(x)[0] == x);
        assert(s.push(x).drop_first() =~= Seq::empty());
    }
}

// ---------------------------------------------------------------------------
// Sorting
// ---------------------------------------------------------------------------

/// `x` put into a sorted sequence, behind every element that it does not precede.
pub open spec fn inserted<A>(s: Seq<A>, x: A, before: spec_fn(A, A) -> bool) -> Seq<A>
    decreases s.len(),
{
    if s.len() > 0 && before(x, s.last()) {
        inserted(s.drop_last(), x, before).push(s.last())
    } else {
        s.push(x)
    }
}

/// The elements in order; those of equal rank keep the order they had.
pub open spec fn sorted<A>(s: Seq<A>, before: spec_fn(A, A) -> bool) -> Seq<A>
    decreases s.len(),
{
    if s.len() == 0 {
        s
    } else {
        inserted(sorted(s.drop_last(), before), s.last(), before)
    }
}

/// Equality as a relation.
pub open spec fn equal<A>() -> spec_fn(A, A) -> bool {
    |a: A, b: A| a == b
}

/// The elements without those that equal the one kept before them.
pub open spec fn deduped<A>(s: Seq<A>, same: spec_fn(A, A) -> bool) -> Seq<A>
    decreases s.len(),
{
    if s.len() == 0 {
        s
    } else {
        let kept = deduped(s.drop_last(), same);
        if kept.len() > 0 && same(kept.last(), s.last()) {
            kept
        } else {
            kept.push(s.last())
        }
    }
}

/// No element stands behind one that it precedes.
pub open spec fn ascending<A>(s: Seq<A>, before: spec_fn(A, A) -> bool) -> bool {
    forall|i: int, j: int| 0 <= i < j < s.len() ==> !before(#[trigger] s[j], #[trigger] s[i])
}

/// Every element precedes those behind it.
pub open spec fn strictly_ascending<A>(s: Seq<A>, before: spec_fn(A, A) -> bool) -> bool {
    forall|i: int, j: int| 0 <= i < j < s.len() ==> before(#[trigger] s[i], #[trigger] s[j])
}

/// A strict order in which two elements are equal, or one precedes the other.
pub open spec fn total_order<A>(before: spec_fn(A, A) -> bool) -> bool {
    &&& forall|a: A| !#[trigger] before(a, a)
    &&& forall|a: A, b: A, c: A| #[trigger] before(a, b) && #[trigger] before(b, c) ==> before(a, c)
    &&& forall|a: A, b: A| a != b ==> #[trigger] before(a, b) || before(b, a)
}

/// A strict order whose elements of equal rank need not be equal.
pub open spec fn weak_order<A>(before: spec_fn(A, A) -> bool) -> bool {
    &&& forall|a: A, b: A| #[trigger] before(a, b) ==> !before(b, a)
    &&& forall|a: A, b: A, c: A| !#[trigger] before(a, b) && !#[trigger] before(b, c) ==> !before(a, c)
}

pub proof fn lemma_total_is_weak<A>(before: spec_fn(A, A) -> bool)
    requires
        total_order(before),
    ensures
        weak_order(before),
{
    assert forall|a: A, b: A| #[trigger] before(a, b) implies !before(b, a) by {
        if before(b, a) {
            assert(before(a, a));
        }
    }
    assert forall|a: A, b: A, c: A| !#[trigger] before(a, b) && !#[trigger] before(b, c) implies !before(a, c) by {
        if before(a, c) {
            if a != b {
                assert(before(b, a));
                assert(before(b, c));
            }
        }
    }
}

/// Insertion in the middle, given where it takes place.
pub proof fn lemma_inserted<A>(s: Seq<A>, x: A, before: spec_fn(A, A) -> bool, at: int)
    requires
        0 <= at <= s.len(),
        forall|i: int| at <= i < s.len() ==> #[trigger] before(x, s[i]),
        at > 0 ==> !before(x, s[at - 1]),
    ensures
        inserted(s, x, before) == s.insert(at, x),
    decreases s.len(),
{
    if s.len() > at {
        assert(before(x, s[s.len() - 1]));
        let init = s.drop_last();
        assert forall|i: int| at <= i < init.len() implies #[trigger] before(x, init[i]) by {
            assert(before(x, s[i]));
        }
        lemma_inserted(init, x, before, at);
        assert(init.insert(at, x).push(s.last()) =~= s.insert(at, x));
    } else {
        assert(s.insert(at, x) =~= s.push(x));
    }
}

/// Insertion adds one element and keeps the order.
proof fn lemma_inserted_ordered<A>(s: Seq<A>, x: A, before: spec_fn(A, A) -> bool)
    requires
        weak_order(before),
        ascending(s, before),
    ensures
        inserted(s, x, before).to_multiset() == s.to_multiset().insert(x),
        ascending(inserted(s, x, before), before),
        forall|y: A| #[trigger] inserted(s, x, before).contains(y) <==> s.contains(y) || y == x,
    decreases s.len(),
{
    broadcast use vstd::seq_lib::group_to_multiset_ensures;

    let r = inserted(s, x, before);
    if s.len() > 0 && before(x, s.last()) {
        let init = s.drop_last();
        assert(s =~= init.push(s.last()));
        lemma_inserted_ordered(init, x, before);
        let front = inserted(init, x, before);
        assert(r.to_multiset() =~= s.to_multiset().insert(x));
        assert forall|y: A| r.contains(y) <==> s.contains(y) || y == x by {
            if r.contains(y) {
                let k = choose|k: int| 0 <= k < r.len() && r[k] == y;
                if k < front.len() {
                    assert(front.contains(front[k]));
                    if init.contains(y) {
                        let m = choose|m: int| 0 <= m < init.len() && init[m] == y;
                        assert(s[m] == y);
                    }
                } else {
                    assert(s[s.len() - 1] == y);
                }
            }
            if s.contains(y) || y == x {
                if y == s.last() {
                    assert(r[r.len() - 1] == y);
                } else {
                    if s.contains(y) {
                        let m = choose|m: int| 0 <= m < s.len() && s[m] == y;
                        assert(init[m] == y);
                        assert(init.contains(y));
                    }
                    assert(front.contains(y));
                    let k = choose|k: int| 0 <= k < front.len() && front[k] == y;
                    assert(r[k] == y);
                }
            }
        }
        assert forall|i: int, j: int| 0 <= i < j < r.len() implies !before(#[trigger] r[j], #[trigger] r[i]) by {
            if j < front.len() {
                assert(front[i] == r[i] && front[j] == r[j]);
            } else {
                assert(front.contains(front[i]));
                if front[i] == x {
                    assert(!before(s.last(), x));
                } else {
                    assert(init.contains(front[i]));
                    let m = choose|m: int| 0 <= m < init.len() && init[m] == front[i];
                    assert(s[m] == front[i]);
                    assert(!before(s[s.len() - 1], s[m]));
                }
            }
        }
    } else {
        assert(r.to_multiset() =~= s.to_multiset().insert(x));
        assert forall|i: int, j: int| 0 <= i < j < r.len() implies !before(#[trigger] r[j], #[trigger] r[i]) by {
            if j < s.len() {
                assert(!before(s[j], s[i]));
            } else {
                // x stands last; nothing before it may be preceded by it.
                let last = s.last();
                assert(!before(x, last));
                if i < s.len() - 1 {
                    assert(!before(s[s.len() - 1], s[i]));
                }
            }
        }
        assert forall|y: A| r.contains(y) <==> s.contains(y) || y == x by {
            if s.contains(y) {
                let m = choose|m: int| 0 <= m < s.len() && s[m] == y;
                assert(r[m] == y);
            }
            if y == x {
                assert(r[r.len() - 1] == y);
            }
        }
    }
}

/// Sorting keeps the elements and puts them in order.
pub proof fn sorting_orders<A>(s: Seq<A>, before: spec_fn(A, A) -> bool)
    requires
        weak_order(before),
    ensures
        sorted(s, before).to_multiset() == s.to_multiset(),
        ascending(sorted(s, before), before),
        forall|y: A| #[trigger] sorted(s, before).contains(y) <==> s.contains(y),
    decreases s.len(),
{
    broadcast use vstd::seq_lib::group_to_multiset_ensures;

    if s.len() > 0 {
        let init = s.drop_last();
        sorting_orders(init, before);
        lemma_inserted_ordered(sorted(init, before), s.last(), before);
        assert(s =~= init.push(s.last()));
        assert forall|y: A| s.contains(y) <==> init.contains(y) || y == s.last() by {
            if s.contains(y) {
                let m = choose|m: int| 0 <= m < s.len() && s[m] == y;
                if m < init.len() {
                    assert(init[m] == y);
                }
            }
            if init.contains(y) {
                let m = choose|m: int| 0 <= m < init.len() && init[m] == y;
                assert(s[m] == y);
            }
            if y == s.last() {
                assert(s[s.len() - 1] == y);
            }
        }
    }
}

/// Dropping repeated neighbours of an ordered sequence leaves every element once.
pub proof fn deduping_keeps_one_of_each<A>(s: Seq<A>, before: spec_fn(A, A) -> bool)
    requires
        total_order(before),
        ascending(s, before),
    ensures
        strictly_ascending(deduped(s, equal()), before),
        forall|y: A| #[trigger] deduped(s, equal()).contains(y) <==> s.contains(y),
        s.len() > 0 ==> deduped(s, equal()).len() > 0 && deduped(s, equal()).last() == s.last(),
    decreases s.len(),
{
    let same = equal();
    let r = deduped(s, same);
    if s.len() > 0 {
        let init = s.drop_last();
        deduping_keeps_one_of_each(init, before);
        let kept = deduped(init, same);
        assert forall|y: A| r.contains(y) <==> s.contains(y) by {
            if s.contains(y) {
                let m = choose|m: int| 0 <= m < s.len() && s[m] == y;
                if m < init.len() {
                    assert(init[m] == y);
                    assert(init.contains(y));
                    assert(kept.contains(y));
                    let k = choose|k: int| 0 <= k < kept.len() && kept[k] == y;
                    assert(r[k] == y);
                } else {
                    assert(r[r.len() - 1] == y);
                }
            }
            if r.contains(y) {
                let k = choose|k: int| 0 <= k < r.len() && r[k] == y;
                if k < kept.len() {
                    assert(kept[k] == y);
                    assert(kept.contains(y));
                    assert(init.contains(y));
                    let m = choose|m: int| 0 <= m < init.len() && init[m] == y;
                    assert(s[m] == y);
                } else {
                    assert(s[s.len() - 1] == y);
                }
            }
        }
        assert forall|i: int, j: int| 0 <= i < j < r.len() implies before(#[trigger] r[i], #[trigger] r[j]) by {
            if j < kept.len() {
                assert(before(kept[i], kept[j]));
            } else {
                // The element pushed last differs from the one kept before it.
                let last = kept.last();
                assert(last == init.last());
                assert(!before(s[s.len() - 1], s[s.len() - 2]));
                assert(last != s.last());
                assert(before(last, s.last()));
                if i < kept.len() - 1 {
                    assert(before(kept[i], kept[kept.len() - 1]));
                }
            }
        }
    }
}

/// Dropping elements that count as the one kept before them loses none that counts as no other,
/// and keeps the order.
pub proof fn deduping_keeps_the_order<A>(s: Seq<A>, same: spec_fn(A, A) -> bool, before: spec_fn(A, A) -> bool)
    requires
        forall|a: A| #[trigger] same(a, a),
        ascending(s, before),
    ensures
        ascending(deduped(s, same), before),
        forall|y: A| #[trigger] deduped(s, same).contains(y) ==> s.contains(y),
        forall|y: A| #[trigger]
            s.contains(y) ==> exists|k: int| 0 <= k < deduped(s, same).len() && same(#[trigger] deduped(s, same)[k], y),
    decreases s.len(),
{
    let r = deduped(s, same);
    if s.len() > 0 {
        let init = s.drop_last();
        assert forall|i: int, j: int| 0 <= i < j < init.len() implies !before(#[trigger] init[j], #[trigger] init[i]) by {
            assert(!before(s[j], s[i]));
        }
        deduping_keeps_the_order(init, same, before);
        let kept = deduped(init, same);
        assert forall|y: A| #[trigger] r.contains(y) implies s.contains(y) by {
            let k = choose|k: int| 0 <= k < r.len() && r[k] == y;
            if k < kept.len() {
                assert(kept.contains(kept[k]));
                let m = choose|m: int| 0 <= m < init.len() && init[m] == y;
                assert(s[m] == y);
            } else {
                assert(s[s.len() - 1] == y);
            }
        }
        assert forall|y: A| #[trigger] s.contains(y) implies exists|k: int|
            0 <= k < r.len() && same(#[trigger] r[k], y) by {
            let m = choose|m: int| 0 <= m < s.len() && s[m] == y;
            if m < init.len() {
                assert(init[m] == y);
                assert(init.contains(y));
                let k = choose|k: int| 0 <= k < kept.len() && same(#[trigger] kept[k], y);
                assert(same(r[k], y));
            } else {
                assert(same(r[r.len() - 1], y));
            }
        }
        assert forall|i: int, j: int| 0 <= i < j < r.len() implies !before(#[trigger] r[j], #[trigger] r[i]) by {
            if j < kept.len() {
                assert(!before(kept[j], kept[i]));
            } else {
                assert(kept.contains(kept[i]));
                let m = choose|m: int| 0 <= m < init.len() && init[m] == kept[i];
                assert(!before(s[s.len() - 1], s[m]));
            }
        }
    }
}

} // verus!
