//! Paths as texts: what their components are, and the questions asked of them.

use vstd::prelude::*;

use crate::model;
use crate::text;

verus! {

broadcast use crate::model::lemma_views_push;

/// The separator, which is also the component that an absolute path starts with.
pub open spec fn root() -> Seq<char> {
    seq!['/']
}

/// The component for the current directory.
pub open spec fn current() -> Seq<char> {
    seq!['.']
}

/// The component for the parent directory.
pub open spec fn up() -> Seq<char> {
    seq!['.', '.']
}

/// Whether a piece of a path counts as a component.
pub open spec fn counts() -> spec_fn(Seq<char>) -> bool {
    |c: Seq<char>| c.len() > 0 && c != current()
}

/// The components of a path: the root of an absolute path, a current directory only at the very
/// start of a relative one, and every other piece between separators that is not empty.
pub open spec fn components(p: Seq<char>) -> Seq<Seq<char>> {
    let pieces = text::split(p, '/');
    let start = if root().is_prefix_of(p) {
        seq![root()]
    } else if pieces[0] == current() {
        seq![current()]
    } else {
        Seq::<Seq<char>>::empty()
    };
    start + pieces.filter(counts())
}

/// Whether a component names an entry of a directory.
pub open spec fn is_normal(c: Seq<char>) -> bool {
    c != root() && c != current() && c != up()
}

/// Whether two paths have the same components.
pub open spec fn same_path(a: Seq<char>, b: Seq<char>) -> bool {
    components(a) == components(b)
}

/// Whether `base` is the path itself or one of the directories above it.
pub open spec fn lies_in(p: Seq<char>, base: Seq<char>) -> bool {
    components(base).is_prefix_of(components(p))
}

/// The last component, where it names an entry of a directory.
pub open spec fn name_of(p: Seq<char>) -> Option<Seq<char>> {
    let parts = components(p);
    if parts.len() > 0 && is_normal(parts.last()) {
        Some(parts.last())
    } else {
        None
    }
}

/// The path without separators and current-directory pieces at its end; the root stays.
pub open spec fn trimmed_tail(p: Seq<char>) -> Seq<char>
    decreases p.len(),
{
    if p.len() > 1 && (p.last() == '/' || (p.last() == '.' && p[p.len() - 2] == '/')) {
        trimmed_tail(p.drop_last())
    } else {
        p
    }
}

/// The path without its last component; neither the root nor the empty path has a parent.
pub open spec fn parent_of(p: Seq<char>) -> Option<Seq<char>> {
    let q = trimmed_tail(p);
    if q.len() == 0 || q == root() {
        None
    } else {
        match text::last_at(q, root()) {
            Some(at) => if at == 0 {
                Some(root())
            } else {
                Some(trimmed_tail(q.take(at)))
            },
            None => Some(Seq::empty()),
        }
    }
}

/// `b` below `a`; an absolute `b` stands for itself.
pub open spec fn joined(a: Seq<char>, b: Seq<char>) -> Seq<char> {
    if root().is_prefix_of(b) {
        b
    } else if a.len() > 0 && a.last() != '/' {
        a + root() + b
    } else {
        a + b
    }
}

/// What follows the last dot of the file name, where something precedes that dot.
pub open spec fn extension_of(p: Seq<char>) -> Option<Seq<char>> {
    match name_of(p) {
        Some(name) => match text::last_at(name, current()) {
            Some(at) => if at > 0 {
                Some(name.skip(at + 1))
            } else {
                None
            },
            None => None,
        },
        None => None,
    }
}

pub fn components_of(p: &str) -> (r: Vec<String>)
    ensures
        model::views(r@) == components(p@),
{
    proof {
        reveal_strlit("/");
        reveal_strlit(".");
        assert("/"@ =~= root());
        assert("."@ =~= current());
        text::lemma_split_nonempty(p@, '/');
    }
    let pieces = text::split_text(p, '/');
    let ghost all = text::split(p@, '/');
    let ghost keep = counts();
    let mut out: Vec<String> = Vec::new();
    assert(all[0] == pieces@[0]@);
    if text::starts_with(p, "/") {
        out.push("/".to_owned());
    } else if text::same(&pieces[0], ".") {
        out.push(".".to_owned());
    }
    let ghost start = model::views(out@);
    proof {
        model::start_filter(all, keep);
        assert(start + Seq::<Seq<char>>::empty() =~= start);
    }
    for i in 0..pieces.len()
        invariant
            all == model::views(pieces@),
            keep == counts(),
            "."@ == current(),
            model::views(out@) == start + all.take(i as int).filter(keep),
    {
        proof {
            model::step_filter(all, i as int, keep);
        }
        if !pieces[i].as_str().is_empty() && !text::same(&pieces[i], ".") {
            out.push(pieces[i].clone());
        }
        assert(model::views(out@) =~= start + all.take(i + 1).filter(keep));
    }
    proof {
        model::whole(all);
    }
    out
}

/// Whether a component names an entry of a directory.
pub fn normal(c: &str) -> (r: bool)
    ensures
        r == is_normal(c@),
{
    proof {
        reveal_strlit("/");
        reveal_strlit(".");
        reveal_strlit("..");
        assert("/"@ =~= root());
        assert("."@ =~= current());
        assert(".."@ =~= up());
    }
    !text::same(c, "/") && !text::same(c, ".") && !text::same(c, "..")
}

pub fn same(a: &str, b: &str) -> (r: bool)
    ensures
        r == same_path(a@, b@),
{
    let left = components_of(a);
    let right = components_of(b);
    if left.len() != right.len() {
        assert(model::views(left@).len() != model::views(right@).len());
        return false;
    }
    for i in 0..left.len()
        invariant
            left@.len() == right@.len(),
            model::views(left@) == components(a@),
            model::views(right@) == components(b@),
            forall|k: int| 0 <= k < i ==> model::views(left@)[k] == model::views(right@)[k],
    {
        if !text::same(&left[i], &right[i]) {
            assert(model::views(left@)[i as int] != model::views(right@)[i as int]);
            return false;
        }
    }
    assert(model::views(left@) =~= model::views(right@));
    true
}

pub fn starts_with(p: &str, base: &str) -> (r: bool)
    ensures
        r == lies_in(p@, base@),
{
    let parts = components_of(p);
    let above = components_of(base);
    if above.len() > parts.len() {
        return false;
    }
    for i in 0..above.len()
        invariant
            above@.len() <= parts@.len(),
            model::views(parts@) == components(p@),
            model::views(above@) == components(base@),
            forall|k: int| 0 <= k < i ==> model::views(above@)[k] == model::views(parts@)[k],
    {
        if !text::same(&above[i], &parts[i]) {
            proof {
                let prefix = model::views(parts@).subrange(0, above@.len() as int);
                assert(prefix[i as int] != model::views(above@)[i as int]);
            }
            return false;
        }
    }
    assert(model::views(above@) =~= model::views(parts@).subrange(0, above@.len() as int));
    true
}

/// Whether one of the paths is `p`, component by component.
pub open spec fn listed(list: Seq<Seq<char>>, p: Seq<char>) -> bool {
    exists|i: int| 0 <= i < list.len() && same_path(#[trigger] list[i], p)
}

pub fn list_contains(list: &Vec<String>, p: &str) -> (r: bool)
    ensures
        r == listed(model::views(list@), p@),
{
    for i in 0..list.len()
        invariant
            forall|k: int| 0 <= k < i ==> !same_path(#[trigger] model::views(list@)[k], p@),
    {
        if same(&list[i], p) {
            assert(same_path(model::views(list@)[i as int], p@));
            return true;
        }
        assert(model::views(list@)[i as int] == list@[i as int]@);
    }
    false
}

/// Whether one of the paths is `p` or lies above it.
pub open spec fn covered(list: Seq<Seq<char>>, p: Seq<char>) -> bool {
    exists|i: int| 0 <= i < list.len() && lies_in(p, #[trigger] list[i])
}

pub fn list_covers(list: &Vec<String>, p: &str) -> (r: bool)
    ensures
        r == covered(model::views(list@), p@),
{
    for i in 0..list.len()
        invariant
            forall|k: int| 0 <= k < i ==> !lies_in(p@, #[trigger] model::views(list@)[k]),
    {
        if starts_with(p, &list[i]) {
            assert(lies_in(p@, model::views(list@)[i as int]));
            return true;
        }
        assert(model::views(list@)[i as int] == list@[i as int]@);
    }
    false
}

/// A path that is listed is covered by the list.
pub proof fn listed_is_covered(list: Seq<Seq<char>>, p: Seq<char>)
    requires
        listed(list, p),
    ensures
        covered(list, p),
{
    let i = choose|i: int| 0 <= i < list.len() && same_path(#[trigger] list[i], p);
    assert(components(p).subrange(0, components(p).len() as int) =~= components(p));
    assert(lies_in(p, list[i]));
}

pub fn file_name(p: &str) -> (r: Option<String>)
    ensures
        model::opt(r) == name_of(p@),
{
    let parts = components_of(p);
    let count: usize = parts.len();
    if count == 0 {
        return None;
    }
    assert(model::views(parts@).last() == parts@[count - 1]@);
    if normal(&parts[count - 1]) {
        Some(parts[count - 1].clone())
    } else {
        None
    }
}

proof fn lemma_trimmed_tail(p: Seq<char>, n: int)
    requires
        0 <= n <= p.len(),
        forall|k: int| n < k <= p.len() ==> #[trigger] p.take(k).len() > 1 && (p.take(k).last() == '/' || (p.take(
            k,
        ).last() == '.' && p.take(k)[k - 2] == '/')),
    ensures
        trimmed_tail(p) == trimmed_tail(p.take(n)),
    decreases p.len() - n,
{
    if n < p.len() {
        let init = p.drop_last();
        assert(p.take(p.len() as int) =~= p);
        assert forall|k: int| n < k <= init.len() implies #[trigger] init.take(k).len() > 1 && (init.take(k).last() == '/'
            || (init.take(k).last() == '.' && init.take(k)[k - 2] == '/')) by {
            assert(init.take(k) =~= p.take(k));
        }
        lemma_trimmed_tail(init, n);
        assert(init.take(n) =~= p.take(n));
    } else {
        assert(p.take(n) =~= p);
    }
}

fn trim_tail(p: &str) -> (r: String)
    ensures
        r@ == trimmed_tail(p@),
{
    let source = text::chars(p);
    let mut n: usize = source.len();
    while n > 1 && (source[n - 1] == '/' || (source[n - 1] == '.' && source[n - 2] == '/'))
        invariant
            source@ == p@,
            n <= p@.len(),
            forall|k: int| n < k <= p@.len() ==> #[trigger] p@.take(k).len() > 1 && (p@.take(k).last() == '/' || (p@.take(
                k,
            ).last() == '.' && p@.take(k)[k - 2] == '/')),
        decreases n,
    {
        n -= 1;
    }
    proof {
        lemma_trimmed_tail(p@, n as int);
        assert(p@.take(n as int) =~= p@.subrange(0, n as int));
    }
    text::text_of(&source, 0, n)
}

pub fn parent(p: &str) -> (r: Option<String>)
    ensures
        model::opt(r) == parent_of(p@),
{
    proof {
        reveal_strlit("/");
        reveal_strlit("");
        assert("/"@ =~= root());
        assert(""@ =~= Seq::<char>::empty());
    }
    let trimmed = trim_tail(p);
    if trimmed.as_str().is_empty() || text::same(&trimmed, "/") {
        return None;
    }
    match text::rfind(&trimmed, "/") {
        Some(at) => {
            if at == 0 {
                return Some("/".to_owned());
            }
            let source = text::chars(&trimmed);
            let above = text::text_of(&source, 0, at);
            assert(above@ =~= trimmed@.take(at as int));
            Some(trim_tail(&above))
        },
        None => Some("".to_owned()),
    }
}

pub fn join(a: &str, b: &str) -> (r: String)
    ensures
        r@ == joined(a@, b@),
{
    proof {
        reveal_strlit("/");
        assert("/"@ =~= root());
    }
    if text::starts_with(b, "/") {
        return b.to_owned();
    }
    let source = text::chars(a);
    if source.len() > 0 && source[source.len() - 1] != '/' {
        text::concat3(a, "/", b)
    } else {
        text::concat(a, b)
    }
}

pub fn is_absolute(p: &str) -> (r: bool)
    ensures
        r == root().is_prefix_of(p@),
{
    proof {
        reveal_strlit("/");
        assert("/"@ =~= root());
    }
    text::starts_with(p, "/")
}

pub fn extension(p: &str) -> (r: Option<String>)
    ensures
        model::opt(r) == extension_of(p@),
{
    proof {
        reveal_strlit(".");
        assert("."@ =~= current());
    }
    match file_name(p) {
        Some(name) => match text::rfind(&name, ".") {
            Some(at) => {
                if at == 0 {
                    return None;
                }
                let source = text::chars(&name);
                let end: usize = source.len();
                let out = text::text_of(&source, at + 1, end);
                assert(out@ =~= name@.skip(at + 1));
                Some(out)
            },
            None => None,
        },
        None => None,
    }
}

// ---------------------------------------------------------------------------
// Directories above a path
// ---------------------------------------------------------------------------

proof fn lemma_trimmed_tail_shrinks(p: Seq<char>)
    ensures
        trimmed_tail(p).len() <= p.len(),
    decreases p.len(),
{
    if p.len() > 1 && (p.last() == '/' || (p.last() == '.' && p[p.len() - 2] == '/')) {
        lemma_trimmed_tail_shrinks(p.drop_last());
    }
}

/// A parent is shorter than its path.
pub proof fn lemma_parent_shrinks(p: Seq<char>)
    ensures
        parent_of(p) matches Some(q) ==> q.len() < p.len(),
{
    let q = trimmed_tail(p);
    lemma_trimmed_tail_shrinks(p);
    if q.len() > 0 && q != root() {
        text::lemma_last_at(q, root());
        match text::last_at(q, root()) {
            Some(at) => {
                if at == 0 {
                    if q.len() == 1 {
                        assert(q =~= q.subrange(0, 1));
                    }
                } else {
                    lemma_trimmed_tail_shrinks(q.take(at));
                }
            },
            None => {},
        }
    }
}

/// The directories above a path, from the nearest one up, without the empty path.
pub open spec fn above(p: Seq<char>) -> Seq<Seq<char>>
    decreases p.len(),
{
    proof {
        lemma_parent_shrinks(p);
    }
    match parent_of(p) {
        Some(q) => if q.len() > 0 && q.len() < p.len() {
            seq![q] + above(q)
        } else {
            Seq::empty()
        },
        None => Seq::empty(),
    }
}

pub fn ancestors(p: &str) -> (r: Vec<String>)
    ensures
        model::views(r@) == above(p@),
{
    let mut out: Vec<String> = Vec::new();
    let mut at = p.to_owned();
    assert(model::views(out@) + above(p@) =~= above(p@));
    loop
        invariant
            model::views(out@) + above(at@) == above(p@),
        ensures
            model::views(out@) == above(p@),
        decreases at@.len(),
    {
        proof {
            lemma_parent_shrinks(at@);
        }
        match parent(&at) {
            Some(next) => {
                if next.as_str().is_empty() {
                    assert(model::views(out@) + above(at@) =~= model::views(out@));
                    break;
                }
                let ghost before = model::views(out@);
                out.push(next.clone());
                assert(model::views(out@) + above(next@) =~= before + above(at@));
                at = next;
            },
            None => {
                assert(model::views(out@) + above(at@) =~= model::views(out@));
                break;
            },
        }
    }
    out
}

// ---------------------------------------------------------------------------
// Order
// ---------------------------------------------------------------------------

/// A component with its rank in front: the root, the current directory, the parent directory, names.
pub open spec fn ranked(c: Seq<char>) -> Seq<char> {
    if c == root() {
        seq!['0']
    } else if c == current() {
        seq!['1']
    } else if c == up() {
        seq!['2']
    } else {
        seq!['3'] + c
    }
}

pub open spec fn path_key(p: Seq<char>) -> Seq<Seq<char>> {
    components(p).map_values(|c: Seq<char>| ranked(c))
}

/// Paths are ordered component by component.
pub open spec fn path_order() -> spec_fn(Seq<char>, Seq<char>) -> bool {
    |a: Seq<char>, b: Seq<char>| text::list_less(path_key(a), path_key(b))
}

/// Equality of paths as a relation.
pub open spec fn path_equal() -> spec_fn(Seq<char>, Seq<char>) -> bool {
    |a: Seq<char>, b: Seq<char>| same_path(a, b)
}

fn key_of(p: &str) -> (r: Vec<String>)
    ensures
        model::views(r@) == path_key(p@),
{
    proof {
        reveal_strlit("/");
        reveal_strlit(".");
        reveal_strlit("..");
        reveal_strlit("0");
        reveal_strlit("1");
        reveal_strlit("2");
        reveal_strlit("3");
        assert("/"@ =~= root());
        assert("."@ =~= current());
        assert(".."@ =~= up());
        assert("0"@ =~= seq!['0']);
        assert("1"@ =~= seq!['1']);
        assert("2"@ =~= seq!['2']);
        assert("3"@ =~= seq!['3']);
    }
    let parts = components_of(p);
    let ghost all = components(p@);
    let mut out: Vec<String> = Vec::new();
    for i in 0..parts.len()
        invariant
            all == components(p@),
            all == model::views(parts@),
            "/"@ == root(),
            "."@ == current(),
            ".."@ == up(),
            "0"@ == seq!['0'],
            "1"@ == seq!['1'],
            "2"@ == seq!['2'],
            "3"@ == seq!['3'],
            model::views(out@) == path_key(p@).take(i as int),
    {
        let part = parts[i].as_str();
        let key = if text::same(part, "/") {
            "0".to_owned()
        } else if text::same(part, ".") {
            "1".to_owned()
        } else if text::same(part, "..") {
            "2".to_owned()
        } else {
            text::concat("3", part)
        };
        proof {
            model::step(path_key(p@), i as int);
            assert(all[i as int] == part@);
        }
        out.push(key);
    }
    proof {
        model::whole(path_key(p@));
    }
    out
}

pub fn precedes(a: &str, b: &str) -> (r: bool)
    ensures
        r == path_order()(a@, b@),
{
    text::list_precedes(&key_of(a), &key_of(b))
}

/// The paths in order, each once.
pub open spec fn sorted_set(list: Seq<Seq<char>>) -> Seq<Seq<char>> {
    model::deduped(model::sorted(list, path_order()), path_equal())
}

pub fn sort(list: &Vec<String>) -> (r: Vec<String>)
    ensures
        model::views(r@) == model::sorted(model::views(list@), path_order()),
{
    let mut out: Vec<String> = Vec::new();
    let ghost all = model::views(list@);
    assert(model::views(out@) =~= model::sorted(all.take(0), path_order()));
    for i in 0..list.len()
        invariant
            all == model::views(list@),
            model::views(out@) == model::sorted(all.take(i as int), path_order()),
    {
        let ghost done = model::views(out@);
        let mut at: usize = out.len();
        while at > 0 && precedes(&list[i], &out[at - 1])
            invariant
                i < list@.len(),
                at <= out@.len(),
                done == model::views(out@),
                forall|k: int| at <= k < out@.len() ==> #[trigger] path_order()(list@[i as int]@, done[k]),
            decreases at,
        {
            at -= 1;
        }
        let item = list[i].clone();
        proof {
            model::step(all, i as int);
            model::lemma_inserted(done, item@, path_order(), at as int);
        }
        out.insert(at, item);
        assert(model::views(out@) =~= done.insert(at as int, item@));
    }
    proof {
        model::whole(all);
    }
    out
}

pub fn dedup(list: &Vec<String>) -> (r: Vec<String>)
    ensures
        model::views(r@) == model::deduped(model::views(list@), path_equal()),
{
    let mut out: Vec<String> = Vec::new();
    let ghost all = model::views(list@);
    assert(model::views(out@) =~= model::deduped(all.take(0), path_equal()));
    for i in 0..list.len()
        invariant
            all == model::views(list@),
            model::views(out@) == model::deduped(all.take(i as int), path_equal()),
    {
        proof {
            model::step(all, i as int);
        }
        if out.len() == 0 || !same(&out[out.len() - 1], &list[i]) {
            out.push(list[i].clone());
        }
    }
    proof {
        model::whole(all);
    }
    out
}

pub fn sort_unique(list: &Vec<String>) -> (r: Vec<String>)
    ensures
        model::views(r@) == sorted_set(model::views(list@)),
{
    dedup(&sort(list))
}

proof fn lemma_path_order_is_weak()
    ensures
        model::weak_order(path_order()),
{
    assert forall|a: Seq<char>, b: Seq<char>| #[trigger] path_order()(a, b) implies !path_order()(b, a) by {
        text::list_order_is_total(path_key(a), path_key(b), path_key(a));
    }
    assert forall|a: Seq<char>, b: Seq<char>, c: Seq<char>| !#[trigger] path_order()(a, b) && !#[trigger] path_order()(b, c) implies !path_order()(a, c) by {
        text::list_order_is_total(path_key(a), path_key(b), path_key(c));
        text::list_order_is_total(path_key(b), path_key(a), path_key(c));
        text::list_order_is_total(path_key(c), path_key(b), path_key(a));
        text::list_order_is_total(path_key(a), path_key(c), path_key(b));
    }
}

/// A sorted set of paths holds paths of the list only, each of them at least as an equal path, and
/// none stands behind one that it precedes.
pub proof fn sorted_set_is_the_set(list: Seq<Seq<char>>)
    ensures
        model::ascending(sorted_set(list), path_order()),
        forall|p: Seq<char>| #[trigger] sorted_set(list).contains(p) ==> list.contains(p),
        forall|p: Seq<char>| #[trigger] list.contains(p) ==> listed(sorted_set(list), p),
{
    lemma_path_order_is_weak();
    let sorted = model::sorted(list, path_order());
    model::sorting_orders(list, path_order());
    model::deduping_keeps_the_order(sorted, path_equal(), path_order());
    assert forall|p: Seq<char>| #[trigger] list.contains(p) implies listed(sorted_set(list), p) by {
        assert(sorted.contains(p));
        let k = choose|k: int| 0 <= k < sorted_set(list).len() && path_equal()(#[trigger] sorted_set(list)[k], p);
        assert(same_path(sorted_set(list)[k], p));
    }
}

/// A directory precedes what lies in it.
pub proof fn lemma_directory_first(p: Seq<char>, base: Seq<char>)
    requires
        lies_in(p, base),
        !same_path(p, base),
    ensures
        path_order()(base, p),
{
    assert(path_key(base) =~= path_key(p).take(components(base).len() as int)) by {
        assert forall|i: int| 0 <= i < components(base).len() implies components(base)[i] == components(p)[i] by {}
    }
    assert(components(base).len() < components(p).len()) by {
        if components(base).len() == components(p).len() {
            assert(components(base) =~= components(p));
        }
    }
    lemma_prefix_first(path_key(base), path_key(p));
}

proof fn lemma_prefix_first(a: Seq<Seq<char>>, b: Seq<Seq<char>>)
    requires
        a.len() < b.len(),
        a == b.take(a.len() as int),
    ensures
        text::list_less(a, b),
    decreases a.len(),
{
    if a.len() > 0 {
        assert(a[0] == b[0]);
        assert(a.drop_first() =~= b.drop_first().take(a.len() - 1));
        lemma_prefix_first(a.drop_first(), b.drop_first());
    }
}

proof fn lemma_same_start(a: Seq<char>, b: Seq<char>)
    requires
        a.len() > 0,
        b.len() > 0,
        a[0] == b[0],
    ensures
        root().is_prefix_of(a) == root().is_prefix_of(b),
{
    if root().is_prefix_of(a) {
        assert(a.subrange(0, 1)[0] == '/');
        assert(root() =~= b.subrange(0, 1));
    }
    if root().is_prefix_of(b) {
        assert(b.subrange(0, 1)[0] == '/');
        assert(root() =~= a.subrange(0, 1));
    }
}

/// The pieces of what is joined to a directory: those of the directory up to its end, then the
/// others.
proof fn lemma_joined_pieces(a: Seq<char>, b: Seq<char>) -> (before: Seq<Seq<char>>)
    requires
        !root().is_prefix_of(b),
    ensures
        text::split(joined(a, b), '/') == before + text::split(b, '/'),
        before.filter(counts()) == text::split(a, '/').filter(counts()),
        a.len() > 0 ==> before.len() > 0 && before[0] == text::split(a, '/')[0],
        a.len() == 0 ==> before.len() == 0,
{
    let none = Seq::<char>::empty();
    let pieces = text::split(a, '/');
    let others = text::split(b, '/');
    text::lemma_split_nonempty(a, '/');
    text::lemma_split_nonempty(b, '/');
    assert(none + others[0] =~= others[0]);
    if a.len() > 0 && a.last() != '/' {
        let start = a + root();
        assert(start.drop_last() =~= a);
        assert(text::split(start, '/') == pieces.push(none));
        assert(start + b =~= joined(a, b));
        text::lemma_split_add(start, b, '/');
        assert(pieces.push(none).drop_last() =~= pieces);
        assert(text::split(joined(a, b), '/') =~= pieces + others);
        pieces
    } else {
        let before = pieces.drop_last();
        assert(a + b =~= joined(a, b));
        assert(pieces.last() =~= none);
        text::lemma_split_add(a, b, '/');
        assert(text::split(joined(a, b), '/') =~= before + others);
        assert(before.push(none) =~= pieces);
        before.lemma_filter_push(none, counts());
        if a.len() > 0 {
            text::lemma_split_nonempty(a.drop_last(), '/');
        }
        before
    }
}

/// What is joined to a directory lies in it: its components follow those of the directory.
pub proof fn a_joined_path_lies_in_its_directory(a: Seq<char>, b: Seq<char>)
    requires
        !root().is_prefix_of(b),
        components(b).len() > 0 ==> components(b)[0] != current(),
    ensures
        components(joined(a, b)) == components(a) + components(b),
        lies_in(joined(a, b), a),
{
    let p = joined(a, b);
    let others = text::split(b, '/');
    text::lemma_split_nonempty(b, '/');
    let before = lemma_joined_pieces(a, b);
    Seq::filter_distributes_over_add(before, others, counts());
    assert(components(b) =~= others.filter(counts())) by {
        if others[0] == current() {
            assert(components(b)[0] == current());
        }
    }
    if a.len() > 0 {
        assert(p[0] == a[0]);
        lemma_same_start(a, p);
        assert(text::split(p, '/')[0] == text::split(a, '/')[0]);
        assert(components(p) =~= components(a) + components(b));
    } else {
        assert(p =~= b);
        assert(a =~= Seq::<char>::empty());
        assert(text::split(a, '/').filter(counts()) =~= before);
        assert(components(a) =~= Seq::<Seq<char>>::empty());
        assert(components(p) =~= components(a) + components(b));
    }
    assert(components(a) =~= components(p).take(components(a).len() as int));
}

/// An entry of a directory has the components of the directory and its own name behind them.
pub proof fn a_joined_name_lies_in_its_directory(a: Seq<char>, b: Seq<char>)
    requires
        b.len() > 0,
        !b.contains('/'),
        is_normal(b),
    ensures
        components(joined(a, b)) == components(a).push(b),
        name_of(joined(a, b)) == Some(b),
        lies_in(joined(a, b), a),
{
    assert(!root().is_prefix_of(b)) by {
        if root().is_prefix_of(b) {
            assert(b.subrange(0, 1)[0] == root()[0]);
            assert(b.contains(b[0]));
        }
    }
    let none = Seq::<char>::empty();
    let nothing = Seq::<Seq<char>>::empty();
    text::lemma_split_extend(none, b, '/');
    assert(none + b =~= b);
    assert(text::split(b, '/') =~= nothing.push(b));
    nothing.lemma_filter_push(b, counts());
    nothing.lemma_filter_len(counts());
    assert(nothing.filter(counts()) =~= nothing);
    assert(components(b) =~= seq![b]);
    a_joined_path_lies_in_its_directory(a, b);
    assert(components(joined(a, b)) =~= components(a).push(b));
}

// ---------------------------------------------------------------------------
// What is left of a path below one of the directories above it
// ---------------------------------------------------------------------------

/// The path without separators and current-directory pieces at its start.
pub open spec fn trimmed_head(p: Seq<char>) -> Seq<char>
    decreases p.len(),
{
    if p.len() > 0 && (p[0] == '/' || (p[0] == '.' && (p.len() == 1 || p[1] == '/'))) {
        trimmed_head(p.drop_first())
    } else {
        p
    }
}

/// What follows the first piece, the separator included.
pub open spec fn after_piece(p: Seq<char>) -> Seq<char>
    decreases p.len(),
{
    if p.len() > 0 && p[0] != '/' {
        after_piece(p.drop_first())
    } else {
        p
    }
}

/// What follows the first `n` pieces that count as components.
pub open spec fn after_pieces(p: Seq<char>, n: nat) -> Seq<char>
    decreases n,
{
    if n == 0 {
        p
    } else {
        after_pieces(after_piece(trimmed_head(p)), (n - 1) as nat)
    }
}

/// The path below its first `n` components.
pub open spec fn below(p: Seq<char>, n: nat) -> Seq<char> {
    if n == 0 {
        trimmed_tail(p)
    } else if p.len() > 0 && (p[0] == '/' || (p[0] == '.' && (p.len() == 1 || p[1] == '/'))) {
        trimmed_tail(trimmed_head(after_pieces(p.drop_first(), (n - 1) as nat)))
    } else {
        trimmed_tail(trimmed_head(after_pieces(p, n)))
    }
}

proof fn lemma_trimmed_head(p: Seq<char>, n: int)
    requires
        0 <= n <= p.len(),
        forall|k: int| 0 <= k < n ==> (#[trigger] p[k] == '/' || (p[k] == '.' && (k + 1 == p.len() || p[k + 1] == '/'))),
    ensures
        trimmed_head(p) == trimmed_head(p.skip(n)),
    decreases n,
{
    if n == 0 {
        assert(p.skip(0) =~= p);
    } else {
        let rest = p.drop_first();
        assert(p[0] == '/' || (p[0] == '.' && (1 == p.len() || p[1] == '/')));
        assert forall|k: int| 0 <= k < n - 1 implies (#[trigger] rest[k] == '/' || (rest[k] == '.' && (k + 1 == rest.len()
            || rest[k + 1] == '/'))) by {
            assert(rest[k] == p[k + 1]);
        }
        lemma_trimmed_head(rest, n - 1);
        assert(rest.skip(n - 1) =~= p.skip(n));
    }
}

proof fn lemma_after_piece(p: Seq<char>, n: int)
    requires
        0 <= n <= p.len(),
        forall|k: int| 0 <= k < n ==> #[trigger] p[k] != '/',
    ensures
        after_piece(p) == after_piece(p.skip(n)),
    decreases n,
{
    if n == 0 {
        assert(p.skip(0) =~= p);
    } else {
        let rest = p.drop_first();
        assert(p[0] != '/');
        assert forall|k: int| 0 <= k < n - 1 implies #[trigger] rest[k] != '/' by {
            assert(rest[k] == p[k + 1]);
        }
        lemma_after_piece(rest, n - 1);
        assert(rest.skip(n - 1) =~= p.skip(n));
    }
}

/// The position from which `trimmed_head` keeps the text, looking from `from` on.
fn head_from(source: &Vec<char>, from: usize) -> (at: usize)
    requires
        from <= source@.len(),
    ensures
        from <= at <= source@.len(),
        source@.skip(at as int) == trimmed_head(source@.skip(from as int)),
{
    let mut i: usize = from;
    let ghost p = source@.skip(from as int);
    while i < source.len() && (source[i] == '/' || (source[i] == '.' && (i + 1 == source.len() || source[i + 1] == '/')))
        invariant
            from <= i <= source@.len(),
            p == source@.skip(from as int),
            forall|k: int| 0 <= k < i - from ==> (#[trigger] p[k] == '/' || (p[k] == '.' && (k + 1 == p.len() || p[k + 1]
                == '/'))),
        decreases source@.len() - i,
    {
        assert(p[i - from] == source@[i as int]);
        i += 1;
    }
    proof {
        lemma_trimmed_head(p, i - from);
        assert(p.skip(i - from) =~= source@.skip(i as int));
    }
    i
}

/// The position behind the first piece, looking from `from` on.
fn piece_end(source: &Vec<char>, from: usize) -> (at: usize)
    requires
        from <= source@.len(),
    ensures
        from <= at <= source@.len(),
        source@.skip(at as int) == after_piece(source@.skip(from as int)),
{
    let mut i: usize = from;
    let ghost p = source@.skip(from as int);
    while i < source.len() && source[i] != '/'
        invariant
            from <= i <= source@.len(),
            p == source@.skip(from as int),
            forall|k: int| 0 <= k < i - from ==> #[trigger] p[k] != '/',
        decreases source@.len() - i,
    {
        assert(p[i - from] == source@[i as int]);
        i += 1;
    }
    proof {
        lemma_after_piece(p, i - from);
        assert(p.skip(i - from) =~= source@.skip(i as int));
    }
    i
}

/// What is left of a path below `base`, where it lies in it.
pub fn strip_prefix(p: &str, base: &str) -> (r: Option<String>)
    ensures
        model::opt(r) == if lies_in(p@, base@) {
            Some(below(p@, components(base@).len()))
        } else {
            None
        },
{
    if !starts_with(p, base) {
        return None;
    }
    let above = components_of(base);
    if above.len() == 0 {
        return Some(trim_tail(p));
    }
    let source = text::chars(p);
    let mut left: usize = above.len();
    let mut at: usize = 0;
    if source.len() > 0 && (source[0] == '/' || (source[0] == '.' && (source.len() == 1 || source[1] == '/'))) {
        at = 1;
        left -= 1;
        assert(source@.skip(1) =~= p@.drop_first());
    } else {
        assert(source@.skip(0) =~= p@);
    }
    let ghost wanted = after_pieces(source@.skip(at as int), left as nat);
    while left > 0
        invariant
            at <= source@.len(),
            after_pieces(source@.skip(at as int), left as nat) == wanted,
        decreases left,
    {
        let start: usize = head_from(&source, at);
        at = piece_end(&source, start);
        left -= 1;
    }
    let start: usize = head_from(&source, at);
    let rest = text::text_of(&source, start, source.len());
    assert(rest@ =~= source@.skip(start as int));
    Some(trim_tail(&rest))
}

// ---------------------------------------------------------------------------
// Parents, names and what is left below
// ---------------------------------------------------------------------------

proof fn lemma_first_piece_stays(s: Seq<char>, c: char)
    requires
        s.len() > 0,
        c == '/' || s.last() == '/',
    ensures
        text::split(s.push(c), '/')[0] == text::split(s, '/')[0],
        root().is_prefix_of(s.push(c)) == root().is_prefix_of(s),
{
    let all = s.push(c);
    assert(all.drop_last() =~= s);
    text::lemma_split_nonempty(s, '/');
    if s.last() == '/' {
        text::lemma_split_nonempty(s.drop_last(), '/');
    }
    assert(all.subrange(0, 1) =~= s.subrange(0, 1));
}

/// Separators and current-directory pieces at the end of a path do not count.
proof fn lemma_tail_does_not_count(p: Seq<char>)
    ensures
        components(trimmed_tail(p)) == components(p),
    decreases p.len(),
{
    if p.len() > 1 && (p.last() == '/' || (p.last() == '.' && p[p.len() - 2] == '/')) {
        let init = p.drop_last();
        lemma_tail_does_not_count(init);
        assert(p =~= init.push(p.last()));
        let none = Seq::<char>::empty();
        lemma_first_piece_stays(init, p.last());
        let before = text::split(init, '/');
        if p.last() == '/' {
            before.lemma_filter_push(none, counts());
        } else {
            assert(init.last() == '/');
            let earlier = text::split(init.drop_last(), '/');
            assert(before == earlier.push(none));
            let last = none.push('.');
            assert(last =~= current());
            assert(before.drop_last() =~= earlier);
            assert(text::split(p, '/') =~= earlier.push(last));
            earlier.lemma_filter_push(none, counts());
            earlier.lemma_filter_push(last, counts());
        }
    }
}

proof fn lemma_no_path()
    ensures
        components(Seq::<char>::empty()) == Seq::<Seq<char>>::empty(),
        components(root()) == seq![root()],
{
    let none = Seq::<char>::empty();
    let keep = counts();
    assert(text::split(none, '/') =~= seq![none]);
    model::filter_one(none, keep);
    assert(components(none) =~= Seq::<Seq<char>>::empty());
    assert(root().drop_last() =~= none);
    assert(text::split(root(), '/') =~= seq![none].push(none));
    seq![none].lemma_filter_push(none, keep);
    assert(root().subrange(0, 1) =~= root());
    assert(components(root()) =~= seq![root()]);
}

/// A single name is a path of one component.
proof fn lemma_single_name(name: Seq<char>)
    requires
        name.len() > 0,
        !name.contains('/'),
    ensures
        components(name) == seq![name],
{
    let none = Seq::<char>::empty();
    text::lemma_split_extend(none, name, '/');
    assert(none + name =~= name);
    assert(text::split(none, '/') =~= seq![none]);
    assert(text::split(name, '/') =~= seq![name]);
    model::filter_one(name, counts());
    if root().is_prefix_of(name) {
        assert(name.subrange(0, 1)[0] == '/');
        assert(name.contains(name[0]));
    }
    assert(components(name) =~= seq![name]);
}

/// The parent of a path has all its components but the last; only the empty path and the root have
/// none.
pub proof fn a_parent_lacks_the_last_component(p: Seq<char>)
    ensures
        parent_of(p) matches Some(q) ==> components(p).len() > 0 && components(q) == components(p).drop_last(),
        parent_of(p) is None <==> components(p).len() == 0 || components(p) == seq![root()],
{
    let q = trimmed_tail(p);
    lemma_tail_does_not_count(p);
    lemma_no_path();
    if q.len() > 0 && q != root() {
        text::lemma_last_at(q, root());
        lemma_trimmed_is_trimmed(p);
        match text::last_at(q, root()) {
            Some(at) => {
                assert(q.subrange(at, at + 1)[0] == '/');
                let directory = q.take(at + 1);
                let name = q.skip(at + 1);
                assert(directory + name =~= q);
                assert(directory.last() == '/');
                assert(name.len() > 0);
                assert(!name.contains('/')) by {
                    if name.contains('/') {
                        let i = choose|i: int| 0 <= i < name.len() && name[i] == '/';
                        let k = at + 1 + i;
                        assert(q.subrange(k, k + 1) =~= root());
                        assert(text::occurs_at(q, root(), k));
                    }
                }
                assert(name != current()) by {
                    if name == current() {
                        assert(q.last() == name[0]);
                        assert(q[q.len() - 2] == '/');
                    }
                }
                lemma_single_name(name);
                if root().is_prefix_of(name) {
                    assert(name.subrange(0, 1)[0] == '/');
                    assert(name.contains(name[0]));
                }
                a_joined_path_lies_in_its_directory(directory, name);
                assert(joined(directory, name) =~= q);
                assert(components(q) =~= components(directory).push(name));
                if at == 0 {
                    assert(directory =~= root());
                } else {
                    let above = q.take(at);
                    assert(directory =~= above.push('/'));
                    assert(directory.drop_last() =~= above);
                    lemma_tail_does_not_count(directory);
                    lemma_tail_does_not_count(above);
                }
                assert(components(q).last() == name);
                assert(name != root()) by {
                    if name == root() {
                        assert(name[0] == '/');
                        assert(name.contains(name[0]));
                    }
                }
                assert(components(q).drop_last() =~= components(directory));
            },
            None => {
                assert(!q.contains('/')) by {
                    if q.contains('/') {
                        let i = choose|i: int| 0 <= i < q.len() && q[i] == '/';
                        assert(q.subrange(i, i + 1) =~= root());
                        assert(text::occurs_at(q, root(), i));
                    }
                }
                lemma_single_name(q);
                assert(components(q).drop_last() =~= Seq::<Seq<char>>::empty());
                assert(components(q).last() == q);
                assert(seq![root()].last() == root());
            },
        }
    }
}

proof fn lemma_trimmed_is_trimmed(p: Seq<char>)
    ensures
        ({
            let q = trimmed_tail(p);
            !(q.len() > 1 && (q.last() == '/' || (q.last() == '.' && q[q.len() - 2] == '/')))
        }),
    decreases p.len(),
{
    if p.len() > 1 && (p.last() == '/' || (p.last() == '.' && p[p.len() - 2] == '/')) {
        lemma_trimmed_is_trimmed(p.drop_last());
    }
}

proof fn lemma_some_component(p: Seq<char>)
    requires
        p.len() > 0,
    ensures
        components(p).len() > 0,
{
    let pieces = text::split(p, '/');
    text::lemma_split_nonempty(p, '/');
    if p[0] == '/' {
        assert(p.subrange(0, 1) =~= root());
    } else if pieces[0] != current() {
        lemma_first_piece(p);
        model::filter_keeps(pieces, counts());
        assert(counts()(pieces[0]));
        assert(pieces.filter(counts()).contains(pieces[0]));
    }
}

/// The directories above a path are the paths of its first components, from the longest to the
/// shortest: none is left out and nothing else is one.
pub proof fn directories_above_are_the_shorter_paths(p: Seq<char>)
    requires
        components(p).len() > 0,
    ensures
        above(p).len() == components(p).len() - 1,
        forall|k: int|
            0 <= k < above(p).len() ==> components(#[trigger] above(p)[k]) == components(p).take(
                components(p).len() - 1 - k,
            ),
    decreases p.len(),
{
    a_parent_lacks_the_last_component(p);
    lemma_parent_shrinks(p);
    lemma_no_path();
    match parent_of(p) {
        Some(q) => {
            if q.len() > 0 {
                lemma_some_component(q);
                directories_above_are_the_shorter_paths(q);
                assert forall|k: int| 0 <= k < above(p).len() implies components(#[trigger] above(p)[k]) == components(
                    p,
                ).take(components(p).len() - 1 - k) by {
                    if k == 0 {
                        assert(above(p)[0] == q);
                        assert(components(p).drop_last() =~= components(p).take(components(p).len() - 1));
                    } else {
                        assert(above(p)[k] == above(q)[k - 1]);
                        assert(components(q).take(components(q).len() - 1 - (k - 1)) =~= components(p).take(
                            components(p).len() - 1 - k,
                        ));
                    }
                }
            } else {
                assert(q =~= Seq::<char>::empty());
            }
        },
        None => {},
    }
}

/// The extension of a file is what follows the last dot of its name, where something stands before
/// the dot.
pub proof fn the_extension_follows_the_last_dot(p: Seq<char>, stem: Seq<char>, extension: Seq<char>)
    requires
        name_of(p) == Some(stem + seq!['.'] + extension),
        !extension.contains('.'),
    ensures
        stem.len() > 0 ==> extension_of(p) == Some(extension),
        stem.len() == 0 ==> extension_of(p) is None,
{
    let name = stem + seq!['.'] + extension;
    assert(current() =~= seq!['.']);
    text::the_last_character_is_found(stem, '.', extension);
    assert(name.skip(stem.len() as int + 1) =~= extension);
}

/// A file name without a dot has no extension.
pub proof fn names_without_a_dot_have_no_extension(p: Seq<char>, name: Seq<char>)
    requires
        name_of(p) == Some(name),
        !name.contains('.'),
    ensures
        extension_of(p) is None,
{
    text::lemma_last_at(name, current());
    if text::last_at(name, current()) is Some {
        let at = text::last_at(name, current())->0;
        assert(name.subrange(at, at + 1)[0] == name[at]);
        assert(name.contains('.'));
    }
}

spec fn counted(p: Seq<char>) -> Seq<Seq<char>> {
    text::split(p, '/').filter(counts())
}

proof fn lemma_split_first(c: char, rest: Seq<char>)
    ensures
        c == '/' ==> text::split(seq![c] + rest, '/') == seq![Seq::<char>::empty()] + text::split(rest, '/'),
        c != '/' ==> text::split(seq![c] + rest, '/') == seq![seq![c] + text::split(rest, '/')[0]] + text::split(
            rest,
            '/',
        ).drop_first(),
        text::split(rest, '/').len() > 0,
{
    let none = Seq::<char>::empty();
    let one = seq![c];
    text::lemma_split_nonempty(rest, '/');
    text::lemma_split_add(one, rest, '/');
    assert(one.drop_last() =~= none);
    assert(text::split(none, '/') =~= seq![none]);
    let more = text::split(rest, '/');
    if c == '/' {
        assert(text::split(one, '/') =~= seq![none, none]);
        assert(none + more[0] =~= more[0]);
        assert(seq![none, none].drop_last().push(more[0]) + more.drop_first() =~= seq![none] + more);
    } else {
        assert(none.push(c) =~= one);
        assert(text::split(one, '/') =~= seq![one]);
        assert(seq![one].drop_last().push(one + more[0]) + more.drop_first() =~= seq![one + more[0]]
            + more.drop_first());
    }
}

proof fn lemma_first_piece(p: Seq<char>)
    requires
        p.len() > 0,
        p[0] != '/',
    ensures
        text::split(p, '/')[0].len() > 0,
        text::split(p, '/')[0] == current() ==> p[0] == '.' && (p.len() == 1 || p[1] == '/'),
{
    let rest = p.drop_first();
    assert(p =~= seq![p[0]] + rest);
    lemma_split_first(p[0], rest);
    let first = text::split(p, '/')[0];
    assert(first == seq![p[0]] + text::split(rest, '/')[0]);
    if first == current() && rest.len() > 0 && rest[0] != '/' {
        let later = rest.drop_first();
        assert(rest =~= seq![rest[0]] + later);
        lemma_split_first(rest[0], later);
        assert(text::split(rest, '/')[0].len() > 0);
        assert(first.len() > 1);
    }
    if first == current() {
        assert(first[0] == p[0]);
    }
}

proof fn lemma_head_does_not_count(p: Seq<char>)
    ensures
        counted(trimmed_head(p)) == counted(p),
        ({
            let q = trimmed_head(p);
            q.len() > 0 ==> q[0] != '/' && !(q[0] == '.' && (q.len() == 1 || q[1] == '/'))
        }),
    decreases p.len(),
{
    if p.len() > 0 && (p[0] == '/' || (p[0] == '.' && (p.len() == 1 || p[1] == '/'))) {
        let rest = p.drop_first();
        lemma_head_does_not_count(rest);
        lemma_dropped_head(p);
    }
}

proof fn lemma_dropped_head(p: Seq<char>)
    requires
        p.len() > 0,
        p[0] == '/' || (p[0] == '.' && (p.len() == 1 || p[1] == '/')),
    ensures
        counted(p.drop_first()) == counted(p),
{
    let rest = p.drop_first();
    let none = Seq::<char>::empty();
    assert(p =~= seq![p[0]] + rest);
    lemma_split_first(p[0], rest);
    let more = text::split(rest, '/');
    if p[0] == '/' {
        model::filter_one(none, counts());
        Seq::filter_distributes_over_add(seq![none], more, counts());
        assert(seq![none].filter(counts()) + more.filter(counts()) =~= more.filter(counts()));
    } else {
        assert(more[0] == none) by {
            if rest.len() > 0 {
                let later = rest.drop_first();
                assert(rest =~= seq!['/'] + later);
                lemma_split_first('/', later);
            } else {
                assert(rest =~= none);
                assert(text::split(none, '/') =~= seq![none]);
            }
        }
        let first = seq![p[0]] + more[0];
        assert(first =~= current());
        assert(more =~= seq![none] + more.drop_first());
        model::filter_one(none, counts());
        model::filter_one(first, counts());
        Seq::filter_distributes_over_add(seq![first], more.drop_first(), counts());
        Seq::filter_distributes_over_add(seq![none], more.drop_first(), counts());
    }
}

proof fn lemma_after_first(p: Seq<char>)
    ensures
        counted(after_piece(p)) == text::split(p, '/').drop_first().filter(counts()),
    decreases p.len(),
{
    let none = Seq::<char>::empty();
    if p.len() == 0 {
        assert(p =~= none);
        assert(text::split(none, '/') =~= seq![none]);
        model::filter_one(none, counts());
        let nothing = seq![none].drop_first();
        assert(nothing =~= Seq::<Seq<char>>::empty());
        model::filter_keeps(nothing, counts());
        assert(nothing.filter(counts()) =~= Seq::<Seq<char>>::empty());
    } else {
        let rest = p.drop_first();
        assert(p =~= seq![p[0]] + rest);
        lemma_split_first(p[0], rest);
        if p[0] == '/' {
            lemma_dropped_head(p);
            assert(text::split(p, '/').drop_first() =~= text::split(rest, '/'));
        } else {
            lemma_after_first(rest);
            assert(text::split(p, '/').drop_first() =~= text::split(rest, '/').drop_first());
        }
    }
}

proof fn lemma_after_pieces(p: Seq<char>, n: nat)
    requires
        n <= counted(p).len(),
    ensures
        counted(after_pieces(p, n)) == counted(p).skip(n as int),
    decreases n,
{
    if n == 0 {
        assert(counted(p).skip(0) =~= counted(p));
    } else {
        let q = trimmed_head(p);
        lemma_head_does_not_count(p);
        let none = Seq::<char>::empty();
        if q.len() == 0 {
            assert(q =~= none);
            assert(text::split(none, '/') =~= seq![none]);
            model::filter_one(none, counts());
        } else {
            lemma_first_piece(q);
            let pieces = text::split(q, '/');
            text::lemma_split_nonempty(q, '/');
            assert(pieces =~= seq![pieces[0]] + pieces.drop_first());
            model::filter_one(pieces[0], counts());
            Seq::filter_distributes_over_add(seq![pieces[0]], pieces.drop_first(), counts());
            lemma_after_first(q);
            let rest = after_piece(q);
            assert(counted(q).skip(1) =~= counted(rest));
            lemma_after_pieces(rest, (n - 1) as nat);
            assert(counted(rest).skip(n - 1) =~= counted(p).skip(n as int));
        }
    }
}

/// What is left of a path below its first components has exactly the others.
pub proof fn what_is_below_has_the_other_components(p: Seq<char>, n: nat)
    requires
        n <= components(p).len(),
    ensures
        components(below(p, n)) == components(p).skip(n as int),
{
    if n == 0 {
        lemma_tail_does_not_count(p);
        assert(components(p).skip(0) =~= components(p));
    } else {
        let none = Seq::<char>::empty();
        let led = p.len() > 0 && (p[0] == '/' || (p[0] == '.' && (p.len() == 1 || p[1] == '/')));
        let rest = if led {
            after_pieces(p.drop_first(), (n - 1) as nat)
        } else {
            after_pieces(p, n)
        };
        let pieces = text::split(p, '/');
        text::lemma_split_nonempty(p, '/');
        if led {
            lemma_dropped_head(p);
            if p[0] == '/' {
                assert(p.subrange(0, 1) =~= root());
                assert(components(p) =~= seq![root()] + counted(p));
            } else {
                if root().is_prefix_of(p) {
                    assert(p.subrange(0, 1)[0] == '/');
                }
                assert(pieces[0] == current()) by {
                    let later = p.drop_first();
                    assert(p =~= seq!['.'] + later);
                    lemma_split_first('.', later);
                    if later.len() > 0 {
                        assert(later =~= seq!['/'] + later.drop_first());
                        lemma_split_first('/', later.drop_first());
                    } else {
                        assert(later =~= none);
                        assert(text::split(none, '/') =~= seq![none]);
                    }
                    assert(pieces[0] =~= current());
                }
                assert(components(p) =~= seq![current()] + counted(p));
            }
            lemma_after_pieces(p.drop_first(), (n - 1) as nat);
            assert(counted(rest) =~= components(p).skip(n as int));
        } else {
            if p.len() > 0 {
                lemma_first_piece(p);
                if root().is_prefix_of(p) {
                    assert(p.subrange(0, 1)[0] == '/');
                }
            } else {
                assert(p =~= none);
                lemma_no_path();
            }
            assert(components(p) =~= counted(p));
            lemma_after_pieces(p, n);
            assert(counted(rest) =~= components(p).skip(n as int));
        }
        let q = trimmed_head(rest);
        lemma_head_does_not_count(rest);
        lemma_tail_does_not_count(q);
        if q.len() > 0 {
            lemma_first_piece(q);
            if root().is_prefix_of(q) {
                assert(q.subrange(0, 1)[0] == '/');
            }
            assert(components(q) =~= counted(q));
        } else {
            assert(q =~= none);
            lemma_no_path();
            assert(text::split(none, '/') =~= seq![none]);
            model::filter_one(none, counts());
            assert(counted(none) =~= Seq::<Seq<char>>::empty());
        }
    }
}

/// A path that begins with neither a separator nor a current-directory piece begins with a component
/// that counts.
pub proof fn a_relative_path_begins_with_a_name(p: Seq<char>)
    requires
        p.len() > 0,
        p[0] != '/',
        !(p[0] == '.' && (p.len() == 1 || p[1] == '/')),
    ensures
        components(p).len() > 0,
        components(p)[0] != current(),
        components(p)[0] == text::split(p, '/')[0],
{
    let pieces = text::split(p, '/');
    text::lemma_split_nonempty(p, '/');
    lemma_first_piece(p);
    assert(pieces =~= seq![pieces[0]] + pieces.drop_first());
    model::filter_one(pieces[0], counts());
    Seq::filter_distributes_over_add(seq![pieces[0]], pieces.drop_first(), counts());
    if root().is_prefix_of(p) {
        assert(p.subrange(0, 1)[0] == '/');
    }
    assert(components(p) =~= pieces.filter(counts()));
    assert(pieces.filter(counts())[0] == pieces[0]);
}

/// Plain names with separators between them are the components of the path, in order.
pub proof fn names_are_the_components(names: Seq<Seq<char>>)
    requires
        names.len() > 0,
        forall|i: int|
            0 <= i < names.len() ==> (#[trigger] names[i]).len() > 0 && !names[i].contains('/') && is_normal(names[i]),
    ensures
        components(text::joined(names, root())) == names,
        components(root() + text::joined(names, root())) == seq![root()] + names,
    decreases names.len(),
{
    let p = text::joined(names, root());
    let last = names[names.len() - 1];
    assert(last.len() > 0 && !last.contains('/') && is_normal(last));
    lemma_no_path();
    if names.len() == 1 {
        lemma_single_name(names[0]);
        assert(components(p) =~= names);
        a_joined_name_lies_in_its_directory(root(), last);
        if root().is_prefix_of(last) {
            assert(last.subrange(0, 1)[0] == '/');
            assert(last.contains(last[0]));
        }
        assert(joined(root(), last) =~= root() + p);
        assert(seq![root()].push(last) =~= seq![root()] + names);
    } else {
        let init = names.drop_last();
        assert forall|i: int| 0 <= i < init.len() implies (#[trigger] init[i]).len() > 0 && !init[i].contains('/')
            && is_normal(init[i]) by {
            assert(init[i] == names[i]);
        }
        names_are_the_components(init);
        let before = text::joined(init, root());
        if root().is_prefix_of(last) {
            assert(last.subrange(0, 1)[0] == '/');
            assert(last.contains(last[0]));
        }
        lemma_joined_end(init);
        a_joined_name_lies_in_its_directory(before, last);
        assert(joined(before, last) =~= p);
        assert(init.push(last) =~= names);
        let full = root() + before;
        a_joined_name_lies_in_its_directory(full, last);
        assert(joined(full, last) =~= root() + p);
        assert((seq![root()] + init).push(last) =~= seq![root()] + names);
    }
}

proof fn lemma_joined_end(names: Seq<Seq<char>>)
    requires
        names.len() > 0,
        forall|i: int| 0 <= i < names.len() ==> (#[trigger] names[i]).len() > 0 && !names[i].contains('/'),
    ensures
        text::joined(names, root()).len() > 0,
        text::joined(names, root()).last() != '/',
{
    let last = names[names.len() - 1];
    assert(last.len() > 0 && !last.contains('/'));
    assert(last.contains(last[last.len() - 1]));
    assert(text::joined(names, root()).last() == last[last.len() - 1]);
}

/// Paths are ordered by the first entry that differs, as text, whatever follows it.
pub proof fn paths_are_ordered_by_the_first_difference(
    p: Seq<char>,
    q: Seq<char>,
    common: Seq<Seq<char>>,
    x: Seq<char>,
    a: Seq<Seq<char>>,
    y: Seq<char>,
    b: Seq<Seq<char>>,
)
    requires
        components(p) == common + seq![x] + a,
        components(q) == common + seq![y] + b,
        is_normal(x),
        is_normal(y),
        x != y,
    ensures
        path_order()(p, q) <==> text::less(x, y),
{
    let rank = |c: Seq<char>| ranked(c);
    let start = common.map_values(rank);
    assert(path_key(p) =~= start + seq![ranked(x)] + a.map_values(rank));
    assert(path_key(q) =~= start + seq![ranked(y)] + b.map_values(rank));
    assert(ranked(x).drop_first() =~= x);
    assert(ranked(y).drop_first() =~= y);
    assert(ranked(x)[0] == '3' && ranked(y)[0] == '3');
    text::lists_are_ordered_by_the_first_difference(
        start,
        ranked(x),
        a.map_values(rank),
        ranked(y),
        b.map_values(rank),
    );
}

} // verus!
