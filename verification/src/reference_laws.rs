//! Variables of env files whose references were rewritten.

use vstd::prelude::*;

use crate::config;
use crate::environment;
use crate::environment_laws;
use crate::model;
use crate::ports::AssignmentData;
use crate::text;

verus! {

// ---------------------------------------------------------------------------
// Replacing line by line
// ---------------------------------------------------------------------------

/// The first piece of a text stands at its start.
proof fn lemma_first_piece(s: Seq<char>, sep: char)
    ensures
        text::split(s, sep)[0].is_prefix_of(s),
    decreases s.len(),
{
    text::lemma_split_nonempty(s, sep);
    if s.len() > 0 {
        let init = s.drop_last();
        lemma_first_piece(init, sep);
        text::lemma_split_nonempty(init, sep);
        let before = text::split(init, sep);
        assert(init.subrange(0, before[0].len() as int) =~= s.subrange(0, before[0].len() as int));
        if s.last() != sep && before.len() == 1 {
            lemma_only_piece(init, sep);
            assert(before[0].push(s.last()) =~= s);
        }
    }
}

/// A single piece is the whole text.
proof fn lemma_only_piece(s: Seq<char>, sep: char)
    requires
        text::split(s, sep).len() == 1,
    ensures
        text::split(s, sep)[0] == s,
    decreases s.len(),
{
    if s.len() > 0 {
        text::lemma_split_nonempty(s.drop_last(), sep);
        lemma_only_piece(s.drop_last(), sep);
        assert(s.drop_last().push(s.last()) =~= s);
    } else {
        assert(s =~= Seq::empty());
    }
}

/// A text without the separator is one piece.
proof fn lemma_whole_piece(s: Seq<char>, sep: char)
    requires
        !s.contains(sep),
    ensures
        text::split(s, sep) == seq![s],
{
    let none = Seq::<char>::empty();
    text::lemma_split_extend(none, s, sep);
    assert(none + s =~= s);
    assert(text::split(none, sep).drop_last() =~= Seq::empty());
    assert(text::split(s, sep) =~= seq![s]);
}

/// What starts with a text without the separator: its pieces are those of the rest, the first of
/// them behind that text.
proof fn lemma_split_start(start: Seq<char>, rest: Seq<char>, sep: char)
    requires
        !start.contains(sep),
    ensures
        text::split(start + rest, sep) == seq![start + text::split(rest, sep)[0]] + text::split(rest, sep).drop_first(),
{
    lemma_whole_piece(start, sep);
    text::lemma_split_add(start, rest, sep);
    assert(seq![start].drop_last() =~= Seq::<Seq<char>>::empty());
    assert(seq![start].last() == start);
    assert(Seq::<Seq<char>>::empty().push(start + text::split(rest, sep)[0]) =~= seq![
        start + text::split(rest, sep)[0],
    ]);
}

pub open spec fn replacing(from: Seq<char>, to: Seq<char>) -> spec_fn(Seq<char>) -> Seq<char> {
    |piece: Seq<char>| text::replaced(piece, from, to)
}

/// Replacing texts that hold no separator replaces them piece by piece.
proof fn lemma_replaced_by_pieces(s: Seq<char>, from: Seq<char>, to: Seq<char>, sep: char)
    requires
        from.len() > 0,
        !from.contains(sep),
        !to.contains(sep),
    ensures
        text::split(text::replaced(s, from, to), sep) == text::split(s, sep).map_values(replacing(from, to)),
    decreases s.len(),
{
    let each = replacing(from, to);
    let none = Seq::<char>::empty();
    text::lemma_split_nonempty(s, sep);
    if s.len() == 0 {
        assert(s =~= none);
        assert(text::split(s, sep).map_values(each) =~= seq![none]);
    } else if from.is_prefix_of(s) {
        let rest = s.skip(from.len() as int);
        let more = text::replaced(rest, from, to);
        lemma_replaced_by_pieces(rest, from, to, sep);
        text::lemma_split_nonempty(rest, sep);
        let pieces = text::split(rest, sep);
        assert(from + rest =~= s);
        lemma_split_start(from, rest, sep);
        lemma_split_start(to, more, sep);
        let first = from + pieces[0];
        assert(first.subrange(0, from.len() as int) =~= from);
        assert(first.skip(from.len() as int) =~= pieces[0]);
        assert(each(first) == to + each(pieces[0]));
        assert(text::split(to + more, sep) =~= text::split(s, sep).map_values(each));
    } else {
        let c = s[0];
        let rest = s.drop_first();
        let more = text::replaced(rest, from, to);
        lemma_replaced_by_pieces(rest, from, to, sep);
        text::lemma_split_nonempty(rest, sep);
        let pieces = text::split(rest, sep);
        assert(seq![c] + rest =~= s);
        if c == sep {
            assert(seq![c].drop_last() =~= none);
            assert(text::split(none, sep) == seq![none]);
            assert(text::split(seq![c], sep) =~= seq![none, none]);
            text::lemma_split_add(seq![c], rest, sep);
            text::lemma_split_add(seq![c], more, sep);
            assert(seq![none, none].drop_last() =~= seq![none]);
            assert(none + pieces[0] =~= pieces[0]);
            assert(none + text::split(more, sep)[0] =~= text::split(more, sep)[0]);
            assert(text::split(s, sep) =~= seq![none] + pieces);
            assert(text::split(seq![c] + more, sep) =~= seq![none] + text::split(more, sep));
            assert(text::split(seq![c] + more, sep) =~= text::split(s, sep).map_values(each));
        } else {
            lemma_split_start(seq![c], rest, sep);
            lemma_split_start(seq![c], more, sep);
            lemma_first_piece(rest, sep);
            let first = seq![c] + pieces[0];
            assert(!from.is_prefix_of(first)) by {
                if from.is_prefix_of(first) {
                    assert(first.subrange(0, from.len() as int) =~= s.subrange(0, from.len() as int)) by {
                        assert(pieces[0] == rest.subrange(0, pieces[0].len() as int));
                    }
                }
            }
            assert(first.drop_first() =~= pieces[0]);
            assert(each(first) == seq![c] + each(pieces[0]));
            assert(text::split(seq![c] + more, sep) =~= text::split(s, sep).map_values(each));
        }
    }
}

pub open spec fn replacing_references(from: Seq<char>, to: Seq<char>) -> spec_fn(Seq<char>) -> Seq<char> {
    |piece: Seq<char>| environment::references_replaced(piece, from, to)
}

/// Behind the first piece of a text stands the separator, or nothing.
proof fn lemma_first_ends(s: Seq<char>, sep: char)
    ensures
        text::split(s, sep)[0].len() <= s.len(),
        text::split(s, sep)[0].len() < s.len() ==> s[text::split(s, sep)[0].len() as int] == sep,
    decreases s.len(),
{
    text::lemma_split_nonempty(s, sep);
    if s.len() > 0 {
        let init = s.drop_last();
        text::lemma_split_nonempty(init, sep);
        lemma_first_ends(init, sep);
        if text::split(init, sep).len() == 1 {
            lemma_only_piece(init, sep);
        } else {
            lemma_more_pieces(init, sep);
        }
    }
}

/// Where there are more pieces than one, the first is not the whole text.
proof fn lemma_more_pieces(s: Seq<char>, sep: char)
    requires
        text::split(s, sep).len() > 1,
    ensures
        text::split(s, sep)[0].len() < s.len(),
    decreases s.len(),
{
    if s.len() > 0 {
        let init = s.drop_last();
        text::lemma_split_nonempty(init, sep);
        if text::split(init, sep).len() > 1 {
            lemma_more_pieces(init, sep);
        } else {
            lemma_only_piece(init, sep);
        }
    }
}

/// Replacing references that hold no separator replaces them piece by piece.
proof fn lemma_references_by_pieces(s: Seq<char>, from: Seq<char>, to: Seq<char>, sep: char)
    requires
        from.len() > 0,
        !from.contains(sep),
        !to.contains(sep),
        !text::is_ascii_digit(sep),
    ensures
        text::split(environment::references_replaced(s, from, to), sep) == text::split(s, sep).map_values(replacing_references(from, to)),
    decreases s.len(),
{
    let each = replacing_references(from, to);
    let none = Seq::<char>::empty();
    text::lemma_split_nonempty(s, sep);
    if s.len() == 0 {
        assert(s =~= none);
        assert(text::split(s, sep).map_values(each) =~= seq![none]);
    } else if environment::starts_with_reference(s, from) {
        let rest = s.skip(from.len() as int);
        let more = environment::references_replaced(rest, from, to);
        lemma_references_by_pieces(rest, from, to, sep);
        text::lemma_split_nonempty(rest, sep);
        let pieces = text::split(rest, sep);
        assert(from + rest =~= s);
        lemma_split_start(from, rest, sep);
        lemma_split_start(to, more, sep);
        let first = from + pieces[0];
        assert(first.subrange(0, from.len() as int) =~= from);
        assert(first.skip(from.len() as int) =~= pieces[0]);
        lemma_first_piece(rest, sep);
        if pieces[0].len() > 0 {
            assert(rest.subrange(0, pieces[0].len() as int)[0] == pieces[0][0]);
            assert(s[from.len() as int] == rest[0]);
        }
        assert(each(first) == to + each(pieces[0]));
        assert(text::split(to + more, sep) =~= text::split(s, sep).map_values(each));
    } else {
        let c = s[0];
        let rest = s.drop_first();
        let more = environment::references_replaced(rest, from, to);
        lemma_references_by_pieces(rest, from, to, sep);
        text::lemma_split_nonempty(rest, sep);
        let pieces = text::split(rest, sep);
        assert(seq![c] + rest =~= s);
        if c == sep {
            assert(seq![c].drop_last() =~= none);
            assert(text::split(none, sep) == seq![none]);
            assert(text::split(seq![c], sep) =~= seq![none, none]);
            text::lemma_split_add(seq![c], rest, sep);
            text::lemma_split_add(seq![c], more, sep);
            assert(seq![none, none].drop_last() =~= seq![none]);
            assert(none + pieces[0] =~= pieces[0]);
            assert(none + text::split(more, sep)[0] =~= text::split(more, sep)[0]);
            assert(text::split(s, sep) =~= seq![none] + pieces);
            assert(text::split(seq![c] + more, sep) =~= seq![none] + text::split(more, sep));
            assert(text::split(seq![c] + more, sep) =~= text::split(s, sep).map_values(each));
        } else {
            lemma_split_start(seq![c], rest, sep);
            lemma_split_start(seq![c], more, sep);
            lemma_first_piece(rest, sep);
            let first = seq![c] + pieces[0];
            assert(!environment::starts_with_reference(first, from)) by {
                if environment::starts_with_reference(first, from) {
                    let n = pieces[0].len() as int;
                    lemma_first_ends(rest, sep);
                    if first.len() == from.len() && s.len() > from.len() {
                        assert(s[from.len() as int] == rest[n]);
                    } else if first.len() > from.len() {
                        assert(rest.subrange(0, n)[from.len() - 1] == pieces[0][from.len() - 1]);
                        assert(s[from.len() as int] == first[from.len() as int]);
                    }
                    assert(first.subrange(0, from.len() as int) =~= s.subrange(0, from.len() as int)) by {
                        assert(pieces[0] == rest.subrange(0, pieces[0].len() as int));
                    }
                }
            }
            assert(first.drop_first() =~= pieces[0]);
            assert(each(first) == seq![c] + each(pieces[0]));
            assert(text::split(seq![c] + more, sep) =~= text::split(s, sep).map_values(each));
        }
    }
}

// ---------------------------------------------------------------------------
// What stands before the first colon of a line
// ---------------------------------------------------------------------------

/// Whether the first colon of a line is here.
pub open spec fn first_colon(line: Seq<char>, n: int) -> bool {
    0 <= n < line.len() && line[n] == ':' && !line.take(n).contains(':')
}

/// Whether a line is kept up to its first colon; one without a colon is kept altogether.
pub open spec fn keeps_start(line: Seq<char>, new: Seq<char>) -> bool {
    &&& !line.contains(':') ==> new == line
    &&& forall|n: int| #[trigger] first_colon(line, n) ==> line.take(n + 1).is_prefix_of(new)
}

/// Whether a text does not stand before the first colon of a line, or anywhere in one without.
pub open spec fn starts_without(line: Seq<char>, part: Seq<char>) -> bool {
    &&& !line.contains(':') ==> !text::has_part(line, part)
    &&& forall|n: int| #[trigger] first_colon(line, n) ==> !text::has_part(line.take(n), part)
}

proof fn lemma_has_first_colon(line: Seq<char>) -> (n: int)
    requires
        line.contains(':'),
    ensures
        first_colon(line, n),
    decreases line.len(),
{
    let k = choose|k: int| 0 <= k < line.len() && line[k] == ':';
    if line.take(k).contains(':') {
        let n = lemma_has_first_colon(line.take(k));
        assert(line.take(k).take(n) =~= line.take(n));
        n
    } else {
        k
    }
}

/// There is but one first colon.
proof fn lemma_same_first_colon(a: Seq<char>, b: Seq<char>, n: int, m: int)
    requires
        first_colon(a, n),
        a.take(n + 1).is_prefix_of(b),
        first_colon(b, m),
    ensures
        n == m,
        a.take(n) == b.take(n),
{
    assert(b.subrange(0, n + 1) == a.take(n + 1));
    assert(a.take(n) =~= b.take(n)) by {
        assert forall|i: int| 0 <= i < n implies a[i] == b[i] by {
            assert(b.subrange(0, n + 1)[i] == a.take(n + 1)[i]);
        }
    }
    assert(b[n] == ':') by {
        assert(b.subrange(0, n + 1)[n] == a.take(n + 1)[n]);
    }
    if m < n {
        assert(a.take(n)[m] == b.take(n)[m]);
        assert(a.take(n).contains(':'));
    }
    if n < m {
        assert(b.take(m)[n] == ':');
        assert(b.take(m).contains(':'));
    }
}

proof fn lemma_keeps_itself(line: Seq<char>)
    ensures
        keeps_start(line, line),
{
    assert forall|n: int| #[trigger] first_colon(line, n) implies line.take(n + 1).is_prefix_of(line) by {
        assert(line.subrange(0, n + 1) =~= line.take(n + 1));
    }
}

/// The new line has its first colon where the old one has.
proof fn lemma_kept_colon(a: Seq<char>, b: Seq<char>, n: int)
    requires
        keeps_start(a, b),
        first_colon(a, n),
    ensures
        first_colon(b, n),
        a.take(n) == b.take(n),
        a.take(n + 1) == b.take(n + 1),
{
    assert(a.take(n + 1).is_prefix_of(b));
    assert(b.subrange(0, n + 1) =~= b.take(n + 1));
    assert(b[n] == b.take(n + 1)[n]);
    assert(a.take(n) =~= a.take(n + 1).take(n));
    assert(b.take(n) =~= b.take(n + 1).take(n));
}

proof fn lemma_keeps_on(a: Seq<char>, b: Seq<char>, c: Seq<char>)
    requires
        keeps_start(a, b),
        keeps_start(b, c),
    ensures
        keeps_start(a, c),
{
    assert forall|n: int| #[trigger] first_colon(a, n) implies a.take(n + 1).is_prefix_of(c) by {
        lemma_kept_colon(a, b, n);
        assert(b.take(n + 1).is_prefix_of(c));
    }
}

/// What is not before the first colon of one of two such lines is not before that of the other.
proof fn lemma_without_in_both(a: Seq<char>, b: Seq<char>, part: Seq<char>)
    requires
        keeps_start(a, b),
    ensures
        starts_without(a, part) == starts_without(b, part),
{
    if a.contains(':') {
        let n = lemma_has_first_colon(a);
        lemma_kept_colon(a, b, n);
        assert(b.contains(':'));
        if starts_without(a, part) {
            assert forall|m: int| #[trigger] first_colon(b, m) implies !text::has_part(b.take(m), part) by {
                lemma_same_first_colon(a, b, n, m);
            }
        }
        if starts_without(b, part) {
            assert forall|m: int| #[trigger] first_colon(a, m) implies !text::has_part(a.take(m), part) by {
                lemma_kept_colon(a, b, m);
            }
        }
    } else {
        assert(a == b);
    }
}

/// The first colon of what follows the first character.
proof fn lemma_colon_behind(s: Seq<char>, n: int)
    requires
        first_colon(s, n),
        n > 0,
    ensures
        first_colon(s.drop_first(), n - 1),
        s.take(n) == seq![s[0]] + s.drop_first().take(n - 1),
        s.take(n + 1) == seq![s[0]] + s.drop_first().take(n),
{
    let rest = s.drop_first();
    assert(s.take(n) =~= seq![s[0]] + rest.take(n - 1));
    assert(s.take(n + 1) =~= seq![s[0]] + rest.take(n));
    let before = rest.take(n - 1);
    if before.contains(':') {
        let k = choose|k: int| 0 <= k < before.len() && before[k] == ':';
        assert(s.take(n)[k + 1] == ':');
    }
}

/// Replacing what follows the same start and a colon keeps what stands before colons.
proof fn lemma_references_keep(s: Seq<char>, head: Seq<char>, x: Seq<char>, y: Seq<char>)
    requires
        !head.contains(':'),
    ensures
        keeps_start(s, environment::references_replaced(s, head + seq![':'] + x, head + seq![':'] + y)),
    decreases s.len(),
{
    let from = head + seq![':'] + x;
    let to = head + seq![':'] + y;
    let new = environment::references_replaced(s, from, to);
    let h = head.len() as int;
    assert(from[h] == ':');
    if s.len() == 0 {
        assert(new =~= s);
    } else if environment::starts_with_reference(s, from) {
        assert(s.subrange(0, from.len() as int)[h] == ':');
        assert(s.contains(':'));
        assert(first_colon(s, h)) by {
            assert forall|i: int| 0 <= i < h implies s.take(h)[i] == head[i] by {
                assert(s.subrange(0, from.len() as int)[i] == from[i]);
            }
            assert(s.take(h) =~= head);
        }
        assert forall|n: int| #[trigger] first_colon(s, n) implies s.take(n + 1).is_prefix_of(new) by {
            assert(s.subrange(0, h + 1) =~= s.take(h + 1));
            lemma_same_first_colon(s, s, h, n);
            assert forall|i: int| 0 <= i < h + 1 implies s[i] == new[i] by {
                assert(s.subrange(0, from.len() as int)[i] == from[i]);
            }
            assert(s.take(h + 1) =~= new.subrange(0, h + 1));
        }
    } else {
        let rest = s.drop_first();
        let more = environment::references_replaced(rest, from, to);
        lemma_references_keep(rest, head, x, y);
        assert(seq![s[0]] + rest =~= s);
        if !s.contains(':') {
            if rest.contains(':') {
                let k = choose|k: int| 0 <= k < rest.len() && rest[k] == ':';
                assert(s[k + 1] == ':');
            }
        }
        lemma_start_behind(s, more);
    }
}

/// A line is kept up to its first colon where what follows its first character is.
proof fn lemma_start_behind(s: Seq<char>, more: Seq<char>)
    requires
        s.len() > 0,
        s[0] == ':' || keeps_start(s.drop_first(), more),
    ensures
        keeps_start(s, seq![s[0]] + more),
{
    let rest = s.drop_first();
    let new = seq![s[0]] + more;
    assert(seq![s[0]] + rest =~= s);
    if !s.contains(':') {
        assert(s.contains(s[0]));
        if rest.contains(':') {
            let k = choose|k: int| 0 <= k < rest.len() && rest[k] == ':';
            assert(s[k + 1] == ':');
        }
    }
    assert forall|n: int| #[trigger] first_colon(s, n) implies s.take(n + 1).is_prefix_of(new) by {
        if n == 0 {
            assert(s.take(1) =~= new.subrange(0, 1));
        } else {
            if s[0] == ':' {
                assert(s.take(n)[0] == ':');
                assert(s.take(n).contains(':'));
            }
            lemma_colon_behind(s, n);
            assert(rest.take(n).is_prefix_of(more));
            assert(s.take(n + 1) =~= new.subrange(0, n + 1)) by {
                assert(rest.take(n) == more.subrange(0, n));
            }
        }
    }
}

/// A part of what follows the first character is a part.
proof fn lemma_part_behind(c: char, rest: Seq<char>, part: Seq<char>)
    requires
        text::has_part(rest, part),
    ensures
        text::has_part(seq![c] + rest, part),
{
    let at = choose|at: int| text::occurs_at(rest, part, at);
    let s = seq![c] + rest;
    assert(s.subrange(at + 1, at + 1 + part.len()) =~= rest.subrange(at, at + part.len()));
    assert(text::occurs_at(s, part, at + 1));
}

/// Replacing what holds no colon and does not stand before the first one keeps what does.
proof fn lemma_markers_keep(s: Seq<char>, from: Seq<char>, to: Seq<char>)
    requires
        from.len() > 0,
        !from.contains(':'),
        starts_without(s, from),
    ensures
        keeps_start(s, text::replaced(s, from, to)),
    decreases s.len(),
{
    let rest = s.drop_first();
    if s.len() == 0 {
        assert(text::replaced(s, from, to) =~= s);
    } else if s[0] == ':' {
        assert(s.subrange(0, 1)[0] == ':');
        if from.is_prefix_of(s) {
            assert(s.subrange(0, from.len() as int)[0] == from[0]);
            assert(from.contains(from[0]));
        }
        lemma_start_behind(s, text::replaced(rest, from, to));
    } else {
        assert(seq![s[0]] + rest =~= s);
        if from.is_prefix_of(s) {
            assert(s.subrange(0, from.len() as int) == from);
            if s.contains(':') {
                let n = lemma_has_first_colon(s);
                if n < from.len() {
                    assert(from[n] == s.subrange(0, from.len() as int)[n]);
                    assert(from.contains(':'));
                }
                assert(s.take(n).subrange(0, from.len() as int) =~= from);
                assert(text::occurs_at(s.take(n), from, 0));
            } else {
                assert(text::occurs_at(s, from, 0));
            }
            assert(false);
        }
        assert(starts_without(rest, from)) by {
            if !rest.contains(':') && text::has_part(rest, from) {
                assert(!s.contains(':')) by {
                    if s.contains(':') {
                        let k = choose|k: int| 0 <= k < s.len() && s[k] == ':';
                        assert(rest[k - 1] == ':');
                    }
                }
                lemma_part_behind(s[0], rest, from);
            }
            assert forall|n: int| #[trigger] first_colon(rest, n) implies !text::has_part(rest.take(n), from) by {
                assert(s.take(n + 1) =~= seq![s[0]] + rest.take(n));
                assert(first_colon(s, n + 1)) by {
                    let before = s.take(n + 1);
                    if before.contains(':') {
                        let k = choose|k: int| 0 <= k < before.len() && before[k] == ':';
                        assert(rest.take(n)[k - 1] == ':');
                        assert(rest.take(n).contains(':'));
                    }
                }
                if text::has_part(rest.take(n), from) {
                    lemma_part_behind(s[0], rest.take(n), from);
                }
            }
        }
        lemma_markers_keep(rest, from, to);
        lemma_start_behind(s, text::replaced(rest, from, to));
    }
}

// ---------------------------------------------------------------------------
// Values of lines
// ---------------------------------------------------------------------------

/// A prefix without a colon lies before the colon.
proof fn lemma_prefix_before_colon(part: Seq<char>, start: Seq<char>, end: Seq<char>)
    requires
        !part.contains(':'),
        end.len() > 0,
        end[0] == ':',
    ensures
        text::after_prefix(start + end, part) == match text::after_prefix(start, part) {
            Some(rest) => Some(rest + end),
            None => None,
        },
{
    let s = start + end;
    if part.is_prefix_of(start) {
        assert(s.subrange(0, part.len() as int) =~= start.subrange(0, part.len() as int));
        assert(s.skip(part.len() as int) =~= start.skip(part.len() as int) + end);
    } else if part.is_prefix_of(s) {
        if part.len() > start.len() {
            assert(part[start.len() as int] == s.subrange(0, part.len() as int)[start.len() as int]);
            assert(part.contains(':'));
        }
        assert(s.subrange(0, part.len() as int) =~= start.subrange(0, part.len() as int));
    }
}

proof fn lemma_trim_before_colon(start: Seq<char>, end: Seq<char>)
    requires
        end.len() > 0,
        end[0] == ':',
    ensures
        text::trimmed_start(start + end) == text::trimmed_start(start) + end,
    decreases start.len(),
{
    let s = start + end;
    assert(!text::white(':'));
    if start.len() == 0 {
        assert(s =~= end);
        assert(text::trimmed_start(start) =~= start);
        assert(s[0] == ':');
    } else if text::white(start[0]) {
        assert(s.drop_first() =~= start.drop_first() + end);
        lemma_trim_before_colon(start.drop_first(), end);
    } else {
        assert(s[0] == start[0]);
    }
}

/// White space is all that trimming takes away.
proof fn lemma_trimmed_keeps(s: Seq<char>, c: char)
    requires
        s.contains(c),
        !text::white(c),
    ensures
        text::trimmed(s).contains(c),
{
    lemma_trim_start_keeps(s, c);
    lemma_trim_end_keeps(text::trimmed_start(s), c);
}

proof fn lemma_trim_start_keeps(s: Seq<char>, c: char)
    requires
        s.contains(c),
        !text::white(c),
    ensures
        text::trimmed_start(s).contains(c),
    decreases s.len(),
{
    let k = choose|k: int| 0 <= k < s.len() && s[k] == c;
    if text::white(s[0]) {
        assert(s.drop_first()[k - 1] == c);
        lemma_trim_start_keeps(s.drop_first(), c);
    }
}

proof fn lemma_trim_end_keeps(s: Seq<char>, c: char)
    requires
        s.contains(c),
        !text::white(c),
    ensures
        text::trim_end_by(s, |c: char| text::white(c)).contains(c),
    decreases s.len(),
{
    let k = choose|k: int| 0 <= k < s.len() && s[k] == c;
    if text::white(s.last()) {
        assert(s.drop_last()[k] == c);
        lemma_trim_end_keeps(s.drop_last(), c);
    }
}

/// Whether a line gives a variable a value shows before the first colon; what follows the colon is
/// part of the value.
proof fn lemma_value_before_colon(key: Seq<char>, start: Seq<char>, end: Seq<char>)
    requires
        config::is_variable(key),
        end.len() > 0,
        end[0] == ':',
    ensures
        environment::line_value(key)(start + end) is Some == environment::line_value(key)(start) is Some,
        environment::line_value(key)(start + end) matches Some(value) ==> value.contains(':'),
{
    reveal_strlit("export ");
    reveal_strlit("=");
    assert(!"export "@.contains(':'));
    assert(!"="@.contains(':'));
    assert(!key.contains(':')) by {
        if key.contains(':') {
            let k = choose|k: int| 0 <= k < key.len() && key[k] == ':';
            assert(key[k] == '_' || text::is_ascii_alphanumeric(key[k]));
        }
    }
    lemma_trim_before_colon(start, end);
    let trimmed = text::trimmed_start(start);
    lemma_prefix_before_colon("export "@, trimmed, end);
    let bare = match text::after_prefix(trimmed, "export "@) {
        Some(rest) => rest,
        None => trimmed,
    };
    lemma_prefix_before_colon(key, bare, end);
    if let Some(rest) = text::after_prefix(bare, key) {
        lemma_prefix_before_colon("="@, rest, end);
        if let Some(value) = text::after_prefix(rest, "="@) {
            assert((value + end)[value.len() as int] == ':');
            assert(!text::white(':'));
            lemma_trimmed_keeps(value + end, ':');
        }
    }
}

/// A line that is kept up to its first colon gives a variable a value where it gave it one, and the
/// same one where that holds no colon.
proof fn lemma_kept_value(key: Seq<char>, line: Seq<char>, new: Seq<char>)
    requires
        config::is_variable(key),
        keeps_start(line, new),
    ensures
        environment::line_value(key)(line) is Some == environment::line_value(key)(new) is Some,
        environment::line_value(key)(line) matches Some(value) ==> !value.contains(':') ==> new == line,
{
    if line.contains(':') {
        let n = lemma_has_first_colon(line);
        lemma_kept_colon(line, new, n);
        assert(line.take(n) + line.skip(n) =~= line);
        assert(new.take(n) + new.skip(n) =~= new);
        lemma_value_before_colon(key, line.take(n), line.skip(n));
        lemma_value_before_colon(key, new.take(n), new.skip(n));
    }
}

// ---------------------------------------------------------------------------
// Whole texts
// ---------------------------------------------------------------------------

/// Whether every line of a text is kept up to its first colon.
pub open spec fn lines_kept(before: Seq<Seq<char>>, after: Seq<Seq<char>>) -> bool {
    &&& before.len() == after.len()
    &&& forall|i: int| 0 <= i < before.len() ==> keeps_start(#[trigger] before[i], after[i])
}

/// Lines that are kept so give a variable the value that they gave it, where it holds no colon.
proof fn lemma_kept_values(key: Seq<char>, before: Seq<Seq<char>>, after: Seq<Seq<char>>)
    requires
        config::is_variable(key),
        lines_kept(before, after),
        model::first_some(before, environment::line_value(key)) matches Some(value) ==> !value.contains(':'),
    ensures
        model::first_some(after, environment::line_value(key)) == model::first_some(
            before,
            environment::line_value(key),
        ),
    decreases before.len(),
{
    if before.len() > 0 {
        assert(keeps_start(before[0], after[0]));
        lemma_kept_value(key, before[0], after[0]);
        if environment::line_value(key)(before[0]) is None {
            let a = before.drop_first();
            let b = after.drop_first();
            assert forall|i: int| 0 <= i < a.len() implies keeps_start(#[trigger] a[i], b[i]) by {
                assert(keeps_start(before[i + 1], after[i + 1]));
            }
            lemma_kept_values(key, a, b);
        }
    }
}

proof fn lemma_lines_kept_on(a: Seq<Seq<char>>, b: Seq<Seq<char>>, c: Seq<Seq<char>>)
    requires
        lines_kept(a, b),
        lines_kept(b, c),
    ensures
        lines_kept(a, c),
{
    assert forall|i: int| 0 <= i < a.len() implies keeps_start(#[trigger] a[i], c[i]) by {
        assert(keeps_start(b[i], c[i]));
        lemma_keeps_on(a[i], b[i], c[i]);
    }
}

/// A piece stands in the text, the last one at its end.
proof fn lemma_piece_is_part(s: Seq<char>, sep: char, k: int, part: Seq<char>)
    requires
        0 <= k < text::split(s, sep).len(),
        text::has_part(text::split(s, sep)[k], part),
    ensures
        text::has_part(s, part),
    decreases s.len(),
{
    let pieces = text::split(s, sep);
    if s.len() == 0 {
        assert(pieces[k] =~= s);
    } else {
        let init = s.drop_last();
        let before = text::split(init, sep);
        text::lemma_split_nonempty(init, sep);
        if k < pieces.len() - 1 {
            assert(pieces[k] == before[k]);
            lemma_piece_is_part(init, sep, k, part);
            let at = choose|at: int| text::occurs_at(init, part, at);
            assert(init.subrange(at, at + part.len()) =~= s.subrange(at, at + part.len()));
            assert(text::occurs_at(s, part, at));
        } else {
            lemma_last_piece(s, sep);
            let at = choose|at: int| text::occurs_at(pieces[k], part, at);
            let from = s.len() - pieces[k].len();
            assert(pieces[k].subrange(at, at + part.len()) =~= s.subrange(from + at, from + at + part.len()));
            assert(text::occurs_at(s, part, from + at));
        }
    }
}

proof fn lemma_last_piece(s: Seq<char>, sep: char)
    ensures
        text::split(s, sep).last().len() <= s.len(),
        s.skip(s.len() - text::split(s, sep).last().len()) == text::split(s, sep).last(),
    decreases s.len(),
{
    text::lemma_split_nonempty(s, sep);
    let last = text::split(s, sep).last();
    if s.len() > 0 {
        let init = s.drop_last();
        lemma_last_piece(init, sep);
        if s.last() == sep {
            assert(s.skip(s.len() as int) =~= Seq::empty());
        } else {
            let before = text::split(init, sep).last();
            assert(s.skip(s.len() - last.len()) =~= init.skip(init.len() - before.len()).push(s.last()));
        }
    } else {
        assert(s.skip(0) =~= last);
    }
}

proof fn lemma_no_character(n: nat, c: char)
    requires
        c == ':' || c == '\n',
    ensures
        !text::decimal(n).contains(c),
        !environment::marker(n).contains(c),
        environment::marker(n).len() > 0,
{
    reveal_strlit("__WT_ASSIGNED_PORT_");
    reveal_strlit("__");
    text::lemma_decimal(n);
    let d = text::decimal(n);
    let m = environment::marker(n);
    if d.contains(c) {
        let k = choose|k: int| 0 <= k < d.len() && d[k] == c;
        assert(text::is_ascii_digit(d[k]));
    }
    if m.contains(c) {
        let k = choose|k: int| 0 <= k < m.len() && m[k] == c;
        let start = "__WT_ASSIGNED_PORT_"@.len();
        if start <= k < start + d.len() {
            assert(m[k] == d[k - start]);
            assert(d.contains(c));
        } else if k >= start {
            assert(m[k] == "__"@[k - start - d.len()]);
        } else {
            assert(m[k] == "__WT_ASSIGNED_PORT_"@[k]);
        }
    }
}

/// Marking the references to one port under one name of this machine keeps lines up to their first
/// colon.
proof fn lemma_port_marked(s: Seq<char>, host: Seq<char>, port: nat, index: nat)
    requires
        host.len() > 0,
        host.last() == ':',
        !host.drop_last().contains(':'),
        !host.contains('\n'),
    ensures
        lines_kept(
            text::split(s, '\n'),
            text::split(
                environment::references_replaced(s, host + text::decimal(port), host + environment::marker(index)),
                '\n',
            ),
        ),
{
    let head = host.drop_last();
    let x = text::decimal(port);
    let y = environment::marker(index);
    lemma_no_character(port, '\n');
    lemma_no_character(index, '\n');
    assert(host =~= head + seq![':']);
    let from = host + x;
    let to = host + y;
    lemma_concat_without(host, x, '\n');
    lemma_concat_without(host, y, '\n');
    lemma_references_by_pieces(s, from, to, '\n');
    let pieces = text::split(s, '\n');
    assert forall|i: int| 0 <= i < pieces.len() implies keeps_start(
        #[trigger] pieces[i],
        pieces.map_values(replacing_references(from, to))[i],
    ) by {
        lemma_references_keep(pieces[i], head, x, y);
    }
}

proof fn lemma_concat_without(a: Seq<char>, b: Seq<char>, c: char)
    requires
        !a.contains(c),
        !b.contains(c),
    ensures
        !(a + b).contains(c),
{
    let s = a + b;
    if s.contains(c) {
        let k = choose|k: int| 0 <= k < s.len() && s[k] == c;
        if k < a.len() {
            assert(a[k] == c);
        } else {
            assert(b[k - a.len()] == c);
        }
    }
}

/// Whether no line of a text holds one of the first markers before its first colon.
pub open spec fn lines_unmarked(lines: Seq<Seq<char>>, count: nat) -> bool {
    forall|i: int, j: nat|
        0 <= i < lines.len() && j < count ==> #[trigger] starts_without(lines[i], environment::marker(j))
}

proof fn lemma_marked_lines(contents: Seq<char>, assignments: Seq<AssignmentData>)
    requires
        environment::marked(contents, assignments) is Ok,
    ensures
        lines_kept(
            text::split(contents, '\n'),
            text::split(environment::marked(contents, assignments)->Ok_0, '\n'),
        ),
        lines_unmarked(text::split(contents, '\n'), assignments.len()),
    decreases assignments.len(),
{
    let lines = text::split(contents, '\n');
    if assignments.len() == 0 {
        assert forall|i: int| 0 <= i < lines.len() implies keeps_start(#[trigger] lines[i], lines[i]) by {
            lemma_keeps_itself(lines[i]);
        }
    } else {
        let init = assignments.drop_last();
        lemma_marked_lines(contents, init);
        let before = environment::marked(contents, init)->Ok_0;
        let pieces = text::split(before, '\n');
        let index = init.len();
        let mark = environment::marker(index);
        let port = assignments.last().original as nat;
        let once = environment::references_replaced(before, "localhost:"@ + text::decimal(port), "localhost:"@ + mark);
        reveal_strlit("localhost:");
        reveal_strlit("127.0.0.1:");
        lemma_port_marked(before, "localhost:"@, port, index);
        lemma_port_marked(once, "127.0.0.1:"@, port, index);
        let after = environment::marked(contents, assignments)->Ok_0;
        lemma_lines_kept_on(lines, pieces, text::split(once, '\n'));
        lemma_lines_kept_on(lines, text::split(once, '\n'), text::split(after, '\n'));
        assert forall|i: int, j: nat| 0 <= i < lines.len() && j < assignments.len() implies #[trigger] starts_without(
            lines[i],
            environment::marker(j),
        ) by {
            if j == index {
                assert(keeps_start(lines[i], pieces[i]));
                lemma_clean_piece(before, i, mark);
                lemma_without_in_both(lines[i], pieces[i], mark);
            }
        }
    }
}

/// The lines of a text in which a part does not stand start without it.
proof fn lemma_clean_piece(s: Seq<char>, i: int, part: Seq<char>)
    requires
        0 <= i < text::split(s, '\n').len(),
        !text::has_part(s, part),
    ensures
        starts_without(text::split(s, '\n')[i], part),
{
    let line = text::split(s, '\n')[i];
    if text::has_part(line, part) {
        lemma_piece_is_part(s, '\n', i, part);
    }
    assert forall|n: int| #[trigger] first_colon(line, n) implies !text::has_part(line.take(n), part) by {
        if text::has_part(line.take(n), part) {
            let at = choose|at: int| text::occurs_at(line.take(n), part, at);
            assert(line.take(n).subrange(at, at + part.len()) =~= line.subrange(at, at + part.len()));
            assert(text::occurs_at(line, part, at));
        }
    }
}

proof fn lemma_unmarked_lines(lines: Seq<Seq<char>>, contents: Seq<char>, assignments: Seq<AssignmentData>)
    requires
        lines_kept(lines, text::split(contents, '\n')),
        lines_unmarked(lines, assignments.len()),
    ensures
        lines_kept(lines, text::split(environment::unmarked(contents, assignments), '\n')),
    decreases assignments.len(),
{
    if assignments.len() > 0 {
        let init = assignments.drop_last();
        lemma_unmarked_lines(lines, contents, init);
        let before = environment::unmarked(contents, init);
        let pieces = text::split(before, '\n');
        let index = init.len();
        let mark = environment::marker(index);
        let number = text::decimal(assignments.last().assigned as nat);
        lemma_no_character(index, '\n');
        lemma_no_character(index, ':');
        lemma_no_character(assignments.last().assigned as nat, '\n');
        lemma_replaced_by_pieces(before, mark, number, '\n');
        let after = pieces.map_values(replacing(mark, number));
        assert forall|i: int| 0 <= i < lines.len() implies keeps_start(#[trigger] lines[i], after[i]) by {
            assert(keeps_start(lines[i], pieces[i]));
            assert(starts_without(lines[i], environment::marker(index)));
            lemma_without_in_both(lines[i], pieces[i], mark);
            lemma_markers_keep(pieces[i], mark, number);
            lemma_keeps_on(lines[i], pieces[i], after[i]);
        }
    }
}

/// Rewriting references changes no variable whose value holds no colon, and gives none a value that
/// had none.
pub proof fn references_keep_plain_values(contents: Seq<char>, assignments: Seq<AssignmentData>, key: Seq<char>)
    requires
        config::is_variable(key),
        environment::value_in(contents, key) matches Some(value) ==> !value.contains(':'),
    ensures
        environment::references_rewritten(contents, assignments) matches Ok(new) ==> environment::value_in(new, key)
            == environment::value_in(contents, key),
{
    if environment::references_rewritten(contents, assignments) is Ok {
        let marked = environment::marked(contents, assignments)->Ok_0;
        let new = environment::unmarked(marked, assignments);
        let lines = text::split(contents, '\n');
        lemma_marked_lines(contents, assignments);
        lemma_unmarked_lines(lines, marked, assignments);
        environment_laws::lemma_value_by_pieces(contents, key);
        environment_laws::lemma_value_by_pieces(new, key);
        lemma_kept_values(key, lines, text::split(new, '\n'));
    }
}

/// Every variable of an env file that a port was leased for holds that port in the new worktree,
/// where no variable is leased twice; in a file that is given the name of the Compose project, too.
pub proof fn prepared_variables_hold_their_ports(
    settings: config::Settings,
    file: (Seq<char>, Seq<char>),
    assignments: Seq<AssignmentData>,
    compose_name: Seq<char>,
    i: int,
)
    requires
        0 <= i < assignments.len(),
        forall|j: int| 0 <= j < assignments.len() ==> config::is_variable((#[trigger] assignments[j]).key),
        forall|j: int| 0 <= j < assignments.len() && j != i ==> (#[trigger] assignments[j]).key != assignments[i].key,
        !assignments[i].process,
        assignments[i].key != "COMPOSE_PROJECT_NAME"@,
        environment::value_in(file.1, assignments[i].key) is Some,
        !compose_name.contains('\n'),
    ensures
        environment::prepared_file(settings, assignments, compose_name)(file) matches Ok(new) ==> new.0 == file.0
            && environment::value_in(new.1, assignments[i].key) == Some(
            text::decimal(assignments[i].assigned as nat),
        ),
{
    let key = assignments[i].key;
    let number = assignments[i].assigned as nat;
    let variables = environment::variables_rewritten(file.1, assignments);
    environment_laws::rewritten_variables_hold_their_ports(file.1, assignments, i);
    lemma_no_character(number, ':');
    references_keep_plain_values(variables, assignments, key);
    if let Ok(contents) = environment::rewritten(file.1, assignments) {
        environment_laws::lemma_project_variable();
        environment_laws::setting_keeps_other_values(contents, "COMPOSE_PROJECT_NAME"@, compose_name, key);
    }
}

} // verus!
