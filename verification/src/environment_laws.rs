//! What holds of env files as they are rewritten: values that were set read back, and the rest
//! stays as it was.

use vstd::prelude::*;

use crate::config;
use crate::environment;
use crate::model;
use crate::paths;
use crate::ports;
use crate::ports::{AssignmentData, Progress, RequestData};
use crate::process::Output;
use crate::text;

verus! {

// ---------------------------------------------------------------------------
// Lines
// ---------------------------------------------------------------------------

/// Pieces without the separator, joined with it, are the pieces again.
pub proof fn joined_pieces_are_split_again(list: Seq<Seq<char>>, sep: char)
    requires
        list.len() > 0,
        forall|i: int| 0 <= i < list.len() ==> !(#[trigger] list[i]).contains(sep),
    ensures
        text::split(text::joined(list, seq![sep]), sep) == list,
    decreases list.len(),
{
    let last = list[list.len() - 1];
    if list.len() == 1 {
        let none = Seq::<char>::empty();
        assert(text::split(none, sep) == seq![none]);
        text::lemma_split_extend(none, last, sep);
        assert(none + last =~= last);
        assert(seq![none].drop_last().push(last) =~= list);
    } else {
        let init = list.drop_last();
        assert forall|i: int| 0 <= i < init.len() implies !(#[trigger] init[i]).contains(sep) by {
            assert(init[i] == list[i]);
        }
        joined_pieces_are_split_again(init, sep);
        let front = text::joined(init, seq![sep]);
        let ended = front + seq![sep];
        assert(ended.drop_last() =~= front);
        assert(text::split(ended, sep) == init.push(Seq::<char>::empty()));
        text::lemma_split_extend(ended, last, sep);
        assert(init.push(Seq::<char>::empty()).drop_last() =~= init);
        assert(Seq::<char>::empty() + last =~= last);
        assert(init.push(last) =~= list);
    }
}

proof fn lemma_first_some_same<A, B>(s: Seq<A>, t: Seq<A>, f: spec_fn(A) -> Option<B>)
    requires
        s.len() == t.len(),
        forall|i: int| 0 <= i < s.len() ==> f(#[trigger] s[i]) == f(t[i]),
    ensures
        model::first_some(s, f) == model::first_some(t, f),
    decreases s.len(),
{
    if s.len() > 0 {
        let a = s.drop_first();
        let b = t.drop_first();
        assert(f(s[0]) == f(t[0]));
        assert forall|i: int| 0 <= i < a.len() implies f(#[trigger] a[i]) == f(b[i]) by {
            assert(f(s[i + 1]) == f(t[i + 1]));
        }
        lemma_first_some_same(a, b, f);
    }
}

proof fn lemma_trim_start_push(s: Seq<char>, c: char)
    requires
        text::white(c),
    ensures
        text::trimmed_start(s.push(c)) == if text::trimmed_start(s).len() == 0 {
            Seq::empty()
        } else {
            text::trimmed_start(s).push(c)
        },
    decreases s.len(),
{
    reveal_with_fuel(text::trim_start_by, 2);
    if s.len() > 0 && text::white(s[0]) {
        assert(s.push(c).drop_first() =~= s.drop_first().push(c));
        lemma_trim_start_push(s.drop_first(), c);
        assert(s.push(c)[0] == s[0]);
    } else if s.len() == 0 {
        assert(s.push(c)[0] == c);
        assert(s.push(c).drop_first() =~= Seq::empty());
    } else {
        assert(s.push(c)[0] == s[0]);
    }
}

proof fn lemma_trim_push(s: Seq<char>, c: char)
    requires
        text::white(c),
    ensures
        text::trimmed(s.push(c)) == text::trimmed(s),
{
    lemma_trim_start_push(s, c);
    let t = text::trimmed_start(s);
    if t.len() > 0 {
        assert(t.push(c).drop_last() =~= t);
    } else {
        assert(t =~= Seq::empty());
    }
}

proof fn lemma_prefix_push(part: Seq<char>, s: Seq<char>, c: char)
    requires
        !part.contains(c),
    ensures
        part.is_prefix_of(s.push(c)) == part.is_prefix_of(s),
        part.is_prefix_of(s) ==> s.push(c).skip(part.len() as int) == s.skip(part.len() as int).push(c),
{
    if part.is_prefix_of(s) {
        assert(s.push(c).subrange(0, part.len() as int) =~= s.subrange(0, part.len() as int));
        assert(s.push(c).skip(part.len() as int) =~= s.skip(part.len() as int).push(c));
    }
    if part.is_prefix_of(s.push(c)) {
        if part.len() == s.len() + 1 {
            assert(s.push(c).subrange(0, part.len() as int)[s.len() as int] == c);
            assert(part[s.len() as int] == c);
        } else {
            assert(s.push(c).subrange(0, part.len() as int) =~= s.subrange(0, part.len() as int));
        }
    }
}

/// A carriage return at the end of a line does not matter to its value.
proof fn lemma_line_return(key: Seq<char>, line: Seq<char>)
    requires
        config::is_variable(key),
    ensures
        environment::line_value(key)(text::without_return(line)) == environment::line_value(key)(line),
{
    if line.len() > 0 && line.last() == '\r' {
        reveal_strlit("export ");
        reveal_strlit("=");
        let l = line.drop_last();
        assert(line =~= l.push('\r'));
        assert(text::white('\r'));
        lemma_trim_start_push(l, '\r');
        let t = text::trimmed_start(l);
        assert(!"export "@.contains('\r'));
        assert(!"="@.contains('\r'));
        assert(!key.contains('\r')) by {
            if key.contains('\r') {
                let k = choose|k: int| 0 <= k < key.len() && key[k] == '\r';
                assert(key[k] == '_' || text::is_ascii_alphanumeric(key[k]));
            }
        }
        if t.len() == 0 {
            assert(t =~= Seq::empty());
        } else {
            lemma_prefix_push("export "@, t, '\r');
            let bare = match text::after_prefix(t, "export "@) {
                Some(rest) => rest,
                None => t,
            };
            lemma_prefix_push(key, bare, '\r');
            if key.is_prefix_of(bare) {
                let rest = bare.skip(key.len() as int);
                lemma_prefix_push("="@, rest, '\r');
                if "="@.is_prefix_of(rest) {
                    lemma_trim_push(rest.skip(1), '\r');
                }
            }
        }
    }
}

/// The value of a key, found piece by piece.
pub proof fn lemma_value_by_pieces(contents: Seq<char>, key: Seq<char>)
    requires
        config::is_variable(key),
    ensures
        environment::value_in(contents, key) == model::first_some(
            text::split(contents, '\n'),
            environment::line_value(key),
        ),
{
    let f = environment::line_value(key);
    text::lemma_split_nonempty(contents, '\n');
    let pieces = text::split(contents, '\n');
    let front = pieces.drop_last();
    let ended = front.map_values(|p: Seq<char>| text::without_return(p));
    assert forall|i: int| 0 <= i < ended.len() implies f(#[trigger] ended[i]) == f(front[i]) by {
        lemma_line_return(key, front[i]);
    }
    lemma_first_some_same(ended, front, f);
    assert(pieces =~= front.push(pieces.last()));
    model::first_some_push(front, pieces.last(), f);
    if pieces.last().len() == 0 {
        lemma_blank_line(key, pieces.last());
    } else {
        model::first_some_push(ended, pieces.last(), f);
    }
}

/// An empty line has no value.
proof fn lemma_blank_line(key: Seq<char>, line: Seq<char>)
    requires
        config::is_variable(key),
        line.len() == 0,
    ensures
        environment::line_value(key)(line) is None,
{
    reveal_strlit("export ");
    assert(text::trimmed_start(line) == line);
}

/// A line that sets a variable has the value that it sets, for that variable and for no other.
proof fn lemma_own_line(key: Seq<char>, value: Seq<char>, other: Seq<char>)
    requires
        config::is_variable(key),
        config::is_variable(other),
    ensures
        environment::line_value(other)(key + "="@ + value) == if other == key {
            Some(text::trimmed(value))
        } else {
            None
        },
{
    let line = key + "="@ + value;
    lemma_plain_line(key, line, other);
    reveal_strlit("=");
    assert(line.skip(key.len() as int) =~= "="@ + value);
    assert(("="@ + value).skip(1) =~= value);
}

/// The value on a line that starts with a variable and an equals sign.
proof fn lemma_plain_line(key: Seq<char>, line: Seq<char>, other: Seq<char>)
    requires
        config::is_variable(key),
        config::is_variable(other),
        (key + "="@).is_prefix_of(line),
    ensures
        environment::line_value(other)(line) == if other == key {
            Some(text::trimmed(line.skip(key.len() as int).skip(1)))
        } else {
            None
        },
        environment::bare(line) == line,
{
    reveal_strlit("export ");
    reveal_strlit("=");
    let start = key + "="@;
    let n = key.len() as int;
    assert forall|i: int| 0 <= i < n implies line[i] == key[i] by {
        assert(line.subrange(0, start.len() as int)[i] == start[i]);
    }
    assert(line[n] == '=') by {
        assert(line.subrange(0, start.len() as int)[n] == start[n]);
    }
    assert(key[0] == '_' || text::is_ascii_alphanumeric(key[0]));
    assert(!text::white(line[0]));
    assert(text::trimmed_start(line) == line);
    assert(!"export "@.is_prefix_of(line)) by {
        if "export "@.is_prefix_of(line) {
            assert forall|i: int| 0 <= i < 7 implies line[i] == "export "@[i] by {
                assert(line.subrange(0, 7)[i] == "export "@[i]);
            }
            if n >= 7 {
                assert(key[6] == ' ');
                assert(key[6] == '_' || text::is_ascii_alphanumeric(key[6]));
            } else {
                assert("export "@[n] == '=');
            }
        }
    }
    if other == key {
        assert(key =~= line.subrange(0, n));
        assert(line.skip(n)[0] == '=');
        assert("="@ =~= line.skip(n).subrange(0, 1));
    } else if other.is_prefix_of(line) {
        let m = other.len() as int;
        assert forall|i: int| 0 <= i < m implies line[i] == other[i] by {
            assert(line.subrange(0, m)[i] == other[i]);
        }
        if m > n {
            assert(other[n] == '=');
            assert(other[n] == '_' || text::is_ascii_alphanumeric(other[n]));
        } else if m == n {
            assert(other =~= key);
        } else {
            let rest = line.skip(m);
            assert(rest[0] == key[m]);
            assert(key[m] == '_' || text::is_ascii_alphanumeric(key[m]));
            assert(!"="@.is_prefix_of(rest)) by {
                if "="@.is_prefix_of(rest) {
                    assert(rest.subrange(0, 1)[0] == '=');
                }
            }
        }
    }
}

// ---------------------------------------------------------------------------
// Setting a value
// ---------------------------------------------------------------------------

/// How much white space a line starts with.
proof fn lemma_white_start(line: Seq<char>) -> (n: int)
    ensures
        0 <= n <= line.len(),
        forall|i: int| 0 <= i < n ==> text::white(#[trigger] line[i]),
        n < line.len() ==> !text::white(line[n]),
        text::trimmed_start(line) == line.skip(n),
    decreases line.len(),
{
    if line.len() > 0 && text::white(line[0]) {
        let n = lemma_white_start(line.drop_first());
        assert forall|i: int| 0 <= i < n + 1 implies text::white(#[trigger] line[i]) by {
            if i > 0 {
                assert(line[i] == line.drop_first()[i - 1]);
            }
        }
        assert(line.drop_first().skip(n) =~= line.skip(n + 1));
        n + 1
    } else {
        assert(line.skip(0) =~= line);
        0
    }
}

/// A line that gives a key a value: what stands in front of the key, the key, and the value.
proof fn lemma_key_on_line(line: Seq<char>, key: Seq<char>) -> (rest: Seq<char>)
    requires
        environment::line_value(key)(line) is Some,
    ensures
        environment::bare(line) == key + "="@ + rest,
        line == environment::before_variable(line) + key + "="@ + rest,
{
    reveal_strlit("export ");
    reveal_strlit("=");
    let bare = environment::bare(line);
    let rest = bare.skip(key.len() as int).skip(1);
    assert(bare =~= key + "="@ + rest) by {
        assert(bare.subrange(0, key.len() as int) == key);
        assert(bare.skip(key.len() as int).subrange(0, 1) == "="@);
        assert(bare =~= bare.subrange(0, key.len() as int) + bare.skip(key.len() as int));
        assert(bare.skip(key.len() as int) =~= bare.skip(key.len() as int).subrange(0, 1) + rest);
    }
    let n = lemma_white_start(line);
    let trimmed = line.skip(n);
    let front = environment::before_variable(line);
    if "export "@.is_prefix_of(trimmed) {
        assert(bare == trimmed.skip(7));
        assert(line =~= front + bare);
    } else {
        assert(line =~= front + bare);
    }
    assert(front + bare =~= front + key + "="@ + rest);
    rest
}

/// A line is bare behind what stands in front of its key, whatever its value.
proof fn lemma_bare_again(line: Seq<char>, key: Seq<char>, value: Seq<char>)
    requires
        environment::line_value(key)(line) is Some,
    ensures
        environment::bare(environment::before_variable(line) + key + "="@ + value) == key + "="@ + value,
{
    reveal_strlit("export ");
    reveal_strlit("=");
    let t = key + "="@ + value;
    let front = environment::before_variable(line);
    let new = front + key + "="@ + value;
    assert(new =~= front + t);
    let n = lemma_white_start(line);
    let trimmed = line.skip(n);
    let rest = lemma_key_on_line(line, key);
    assert forall|i: int| 0 <= i < n implies text::white(#[trigger] new[i]) by {
        assert(new[i] == line[i]);
    }
    text::lemma_trim_start_by(new, |c: char| text::white(c), n);
    if "export "@.is_prefix_of(trimmed) {
        assert(trimmed.subrange(0, 7) == "export "@);
        assert(front =~= line.take(n) + "export "@) by {
            assert(line.take(n + 7) =~= line.take(n) + trimmed.subrange(0, 7));
            assert(front.len() == n + 7);
        }
        assert(new.skip(n) =~= "export "@ + t);
        assert(new.skip(n)[0] == 'e');
        assert(text::trimmed_start(new) == new.skip(n));
        assert(("export "@ + t).subrange(0, 7) =~= "export "@);
        assert(("export "@ + t).skip(7) =~= t);
    } else {
        assert(front =~= line.take(n));
        assert(new.skip(n) =~= t);
        assert(trimmed == key + "="@ + rest);
        assert(t[0] == trimmed[0]);
        assert(!text::white(t[0]));
        assert(text::trimmed_start(new) == t);
        assert(!"export "@.is_prefix_of(t)) by {
            if "export "@.is_prefix_of(t) {
                assert forall|i: int| 0 <= i < 7 implies #[trigger] t[i] == "export "@[i] by {
                    assert(t.subrange(0, 7)[i] == "export "@[i]);
                }
                let k = key.len() as int;
                if k < 7 {
                    assert(t[k] == '=');
                    assert("export "@[k] == '=');
                } else {
                    assert(trimmed.subrange(0, 7) =~= "export "@) by {
                        assert forall|i: int| 0 <= i < 7 implies trimmed[i] == "export "@[i] by {
                            assert(t[i] == key[i]);
                        }
                    }
                }
            }
        }
    }
}

/// A line that gives a key a value, with a new one: it gives the new value.
proof fn lemma_own_line_with(key: Seq<char>, line: Seq<char>, value: Seq<char>)
    requires
        environment::line_value(key)(line) is Some,
    ensures
        environment::line_value(key)(environment::line_with(key, value)(line)) == Some(text::trimmed(value)),
{
    lemma_bare_again(line, key, value);
    reveal_strlit("=");
    let t = key + "="@ + value;
    assert(t.subrange(0, key.len() as int) =~= key);
    assert(t.skip(key.len() as int) =~= "="@ + value);
    assert(("="@ + value).subrange(0, 1) =~= "="@);
    assert(("="@ + value).skip(1) =~= value);
}

/// A line that gives a variable a value, with a new one: it gives the new value, to that variable
/// and to no other.
proof fn lemma_line_with(key: Seq<char>, line: Seq<char>, value: Seq<char>, other: Seq<char>)
    requires
        config::is_variable(key),
        config::is_variable(other),
        environment::line_value(key)(line) is Some,
    ensures
        environment::line_value(other)(environment::line_with(key, value)(line)) == if other == key {
            Some(text::trimmed(value))
        } else {
            None
        },
        other != key ==> environment::line_value(other)(line) is None,
{
    lemma_bare_again(line, key, value);
    lemma_own_line(key, value, other);
    lemma_bare_line(key, value);
    let rest = lemma_key_on_line(line, key);
    lemma_own_line(key, rest, other);
    lemma_bare_line(key, rest);
}

/// A line that starts with a variable and an equals sign is bare.
proof fn lemma_bare_line(key: Seq<char>, value: Seq<char>)
    requires
        config::is_variable(key),
    ensures
        environment::bare(key + "="@ + value) == key + "="@ + value,
{
    reveal_strlit("=");
    let t = key + "="@ + value;
    assert(t.subrange(0, key.len() as int + 1) =~= key + "="@);
    lemma_plain_line(key, t, key);
}

proof fn lemma_lines_have_no_breaks(contents: Seq<char>)
    ensures
        forall|i: int| 0 <= i < text::lines(contents).len() ==> !(#[trigger] text::lines(contents)[i]).contains('\n'),
{
    text::split_then_join(contents, '\n');
    text::lemma_split_nonempty(contents, '\n');
    let pieces = text::split(contents, '\n');
    let lines = text::lines(contents);
    assert forall|i: int| 0 <= i < lines.len() implies !(#[trigger] lines[i]).contains('\n') by {
        assert(!pieces[i].contains('\n'));
        if i < pieces.len() - 1 {
            assert(lines[i] == text::without_return(pieces[i]));
            if lines[i].contains('\n') {
                let k = choose|k: int| 0 <= k < lines[i].len() && lines[i][k] == '\n';
                assert(pieces[i][k] == '\n');
            }
        } else {
            assert(lines[i] == pieces.last());
        }
    }
}

proof fn lemma_variable_has_no_break(key: Seq<char>)
    requires
        config::is_variable(key),
    ensures
        !key.contains('\n'),
{
    if key.contains('\n') {
        let k = choose|k: int| 0 <= k < key.len() && key[k] == '\n';
        assert(key[k] == '_' || text::is_ascii_alphanumeric(key[k]));
    }
}

proof fn lemma_assignment_has_no_break(key: Seq<char>, value: Seq<char>)
    requires
        config::is_variable(key),
        !value.contains('\n'),
    ensures
        !(key + "="@ + value).contains('\n'),
{
    lemma_variable_has_no_break(key);
    reveal_strlit("=");
    let line = key + "="@ + value;
    if line.contains('\n') {
        let k = choose|k: int| 0 <= k < line.len() && line[k] == '\n';
        if k < key.len() {
            assert(key[k] == '\n');
        } else if k > key.len() {
            assert(value[k - key.len() - 1] == '\n');
        }
    }
}

/// A new value brings no character onto a line that is not in it.
proof fn lemma_line_with_without(key: Seq<char>, line: Seq<char>, value: Seq<char>, c: char)
    requires
        !line.contains(c),
        !value.contains(c),
        c != '=',
    ensures
        !environment::line_with(key, value)(line).contains(c),
{
    let new = environment::line_with(key, value)(line);
    if environment::line_value(key)(line) is Some && new.contains(c) {
        let front = environment::before_variable(line);
        let rest = lemma_key_on_line(line, key);
        reveal_strlit("=");
        let k = choose|k: int| 0 <= k < new.len() && new[k] == c;
        if k < front.len() + key.len() {
            assert(line[k] == c);
        } else if k > front.len() + key.len() {
            assert(value[k - front.len() - key.len() - 1] == c);
        }
    }
}

proof fn lemma_new_lines_have_no_breaks(contents: Seq<char>, key: Seq<char>, value: Seq<char>)
    requires
        !value.contains('\n'),
    ensures
        ({
            let list = text::lines(contents).map_values(environment::line_with(key, value));
            forall|i: int| 0 <= i < list.len() ==> !(#[trigger] list[i]).contains('\n')
        }),
{
    let lines = text::lines(contents);
    let list = lines.map_values(environment::line_with(key, value));
    lemma_lines_have_no_breaks(contents);
    assert forall|i: int| 0 <= i < list.len() implies !(#[trigger] list[i]).contains('\n') by {
        assert(!lines[i].contains('\n'));
        lemma_line_with_without(key, lines[i], value, '\n');
    }
}

/// What is found in the pieces of a replaced text is what is found on its lines.
proof fn lemma_replaced_pieces<B>(contents: Seq<char>, key: Seq<char>, value: Seq<char>, f: spec_fn(Seq<char>) -> Option<B>)
    requires
        !value.contains('\n'),
        f(Seq::empty()) is None,
    ensures
        model::first_some(text::split(environment::value_replaced(contents, key, value), '\n'), f) == model::first_some(
            text::lines(contents).map_values(environment::line_with(key, value)),
            f,
        ),
{
    let lines = text::lines(contents);
    let list = lines.map_values(environment::line_with(key, value));
    reveal_strlit("\n");
    assert("\n"@ =~= seq!['\n']);
    lemma_new_lines_have_no_breaks(contents, key, value);
    let whole = environment::value_replaced(contents, key, value);
    let body = text::joined(list, "\n"@);
    if list.len() > 0 {
        joined_pieces_are_split_again(list, '\n');
        assert(text::split(body, '\n') == list);
    } else {
        assert(text::split(body, '\n') == seq![Seq::<char>::empty()]);
        assert(seq![Seq::<char>::empty()] =~= list.push(Seq::<char>::empty()));
        model::first_some_push(list, Seq::<char>::empty(), f);
    }
    if contents.len() > 0 && contents.last() == '\n' {
        assert(whole.drop_last() =~= body);
        assert(text::split(whole, '\n') == text::split(body, '\n').push(Seq::<char>::empty()));
        model::first_some_push(text::split(body, '\n'), Seq::<char>::empty(), f);
    } else {
        assert(whole =~= body);
    }
}

/// The lines of a replaced text are the lines with the new value on them.
proof fn lemma_replaced_lines(contents: Seq<char>, key: Seq<char>, value: Seq<char>)
    requires
        !value.contains('\n'),
    ensures
        !contents.contains('\r') && !value.contains('\r') ==> text::lines(
            environment::value_replaced(contents, key, value),
        ) == text::lines(contents).map_values(environment::line_with(key, value)),
        environment::final_newline(environment::value_replaced(contents, key, value)) == environment::final_newline(
            contents,
        ),
{
    let none = Seq::<char>::empty();
    let lines = text::lines(contents);
    let list = lines.map_values(environment::line_with(key, value));
    let whole = environment::value_replaced(contents, key, value);
    let body = text::joined(list, "\n"@);
    reveal_strlit("\n");
    assert("\n"@ =~= seq!['\n']);
    lemma_new_lines_have_no_breaks(contents, key, value);
    let ended = contents.len() > 0 && contents.last() == '\n';
    if list.len() > 0 {
        joined_pieces_are_split_again(list, '\n');
    }
    text::lemma_split_nonempty(contents, '\n');
    let pieces = text::split(contents, '\n');
    if ended {
        text::lemma_split_nonempty(contents.drop_last(), '\n');
        assert(whole.drop_last() =~= body);
        assert(text::split(whole, '\n') == list.push(none));
        assert(list.push(none).drop_last() =~= list);
    } else {
        assert(whole =~= body);
        if contents.len() > 0 {
            assert(pieces.last().len() > 0);
            assert(lines.last() == pieces.last());
            assert(list.last().len() > 0) by {
                reveal_strlit("=");
                if environment::line_value(key)(lines.last()) is Some {
                    assert(list.last() == environment::before_variable(lines.last()) + key + "="@ + value);
                }
            }
            text::lemma_split_nonempty(body, '\n');
            if body.len() > 0 && body.last() == '\n' {
                assert(text::split(body, '\n').last().len() == 0);
            }
        }
    }
    if !contents.contains('\r') && !value.contains('\r') {
        assert forall|i: int| 0 <= i < list.len() implies text::without_return(#[trigger] list[i]) == list[i] by {
            lemma_no_return(contents, key, value, i);
        }
        let all = text::split(whole, '\n');
        if ended {
            assert(list.map_values(|p: Seq<char>| text::without_return(p)) =~= list);
        } else if list.len() > 0 {
            assert(all.drop_last().map_values(|p: Seq<char>| text::without_return(p)) =~= list.drop_last());
            assert(list.drop_last().push(list.last()) =~= list);
        } else {
            assert(text::lines(whole) =~= list);
        }
    }
}

/// No line holds a carriage return where neither the text nor the value does.
proof fn lemma_no_return(contents: Seq<char>, key: Seq<char>, value: Seq<char>, i: int)
    requires
        !contents.contains('\r'),
        !value.contains('\r'),
        0 <= i < text::lines(contents).len(),
    ensures
        !environment::line_with(key, value)(text::lines(contents)[i]).contains('\r'),
        text::without_return(environment::line_with(key, value)(text::lines(contents)[i])) == environment::line_with(
            key,
            value,
        )(text::lines(contents)[i]),
{
    let line = text::lines(contents)[i];
    let new = environment::line_with(key, value)(line);
    let pieces = text::split(contents, '\n');
    text::lemma_split_nonempty(contents, '\n');
    lemma_piece_characters(contents, '\n', i, '\r');
    if line.contains('\r') {
        let k = choose|k: int| 0 <= k < line.len() && line[k] == '\r';
        assert(pieces[i][k] == '\r');
    }
    lemma_line_with_without(key, line, value, '\r');
    if new.len() > 0 {
        assert(new.contains(new.last()));
    }
}

/// A piece holds characters of the text only.
proof fn lemma_piece_characters(s: Seq<char>, sep: char, k: int, c: char)
    requires
        0 <= k < text::split(s, sep).len(),
        !s.contains(c),
    ensures
        !text::split(s, sep)[k].contains(c),
    decreases s.len(),
{
    let piece = text::split(s, sep)[k];
    if s.len() > 0 && piece.contains(c) {
        let init = s.drop_last();
        text::lemma_split_nonempty(init, sep);
        let before = text::split(init, sep);
        assert(!init.contains(c)) by {
            if init.contains(c) {
                let n = choose|n: int| 0 <= n < init.len() && init[n] == c;
                assert(s[n] == c);
            }
        }
        assert(s.contains(s.last()));
        let at = choose|at: int| 0 <= at < piece.len() && piece[at] == c;
        if k < before.len() {
            lemma_piece_characters(init, sep, k, c);
            if at < before[k].len() {
                assert(before[k][at] == c);
            }
        }
    }
}

/// What a replaced text holds, line by line.
proof fn lemma_replaced(contents: Seq<char>, key: Seq<char>, value: Seq<char>, other: Seq<char>)
    requires
        config::is_variable(key),
        config::is_variable(other),
        !value.contains('\n'),
    ensures
        environment::value_in(environment::value_replaced(contents, key, value), other) == model::first_some(
            text::lines(contents).map_values(environment::line_with(key, value)),
            environment::line_value(other),
        ),
{
    lemma_value_by_pieces(environment::value_replaced(contents, key, value), other);
    lemma_blank_line(other, Seq::<char>::empty());
    lemma_replaced_pieces(contents, key, value, environment::line_value(other));
}

/// The value of another variable does not change when a line is given a new value.
proof fn lemma_others_kept(lines: Seq<Seq<char>>, key: Seq<char>, value: Seq<char>, other: Seq<char>)
    requires
        config::is_variable(key),
        config::is_variable(other),
        other != key,
    ensures
        model::first_some(lines.map_values(environment::line_with(key, value)), environment::line_value(other))
            == model::first_some(lines, environment::line_value(other)),
{
    let f = environment::line_value(other);
    let list = lines.map_values(environment::line_with(key, value));
    assert forall|i: int| 0 <= i < list.len() implies f(#[trigger] list[i]) == f(lines[i]) by {
        if environment::line_value(key)(lines[i]) is Some {
            lemma_line_with(key, lines[i], value, other);
        }
    }
    lemma_first_some_same(list, lines, f);
}

/// The first line that gave a variable its value now gives it the new one.
proof fn lemma_own_replaced(lines: Seq<Seq<char>>, key: Seq<char>, value: Seq<char>)
    requires
        model::first_some(lines, environment::line_value(key)) is Some,
    ensures
        model::first_some(lines.map_values(environment::line_with(key, value)), environment::line_value(key)) == Some(
            text::trimmed(value),
        ),
    decreases lines.len(),
{
    let f = environment::line_value(key);
    let list = lines.map_values(environment::line_with(key, value));
    if lines.len() > 0 {
        assert(list.drop_first() =~= lines.drop_first().map_values(environment::line_with(key, value)));
        if f(lines[0]) is Some {
            lemma_own_line_with(key, lines[0], value);
        } else {
            lemma_own_replaced(lines.drop_first(), key, value);
        }
    }
}

/// What a text holds after lines were added at its end.
proof fn lemma_added(contents: Seq<char>, key: Seq<char>, value: Seq<char>, other: Seq<char>)
    requires
        config::is_variable(key),
        config::is_variable(other),
        !value.contains('\n'),
        environment::value_in(contents, key) is None,
    ensures
        environment::value_in(environment::value_set(contents, key, value), other) == if other == key {
            Some(text::trimmed(value))
        } else {
            environment::value_in(contents, other)
        },
{
    let f = environment::line_value(other);
    reveal_strlit("\n");
    assert("\n"@ =~= seq!['\n']);
    let line = key + "="@ + value;
    lemma_assignment_has_no_break(key, value);
    let start = if text::ends_a_line(contents) {
        contents
    } else {
        contents + "\n"@
    };
    let whole = environment::value_set(contents, key, value);
    assert(whole =~= start + line + "\n"@);
    text::lemma_split_nonempty(contents, '\n');
    let pieces = text::split(contents, '\n');
    // The pieces before the new line, of which the last is empty.
    let front = text::split(start, '\n');
    if !text::ends_a_line(contents) {
        assert(start.drop_last() =~= contents);
        assert(front == pieces.push(Seq::<char>::empty()));
        assert(front.drop_last() =~= pieces);
    } else {
        assert(front.last().len() == 0);
    }
    text::lemma_split_extend(start, line, '\n');
    assert(front.last() + line =~= line);
    assert(whole.drop_last() =~= start + line);
    assert(text::split(whole, '\n') == front.drop_last().push(line).push(Seq::<char>::empty()));
    lemma_value_by_pieces(whole, other);
    model::first_some_push(front.drop_last().push(line), Seq::<char>::empty(), f);
    lemma_blank_line(other, Seq::<char>::empty());
    model::first_some_push(front.drop_last(), line, f);
    lemma_own_line(key, value, other);
    // The pieces before the new line hold what the text held.
    lemma_value_by_pieces(contents, other);
    if text::ends_a_line(contents) {
        assert(pieces =~= front.drop_last().push(pieces.last()));
        model::first_some_push(front.drop_last(), pieces.last(), f);
        lemma_blank_line(other, pieces.last());
    }
    if other != key {
    } else {
        assert(model::first_some(front.drop_last(), f) is None);
    }
}

/// A value that was replaced is the new one, and the text keeps its other lines: it has as many as
/// before, and each that does not give the key a value is as it was.
pub proof fn a_replaced_value_reads_back(contents: Seq<char>, key: Seq<char>, value: Seq<char>)
    requires
        !contents.contains('\r'),
        !value.contains('\n'),
        !value.contains('\r'),
    ensures
        environment::value_in(contents, key) is Some ==> environment::value_in(
            environment::value_replaced(contents, key, value),
            key,
        ) == Some(text::trimmed(value)),
        text::lines(environment::value_replaced(contents, key, value)) == text::lines(contents).map_values(
            environment::line_with(key, value),
        ),
        environment::final_newline(environment::value_replaced(contents, key, value)) == environment::final_newline(
            contents,
        ),
{
    lemma_replaced_lines(contents, key, value);
    if environment::value_in(contents, key) is Some {
        lemma_own_replaced(text::lines(contents), key, value);
    }
}

/// The value of a variable that was replaced is the new one, whatever the lines of the text end
/// with.
pub proof fn a_replaced_variable_reads_back(contents: Seq<char>, key: Seq<char>, value: Seq<char>)
    requires
        config::is_variable(key),
        environment::value_in(contents, key) is Some,
        !value.contains('\n'),
    ensures
        environment::value_in(environment::value_replaced(contents, key, value), key) == Some(text::trimmed(value)),
{
    lemma_replaced(contents, key, value, key);
    lemma_own_replaced(text::lines(contents), key, value);
}

/// A variable that was set has the value that it was set to.
pub proof fn a_set_value_reads_back(contents: Seq<char>, key: Seq<char>, value: Seq<char>)
    requires
        config::is_variable(key),
        !value.contains('\n'),
    ensures
        environment::value_in(environment::value_set(contents, key, value), key) == Some(text::trimmed(value)),
{
    if environment::value_in(contents, key) is Some {
        lemma_replaced(contents, key, value, key);
        lemma_own_replaced(text::lines(contents), key, value);
    } else {
        lemma_added(contents, key, value, key);
    }
}

/// Setting a variable changes no other.
pub proof fn setting_keeps_other_values(contents: Seq<char>, key: Seq<char>, value: Seq<char>, other: Seq<char>)
    requires
        config::is_variable(key),
        config::is_variable(other),
        other != key,
        !value.contains('\n'),
    ensures
        environment::value_in(environment::value_set(contents, key, value), other) == environment::value_in(
            contents,
            other,
        ),
{
    if environment::value_in(contents, key) is Some {
        lemma_replaced(contents, key, value, other);
        lemma_others_kept(text::lines(contents), key, value, other);
    } else {
        lemma_added(contents, key, value, other);
    }
}

// ---------------------------------------------------------------------------
// Leased ports in env files
// ---------------------------------------------------------------------------

/// Every variable of an env file that a port was leased for holds that port, where no variable is
/// leased twice.
pub proof fn rewritten_variables_hold_their_ports(contents: Seq<char>, assignments: Seq<AssignmentData>, i: int)
    requires
        0 <= i < assignments.len(),
        forall|j: int| 0 <= j < assignments.len() ==> config::is_variable((#[trigger] assignments[j]).key),
        forall|j: int| 0 <= j < assignments.len() && j != i ==> (#[trigger] assignments[j]).key != assignments[i].key,
        !assignments[i].process,
        environment::value_in(contents, assignments[i].key) is Some,
    ensures
        environment::value_in(environment::variables_rewritten(contents, assignments), assignments[i].key) == Some(
            text::decimal(assignments[i].assigned as nat),
        ),
    decreases assignments.len(),
{
    let init = assignments.drop_last();
    let last = assignments[assignments.len() - 1];
    let before = environment::variables_rewritten(contents, init);
    let number = text::decimal(last.assigned as nat);
    lemma_number(last.assigned as nat);
    let key = assignments[i].key;
    if i == assignments.len() - 1 {
        assert forall|j: int| 0 <= j < init.len() implies config::is_variable((#[trigger] init[j]).key) && init[j].key
            != key by {
            assert(init[j] == assignments[j]);
        }
        lemma_given_through(contents, init, key);
        lemma_replaced(before, key, number, key);
        lemma_own_replaced(text::lines(before), key, number);
    } else {
        assert forall|j: int| 0 <= j < init.len() implies config::is_variable((#[trigger] init[j]).key) && (j != i
            ==> init[j].key != init[i].key) by {
            assert(init[j] == assignments[j]);
        }
        assert(init[i] == assignments[i]);
        rewritten_variables_hold_their_ports(contents, init, i);
        if !last.process {
            lemma_replaced(before, last.key, number, key);
            lemma_others_kept(text::lines(before), last.key, number, key);
        }
    }
}

/// A variable stays given while others are given new values.
proof fn lemma_given_through(contents: Seq<char>, assignments: Seq<AssignmentData>, key: Seq<char>)
    requires
        config::is_variable(key),
        forall|j: int|
            0 <= j < assignments.len() ==> config::is_variable((#[trigger] assignments[j]).key) && assignments[j].key
                != key,
    ensures
        environment::value_in(environment::variables_rewritten(contents, assignments), key) == environment::value_in(
            contents,
            key,
        ),
    decreases assignments.len(),
{
    if assignments.len() > 0 {
        let init = assignments.drop_last();
        let last = assignments[assignments.len() - 1];
        assert forall|j: int| 0 <= j < init.len() implies config::is_variable((#[trigger] init[j]).key) && init[j].key
            != key by {
            assert(init[j] == assignments[j]);
        }
        lemma_given_through(contents, init, key);
        let number = text::decimal(last.assigned as nat);
        let before = environment::variables_rewritten(contents, init);
        lemma_number(last.assigned as nat);
        if !last.process {
            lemma_replaced(before, last.key, number, key);
            lemma_others_kept(text::lines(before), last.key, number, key);
        }
    }
}

// ---------------------------------------------------------------------------
// The file that processes read
// ---------------------------------------------------------------------------

proof fn lemma_ended(lines: Seq<Seq<char>>)
    requires
        forall|i: int| 0 <= i < lines.len() ==> !(#[trigger] lines[i]).contains('\n'),
    ensures
        text::split(environment::ended(lines), '\n') == lines.push(Seq::<char>::empty()),
    decreases lines.len(),
{
    let none = Seq::<char>::empty();
    if lines.len() == 0 {
        assert(lines.push(none) =~= seq![none]);
    } else {
        let init = lines.drop_last();
        let last = lines[lines.len() - 1];
        assert forall|i: int| 0 <= i < init.len() implies !(#[trigger] init[i]).contains('\n') by {
            assert(init[i] == lines[i]);
        }
        lemma_ended(init);
        reveal_strlit("\n");
        assert("\n"@ =~= seq!['\n']);
        let before = environment::ended(init);
        text::lemma_split_extend(before, last, '\n');
        assert(init.push(none).drop_last() =~= init);
        assert(none + last =~= last);
        let whole = environment::ended(lines);
        assert(whole.drop_last() =~= before + last);
        assert(init.push(last) =~= lines);
    }
}

/// The heading of the file, without the line feed that ends it.
spec fn heading() -> Seq<char> {
    "# Generated by wt. Do not edit.\n"@.drop_last()
}

proof fn lemma_heading()
    ensures
        heading() + "\n"@ == "# Generated by wt. Do not edit.\n"@,
        !heading().contains('\n'),
        heading().len() > 0,
        heading()[0] == '#',
{
    reveal_strlit("# Generated by wt. Do not edit.\n");
    reveal_strlit("\n");
    assert(heading() + "\n"@ =~= "# Generated by wt. Do not edit.\n"@);
}

proof fn lemma_ended_push_front(first: Seq<char>, lines: Seq<Seq<char>>)
    ensures
        environment::ended(seq![first] + lines) == first + "\n"@ + environment::ended(lines),
    decreases lines.len(),
{
    let all = seq![first] + lines;
    if lines.len() == 0 {
        assert(all.drop_last() =~= Seq::empty());
        assert(all.last() == first);
        assert(environment::ended(all.drop_last()) =~= Seq::empty());
        assert(Seq::<char>::empty() + first + "\n"@ =~= first + "\n"@ + Seq::<char>::empty());
    } else {
        assert(all.drop_last() =~= seq![first] + lines.drop_last());
        assert(all.last() == lines.last());
        lemma_ended_push_front(first, lines.drop_last());
        assert(first + "\n"@ + environment::ended(lines.drop_last()) + lines.last() + "\n"@ =~= first + "\n"@ + (
        environment::ended(lines.drop_last()) + lines.last() + "\n"@));
    }
}

/// The value of a variable in the file is the one on its lines.
proof fn lemma_process_value(lines: Seq<Seq<char>>, key: Seq<char>)
    requires
        config::is_variable(key),
        forall|i: int| 0 <= i < lines.len() ==> !(#[trigger] lines[i]).contains('\n'),
    ensures
        environment::value_in("# Generated by wt. Do not edit.\n"@ + environment::ended(lines), key)
            == model::first_some(lines, environment::line_value(key)),
{
    let f = environment::line_value(key);
    lemma_heading();
    let all = seq![heading()] + lines;
    lemma_ended_push_front(heading(), lines);
    assert forall|i: int| 0 <= i < all.len() implies !(#[trigger] all[i]).contains('\n') by {
        if i > 0 {
            assert(all[i] == lines[i - 1]);
        }
    }
    lemma_ended(all);
    lemma_value_by_pieces(environment::ended(all), key);
    model::first_some_push(all, Seq::<char>::empty(), f);
    lemma_blank_line(key, Seq::<char>::empty());
    assert(all.drop_first() =~= lines);
    assert(f(heading()) is None) by {
        reveal_strlit("export ");
        assert(!text::white('#'));
        assert(text::trimmed_start(heading()) == heading());
        assert(!"export "@.is_prefix_of(heading())) by {
            if "export "@.is_prefix_of(heading()) {
                assert(heading().subrange(0, 7)[0] == "export "@[0]);
            }
        }
        assert(key[0] == '_' || text::is_ascii_alphanumeric(key[0]));
        assert(!key.is_prefix_of(heading())) by {
            if key.is_prefix_of(heading()) {
                assert(heading().subrange(0, key.len() as int)[0] == key[0]);
            }
        }
    }
}

/// The first line for a variable among those of the assignments.
proof fn lemma_port_lines(assignments: Seq<AssignmentData>, every: bool, key: Seq<char>)
    requires
        config::is_variable(key),
        forall|i: int| 0 <= i < assignments.len() ==> config::is_variable((#[trigger] assignments[i]).key),
    ensures
        ({
            let lines = assignments.filter_map(environment::port_line(every));
            &&& forall|i: int| 0 <= i < lines.len() ==> !(#[trigger] lines[i]).contains('\n')
            &&& model::first_some(lines, environment::line_value(key)) == model::first_some(
                assignments,
                leased_under(every, key),
            )
        }),
    decreases assignments.len(),
{
    reveal(Seq::filter_map);
    let f = environment::line_value(key);
    let g = leased_under(every, key);
    if assignments.len() > 0 {
        let init = assignments.drop_last();
        let last = assignments[assignments.len() - 1];
        assert forall|i: int| 0 <= i < init.len() implies config::is_variable((#[trigger] init[i]).key) by {
            assert(init[i] == assignments[i]);
        }
        lemma_port_lines(init, every, key);
        let before = init.filter_map(environment::port_line(every));
        let lines = assignments.filter_map(environment::port_line(every));
        assert(assignments =~= init.push(last));
        model::first_some_push(init, last, g);
        let number = text::decimal(last.assigned as nat);
        lemma_number(last.assigned as nat);
        lemma_own_line(last.key, number, key);
        lemma_assignment_has_no_break(last.key, number);
        if every || last.process {
            let line = last.key + "="@ + number;
            assert(lines =~= before.push(line));
            model::first_some_push(before, line, f);
            assert forall|i: int| 0 <= i < lines.len() implies !(#[trigger] lines[i]).contains('\n') by {
                if i < before.len() {
                    assert(lines[i] == before[i]);
                }
            }
        } else {
            assert(lines =~= before);
        }
    }
}

/// Decimal notation has no line feed, and no white space around it.
proof fn lemma_number(n: nat)
    ensures
        !text::decimal(n).contains('\n'),
        text::trimmed(text::decimal(n)) == text::decimal(n),
{
    text::lemma_decimal(n);
    let d = text::decimal(n);
    if d.contains('\n') {
        let k = choose|k: int| 0 <= k < d.len() && d[k] == '\n';
        assert(text::is_ascii_digit(d[k]));
    }
    assert(text::is_ascii_digit(d[0]));
    assert(text::is_ascii_digit(d[d.len() - 1]));
    assert(!text::white(d[0]) && !text::white(d.last()));
}

/// The port of a variable, as the file gives it.
pub open spec fn leased_under(every: bool, key: Seq<char>) -> spec_fn(AssignmentData) -> Option<Seq<char>> {
    |a: AssignmentData|
        if a.key == key && (every || a.process) {
            Some(text::decimal(a.assigned as nat))
        } else {
            None
        }
}

/// The file lists the leased ports: a variable has the port of its first assignment there, and one
/// without an assignment has no value. Where `.envrc` loads the file, every assignment counts, else
/// only those for processes.
pub proof fn the_process_file_lists_leased_ports(
    assignments: Seq<AssignmentData>,
    every: bool,
    compose_name: Option<Seq<char>>,
    key: Seq<char>,
)
    requires
        config::is_variable(key),
        key != "COMPOSE_PROJECT_NAME"@,
        forall|i: int| 0 <= i < assignments.len() ==> config::is_variable((#[trigger] assignments[i]).key),
        compose_name matches Some(name) ==> !name.contains('\n'),
        environment::process_env(assignments, every, compose_name) is Some,
    ensures
        environment::value_in(environment::process_env(assignments, every, compose_name)->0, key) == model::first_some(
            assignments,
            leased_under(every, key),
        ),
{
    let f = environment::line_value(key);
    let ports = assignments.filter_map(environment::port_line(every));
    let lines = environment::process_lines(assignments, every, compose_name);
    lemma_port_lines(assignments, every, key);
    lemma_project_line(assignments, every, compose_name, key);
    lemma_process_value(lines, key);
    assert(model::first_some(lines, f) == model::first_some(ports, f)) by {
        match compose_name {
            Some(name) => {
                if every {
                    let line = "COMPOSE_PROJECT_NAME="@ + name;
                    assert(lines =~= ports.push(line));
                    model::first_some_push(ports, line, f);
                } else {
                    assert(lines =~= ports);
                }
            },
            None => {
                assert(lines =~= ports);
            },
        }
    }
}

pub proof fn lemma_project_variable()
    ensures
        config::is_variable("COMPOSE_PROJECT_NAME"@),
        "COMPOSE_PROJECT_NAME="@ == "COMPOSE_PROJECT_NAME"@ + "="@,
{
    reveal_strlit("COMPOSE_PROJECT_NAME");
    reveal_strlit("COMPOSE_PROJECT_NAME=");
    reveal_strlit("=");
    assert("COMPOSE_PROJECT_NAME="@ =~= "COMPOSE_PROJECT_NAME"@ + "="@);
}

proof fn lemma_project_line(
    assignments: Seq<AssignmentData>,
    every: bool,
    compose_name: Option<Seq<char>>,
    key: Seq<char>,
)
    requires
        config::is_variable(key),
        ({
            let ports = assignments.filter_map(environment::port_line(every));
            forall|i: int| 0 <= i < ports.len() ==> !(#[trigger] ports[i]).contains('\n')
        }),
        compose_name matches Some(name) ==> !name.contains('\n'),
    ensures
        compose_name matches Some(name) ==> environment::line_value(key)("COMPOSE_PROJECT_NAME="@ + name) == if key
            == "COMPOSE_PROJECT_NAME"@ {
            Some(text::trimmed(name))
        } else {
            None
        },
        ({
            let lines = environment::process_lines(assignments, every, compose_name);
            forall|i: int| 0 <= i < lines.len() ==> !(#[trigger] lines[i]).contains('\n')
        }),
{
    lemma_project_variable();
    match compose_name {
        Some(name) => {
            lemma_own_line("COMPOSE_PROJECT_NAME"@, name, key);
            lemma_assignment_has_no_break("COMPOSE_PROJECT_NAME"@, name);
        },
        None => {},
    }
    let ports = assignments.filter_map(environment::port_line(every));
    let lines = environment::process_lines(assignments, every, compose_name);
    assert forall|i: int| 0 <= i < lines.len() implies !(#[trigger] lines[i]).contains('\n') by {
        if i < ports.len() {
            assert(lines[i] == ports[i]);
        }
    }
}

/// Where `.envrc` loads the file, it gives the Compose project its name.
pub proof fn the_process_file_names_the_project(
    assignments: Seq<AssignmentData>,
    name: Seq<char>,
)
    requires
        forall|i: int|
            0 <= i < assignments.len() ==> config::is_variable((#[trigger] assignments[i]).key) && assignments[i].key
                != "COMPOSE_PROJECT_NAME"@,
        !name.contains('\n'),
    ensures
        environment::process_env(assignments, true, Some(name)) matches Some(contents) && environment::value_in(
            contents,
            "COMPOSE_PROJECT_NAME"@,
        ) == Some(text::trimmed(name)),
{
    let key = "COMPOSE_PROJECT_NAME"@;
    let f = environment::line_value(key);
    lemma_project_variable();
    let ports = assignments.filter_map(environment::port_line(true));
    let lines = environment::process_lines(assignments, true, Some(name));
    assert forall|i: int| 0 <= i < assignments.len() implies config::is_variable((#[trigger] assignments[i]).key) by {}
    lemma_port_lines(assignments, true, key);
    lemma_project_line(assignments, true, Some(name), key);
    lemma_process_value(lines, key);
    let line = "COMPOSE_PROJECT_NAME="@ + name;
    assert(lines =~= ports.push(line));
    model::first_some_push(ports, line, f);
    assert(model::first_some(assignments, leased_under(true, key)) is None) by {
        assert forall|i: int| 0 <= i < assignments.len() implies leased_under(true, key)(
            #[trigger] assignments[i],
        ) is None by {}
        model::found_none(assignments, leased_under(true, key));
    }
}

// ---------------------------------------------------------------------------
// When the file that processes read is written
// ---------------------------------------------------------------------------

/// The requests of a configuration: one for each port, of a process where the port has a default.
proof fn lemma_requests(ports: Seq<Seq<char>>, env: Option<Seq<char>>, contents: Option<Seq<char>>)
    requires
        environment::collected(ports.map_values(environment::request_for(env, contents))) is Ok,
    ensures
        ({
            let requests = environment::collected(ports.map_values(environment::request_for(env, contents)))->Ok_0;
            &&& requests.len() == ports.len()
            &&& forall|i: int|
                0 <= i < requests.len() ==> (#[trigger] requests[i]).process == environment::is_process_port(ports[i])
        }),
    decreases ports.len(),
{
    let all = ports.map_values(environment::request_for(env, contents));
    if ports.len() > 0 {
        let init = ports.drop_last();
        assert(all.drop_last() =~= init.map_values(environment::request_for(env, contents)));
        lemma_requests(init, env, contents);
        text::lemma_first_at(ports.last(), ":"@);
        assert(all.last() == environment::request_for(env, contents)(ports.last()));
        let requests = environment::collected(all)->Ok_0;
        let before = environment::collected(all.drop_last())->Ok_0;
        assert forall|i: int| 0 <= i < requests.len() implies (#[trigger] requests[i]).process
            == environment::is_process_port(ports[i]) by {
            if i < before.len() {
                assert(requests[i] == before[i]);
                assert(init[i] == ports[i]);
            }
        }
    }
}

proof fn lemma_some_listed(assignments: Seq<AssignmentData>, every: bool)
    ensures
        assignments.filter_map(environment::port_line(every)).len() > 0 <==> exists|i: int|
            0 <= i < assignments.len() && (every || (#[trigger] assignments[i]).process),
    decreases assignments.len(),
{
    if assignments.len() > 0 {
        let init = assignments.drop_last();
        lemma_some_listed(init, every);
        let f = environment::port_line(every);
        if every || assignments.last().process {
            assert(assignments[assignments.len() - 1] == assignments.last());
        } else {
            assert(assignments.filter_map(f) == init.filter_map(f));
            if init.filter_map(f).len() > 0 {
                let i = choose|i: int| 0 <= i < init.len() && (every || (#[trigger] init[i]).process);
                assert(assignments[i] == init[i]);
            }
            if exists|i: int| 0 <= i < assignments.len() && (every || (#[trigger] assignments[i]).process) {
                let i = choose|i: int| 0 <= i < assignments.len() && (every || (#[trigger] assignments[i]).process);
                assert(init[i] == assignments[i]);
            }
        }
    }
}

/// A new worktree gets a `.wt.env` exactly where it is said beforehand to get one, once the ports
/// of its configuration are leased; Git is then asked whether it tracks the file.
pub proof fn the_process_file_is_written_where_it_is_checked(
    settings: config::Settings,
    contents: Option<Seq<char>>,
    requests: Seq<RequestData>,
    used: Seq<u16>,
    progress: Progress,
    every: bool,
    compose_name: Seq<char>,
)
    requires
        environment::collected(settings.ports.map_values(environment::request_for(settings.env, contents))) == Ok::<
            Seq<RequestData>,
            Seq<char>,
        >(requests),
        ports::in_order(requests, used, progress),
        progress.candidate is None,
    ensures
        environment::process_env(
            progress.done,
            every,
            if settings.compose {
                Some(compose_name)
            } else {
                None
            },
        ) is Some <==> environment::writes_process_file(settings, every),
        environment::writes_process_file(settings, every) ==> environment::untracked_paths(settings, every).contains(
            ".wt.env"@,
        ),
{
    lemma_requests(settings.ports, settings.env, contents);
    lemma_some_listed(progress.done, every);
    let done = progress.done;
    assert(done.len() == requests.len());
    assert forall|i: int| 0 <= i < done.len() implies (#[trigger] done[i]).process == environment::is_process_port(
        settings.ports[i],
    ) by {
        assert(done[i] == ports::granted(requests[i], done[i].assigned));
    }
    if environment::has_process_port(settings.ports) {
        let i = choose|i: int| 0 <= i < settings.ports.len() && environment::is_process_port(#[trigger] settings.ports[i]);
        assert(done[i].process);
    }
    if every && settings.ports.len() > 0 {
        assert(every || done[0].process);
    }
    if environment::writes_process_file(settings, every) {
        let paths = environment::untracked_paths(settings, every);
        assert(paths.last() == ".wt.env"@);
        assert(paths.contains(paths.last()));
    }
}

// ---------------------------------------------------------------------------
// References
// ---------------------------------------------------------------------------

/// Where a text does not stand, there is nothing to replace.
proof fn lemma_nothing_to_replace(s: Seq<char>, from: Seq<char>, to: Seq<char>)
    requires
        !text::has_part(s, from),
    ensures
        text::replaced(s, from, to) == s,
    decreases s.len(),
{
    if s.len() > 0 && from.len() > 0 {
        if from.is_prefix_of(s) {
            assert(text::occurs_at(s, from, 0));
        } else {
            let rest = s.drop_first();
            assert(!text::has_part(rest, from)) by {
                if text::has_part(rest, from) {
                    let at = choose|at: int| text::occurs_at(rest, from, at);
                    assert(s.subrange(at + 1, at + 1 + from.len()) =~= rest.subrange(at, at + from.len()));
                    assert(text::occurs_at(s, from, at + 1));
                }
            }
            lemma_nothing_to_replace(rest, from, to);
            assert(seq![s[0]] + rest =~= s);
        }
    }
}

/// Whether a text holds a reference.
pub open spec fn refers_to(s: Seq<char>, reference: Seq<char>) -> bool {
    exists|at: int| #[trigger] text::occurs_at(s, reference, at) && reference_ends(s, at + reference.len())
}

/// Whether a port ends here: at the end of the text, or before what is no digit.
pub open spec fn reference_ends(s: Seq<char>, end: int) -> bool {
    end == s.len() || !text::is_ascii_digit(s[end])
}

/// Where a reference does not stand, there is nothing to replace.
proof fn lemma_no_reference(s: Seq<char>, reference: Seq<char>, to: Seq<char>)
    requires
        !refers_to(s, reference),
    ensures
        environment::references_replaced(s, reference, to) == s,
    decreases s.len(),
{
    let n = reference.len() as int;
    if s.len() > 0 && n > 0 {
        if environment::starts_with_reference(s, reference) {
            assert(text::occurs_at(s, reference, 0));
            assert(reference_ends(s, n));
        } else {
            let rest = s.drop_first();
            assert(!refers_to(rest, reference)) by {
                if refers_to(rest, reference) {
                    let at = choose|at: int| #[trigger]
                        text::occurs_at(rest, reference, at) && reference_ends(rest, at + reference.len());
                    assert(s.subrange(at + 1, at + 1 + n) =~= rest.subrange(at, at + n));
                    assert(text::occurs_at(s, reference, at + 1));
                    assert(reference_ends(s, at + 1 + reference.len()));
                }
            }
            lemma_no_reference(rest, reference, to);
            assert(seq![s[0]] + rest =~= s);
        }
    }
}

/// Whether a text refers to a port of this machine.
pub open spec fn refers_to_port(s: Seq<char>, port: nat) -> bool {
    refers_to(s, "localhost:"@ + text::decimal(port)) || refers_to(s, "127.0.0.1:"@ + text::decimal(port))
}

/// A text that refers to none of the ports, and holds no marker, is left as it is: a reference to a
/// port whose digits start with those of another is no reference to that one.
pub proof fn texts_without_references_stay(contents: Seq<char>, assignments: Seq<AssignmentData>)
    requires
        forall|i: int|
            0 <= i < assignments.len() ==> !refers_to_port(contents, (#[trigger] assignments[i]).original as nat),
        forall|i: nat| i < assignments.len() ==> !text::has_part(contents, #[trigger] environment::marker(i)),
    ensures
        environment::references_rewritten(contents, assignments) == Ok::<Seq<char>, Seq<char>>(contents),
    decreases assignments.len(),
{
    lemma_marked_stays(contents, assignments);
    if assignments.len() > 0 {
        let init = assignments.drop_last();
        let last = assignments[assignments.len() - 1];
        assert forall|i: int| 0 <= i < init.len() implies !refers_to_port(
            contents,
            (#[trigger] init[i]).original as nat,
        ) by {
            assert(init[i] == assignments[i]);
        }
        texts_without_references_stay(contents, init);
        lemma_marked_stays(contents, init);
        let mark = environment::marker((assignments.len() - 1) as nat);
        lemma_nothing_to_replace(contents, mark, text::decimal(last.assigned as nat));
    }
}

proof fn lemma_marked_stays(contents: Seq<char>, assignments: Seq<AssignmentData>)
    requires
        forall|i: int|
            0 <= i < assignments.len() ==> !refers_to_port(contents, (#[trigger] assignments[i]).original as nat),
        forall|i: nat| i < assignments.len() ==> !text::has_part(contents, #[trigger] environment::marker(i)),
    ensures
        environment::marked(contents, assignments) == Ok::<Seq<char>, Seq<char>>(contents),
    decreases assignments.len(),
{
    if assignments.len() > 0 {
        let init = assignments.drop_last();
        let last = assignments[assignments.len() - 1];
        assert forall|i: int| 0 <= i < init.len() implies !refers_to_port(
            contents,
            (#[trigger] init[i]).original as nat,
        ) by {
            assert(init[i] == assignments[i]);
        }
        lemma_marked_stays(contents, init);
        let port = text::decimal(last.original as nat);
        let mark = environment::marker((assignments.len() - 1) as nat);
        lemma_no_reference(contents, "localhost:"@ + port, "localhost:"@ + mark);
        lemma_no_reference(contents, "127.0.0.1:"@ + port, "127.0.0.1:"@ + mark);
    }
}

/// Ports that were leased never count as references themselves: which references are rewritten
/// depends on the ports that were asked for alone.
pub proof fn leased_ports_are_no_references(
    contents: Seq<char>,
    assignments: Seq<AssignmentData>,
    others: Seq<AssignmentData>,
)
    requires
        assignments.len() == others.len(),
        forall|i: int| 0 <= i < assignments.len() ==> (#[trigger] assignments[i]).original == others[i].original,
    ensures
        environment::marked(contents, assignments) == environment::marked(contents, others),
    decreases assignments.len(),
{
    if assignments.len() > 0 {
        let a = assignments.drop_last();
        let b = others.drop_last();
        assert forall|i: int| 0 <= i < a.len() implies (#[trigger] a[i]).original == b[i].original by {
            assert(assignments[i].original == others[i].original);
        }
        leased_ports_are_no_references(contents, a, b);
        assert(assignments[assignments.len() - 1].original == others[others.len() - 1].original);
    }
}

// ---------------------------------------------------------------------------
// Lines of an env file
// ---------------------------------------------------------------------------

proof fn lemma_led_line(lead: Seq<char>, rest: Seq<char>)
    requires
        forall|i: int| 0 <= i < lead.len() ==> text::white(#[trigger] lead[i]),
        rest.len() > 0,
        !text::white(rest[0]),
    ensures
        text::trimmed_start(lead + rest) == rest,
{
    let line = lead + rest;
    let drop = |c: char| text::white(c);
    assert forall|i: int| 0 <= i < lead.len() implies #[trigger] drop(line[i]) by {
        assert(line[i] == lead[i]);
    }
    text::lemma_trim_start_by(line, drop, lead.len() as int);
    assert(line.skip(lead.len() as int) =~= rest);
}

proof fn lemma_not_exported(key: Seq<char>, value: Seq<char>)
    requires
        !key.contains(' '),
    ensures
        !"export "@.is_prefix_of(key + "="@ + value),
{
    reveal_strlit("export ");
    reveal_strlit("=");
    let rest = key + "="@ + value;
    if "export "@.is_prefix_of(rest) {
        let start = rest.subrange(0, 7);
        if key.len() < 7 {
            assert(start[key.len() as int] == '=');
        } else {
            assert(start[6] == key[6]);
            assert(key.contains(key[6]));
        }
    }
}

/// A variable's line gives its value, however far it is indented and whether or not it is exported,
/// without the white space around the value.
pub proof fn assignments_are_read(lead: Seq<char>, key: Seq<char>, value: Seq<char>)
    requires
        forall|i: int| 0 <= i < lead.len() ==> text::white(#[trigger] lead[i]),
        key.len() > 0,
        !text::white(key[0]),
        !key.contains(' '),
    ensures
        environment::line_value(key)(lead + key + "="@ + value) == Some(text::trimmed(value)),
        environment::line_value(key)(lead + "export "@ + key + "="@ + value) == Some(text::trimmed(value)),
{
    reveal_strlit("export ");
    reveal_strlit("=");
    let rest = key + "="@ + value;
    lemma_led_line(lead, rest);
    lemma_not_exported(key, value);
    assert(lead + key + "="@ + value =~= lead + rest);
    assert(rest.subrange(0, key.len() as int) =~= key);
    assert(rest.skip(key.len() as int) =~= "="@ + value);
    assert(("="@ + value).subrange(0, 1) =~= "="@);
    assert(("="@ + value).skip(1) =~= value);
    let exported = "export "@ + rest;
    assert(exported[0] == 'e');
    lemma_led_line(lead, exported);
    assert(lead + "export "@ + key + "="@ + value =~= lead + exported);
    assert(exported.subrange(0, 7) =~= "export "@);
    assert(exported.skip(7) =~= rest);
}

/// A variable's line is no line of another variable.
pub proof fn assignments_name_one_variable(lead: Seq<char>, key: Seq<char>, value: Seq<char>, other: Seq<char>)
    requires
        forall|i: int| 0 <= i < lead.len() ==> text::white(#[trigger] lead[i]),
        key.len() > 0,
        !text::white(key[0]),
        !key.contains(' '),
        !key.contains('='),
        !other.contains('='),
        other != key,
    ensures
        environment::line_value(other)(lead + key + "="@ + value) is None,
{
    reveal_strlit("=");
    let rest = key + "="@ + value;
    lemma_led_line(lead, rest);
    lemma_not_exported(key, value);
    assert(lead + key + "="@ + value =~= lead + rest);
    if other.is_prefix_of(rest) {
        assert(other =~= rest.subrange(0, other.len() as int));
        let after = rest.skip(other.len() as int);
        if "="@.is_prefix_of(after) {
            assert(after.subrange(0, 1)[0] == '=');
            assert(rest[other.len() as int] == '=');
            if other.len() < key.len() {
                assert(key[other.len() as int] == '=');
                assert(key.contains('='));
            } else if other.len() > key.len() {
                assert(other[key.len() as int] == '=');
                assert(other.contains('='));
            } else {
                assert(other =~= key);
            }
        }
    }
}

/// A line offers a port exactly where its variable's name ends in `PORT` and its value is a number
/// that a port can have.
pub proof fn port_variables_end_in_port(key: Seq<char>, value: Seq<char>)
    requires
        !key.contains('='),
    ensures
        environment::port_variable()(key + "="@ + value) == if (exists|stem: Seq<char>| key == #[trigger] (stem
            + "PORT"@)) && (text::number(text::trimmed(value)) matches Some(n) && n <= 65535) {
            Some(key)
        } else {
            None
        },
{
    reveal_strlit("=");
    assert("="@ =~= seq!['=']);
    text::texts_are_cut_at_the_first_character(key, '=', value);
    if "PORT"@.is_suffix_of(key) {
        let stem = key.take(key.len() - "PORT"@.len());
        assert(key =~= stem + "PORT"@);
    }
    if exists|stem: Seq<char>| key == #[trigger] (stem + "PORT"@) {
        let stem = choose|stem: Seq<char>| key == #[trigger] (stem + "PORT"@);
        assert(key.subrange(stem.len() as int, key.len() as int) =~= "PORT"@);
    }
}

/// Every line of a text that offers a port is discovered, and no other variable is.
pub proof fn every_port_variable_is_discovered(lines: Seq<Seq<char>>, key: Seq<char>)
    ensures
        lines.filter_map(environment::port_variable()).contains(key) <==> exists|i: int|
            0 <= i < lines.len() && environment::port_variable()(#[trigger] lines[i]) == Some(key),
{
    model::filter_map_keeps(lines, environment::port_variable());
}

// ---------------------------------------------------------------------------
// Ports by variable
// ---------------------------------------------------------------------------

proof fn lemma_map_with(map: Seq<(Seq<char>, u16)>, key: Seq<char>, port: u16, other: Seq<char>, value: u16)
    ensures
        environment::map_with(map, key, port).contains((key, port)),
        other != key ==> (environment::map_with(map, key, port).contains((other, value)) <==> map.contains(
            (other, value),
        )),
    decreases map.len(),
{
    let all = environment::map_with(map, key, port);
    if map.len() == 0 {
        assert(all[0] == (key, port));
    } else {
        let init = map.drop_last();
        let last = map[map.len() - 1];
        lemma_map_with(init, key, port, other, value);
        if last.0 == key {
            assert(all[init.len() as int] == (key, port));
            lemma_same_members(init, last, map, (other, value));
            lemma_same_members(init, (key, port), all, (other, value));
        } else if text::less(key, last.0) {
            let inner = environment::map_with(init, key, port);
            let i = choose|i: int| 0 <= i < inner.len() && inner[i] == (key, port);
            assert(all[i] == (key, port));
            lemma_same_members(inner, last, all, (other, value));
            lemma_same_members(init, last, map, (other, value));
        } else {
            assert(all[map.len() as int] == (key, port));
            lemma_same_members(map, (key, port), all, (other, value));
        }
    }
}

proof fn lemma_same_members<A>(s: Seq<A>, last: A, all: Seq<A>, x: A)
    requires
        all =~= s.push(last),
    ensures
        all.contains(x) <==> s.contains(x) || x == last,
{
    if s.contains(x) {
        let i = choose|i: int| 0 <= i < s.len() && s[i] == x;
        assert(all[i] == x);
    }
    assert(all[s.len() as int] == last);
    if all.contains(x) {
        let i = choose|i: int| 0 <= i < all.len() && all[i] == x;
        if i < s.len() {
            assert(s[i] == x);
        }
    }
}

/// The ports of a worktree hold every assigned port under its variable, the last one where a
/// variable was assigned twice, and nothing else.
pub proof fn every_assigned_port_is_kept(assignments: Seq<ports::AssignmentData>)
    ensures
        forall|k: int|
            #![trigger assignments[k]]
            0 <= k < assignments.len() && (forall|j: int|
                k < j < assignments.len() ==> (#[trigger] assignments[j]).key != assignments[k].key)
                ==> environment::ports_by_key(assignments).contains((assignments[k].key, assignments[k].assigned)),
        forall|key: Seq<char>, port: u16| #[trigger]
            environment::ports_by_key(assignments).contains((key, port)) ==> exists|k: int|
                0 <= k < assignments.len() && (#[trigger] assignments[k]).key == key && assignments[k].assigned == port,
    decreases assignments.len(),
{
    if assignments.len() > 0 {
        let init = assignments.drop_last();
        let last = assignments[assignments.len() - 1];
        let before = environment::ports_by_key(init);
        let all = environment::ports_by_key(assignments);
        every_assigned_port_is_kept(init);
        assert forall|k: int|
            #![trigger assignments[k]]
            0 <= k < assignments.len() && (forall|j: int|
                k < j < assignments.len() ==> (#[trigger] assignments[j]).key != assignments[k].key) implies all.contains(
            (assignments[k].key, assignments[k].assigned),
        ) by {
            lemma_map_with(before, last.key, last.assigned, assignments[k].key, assignments[k].assigned);
            if k < init.len() {
                assert(init[k] == assignments[k]);
                assert(assignments[assignments.len() - 1].key != assignments[k].key);
                assert forall|j: int| k < j < init.len() implies (#[trigger] init[j]).key != init[k].key by {
                    assert(init[j] == assignments[j]);
                }
                assert(before.contains((init[k].key, init[k].assigned)));
            }
        }
        assert forall|key: Seq<char>, port: u16| #[trigger] all.contains((key, port)) implies exists|k: int|
            0 <= k < assignments.len() && (#[trigger] assignments[k]).key == key && assignments[k].assigned == port by {
            lemma_map_with(before, last.key, last.assigned, key, port);
            lemma_own_port(before, last.key, last.assigned, port);
            if key == last.key && port == last.assigned {
                assert(assignments[assignments.len() - 1].key == key);
            } else {
                assert(before.contains((key, port)));
                let k = choose|k: int|
                    0 <= k < init.len() && (#[trigger] init[k]).key == key && init[k].assigned == port;
                assert(assignments[k] == init[k]);
            }
        }
    }
}

proof fn lemma_own_port(map: Seq<(Seq<char>, u16)>, key: Seq<char>, port: u16, value: u16)
    ensures
        environment::map_with(map, key, port).contains((key, value)) ==> value == port || map.contains((key, value)),
    decreases map.len(),
{
    let all = environment::map_with(map, key, port);
    if map.len() == 0 {
        lemma_same_members(map, (key, port), all, (key, value));
    } else {
        let init = map.drop_last();
        let last = map[map.len() - 1];
        lemma_own_port(init, key, port, value);
        lemma_same_members(init, last, map, (key, value));
        if last.0 == key {
            lemma_same_members(init, (key, port), all, (key, value));
        } else if text::less(key, last.0) {
            lemma_same_members(environment::map_with(init, key, port), last, all, (key, value));
        } else {
            lemma_same_members(map, (key, port), all, (key, value));
        }
    }
}

// ---------------------------------------------------------------------------
// What is checked and allowed
// ---------------------------------------------------------------------------

/// Every path that is copied or may be discarded is checked for being tracked, and so is the process
/// file where one is written.
pub proof fn every_configured_path_is_checked(settings: config::Settings, every: bool)
    ensures
        forall|p: Seq<char>| #[trigger]
            config::files_to_copy(settings).contains(p) ==> environment::untracked_paths(settings, every).contains(p),
        forall|p: Seq<char>| #[trigger]
            settings.disposable.contains(p) ==> environment::untracked_paths(settings, every).contains(p),
        environment::writes_process_file(settings, every) ==> environment::untracked_paths(settings, every).contains(
            ".wt.env"@,
        ),
        forall|p: Seq<char>| #[trigger]
            environment::untracked_paths(settings, every).contains(p) ==> config::files_to_copy(settings).contains(p)
                || settings.disposable.contains(p) || (p == ".wt.env"@ && environment::writes_process_file(
                settings,
                every,
            )),
{
    let copied = config::files_to_copy(settings);
    let all = environment::untracked_paths(settings, every);
    let n = copied.len() as int;
    let m = n + settings.disposable.len();
    assert forall|p: Seq<char>| #[trigger] copied.contains(p) implies all.contains(p) by {
        let i = choose|i: int| 0 <= i < copied.len() && copied[i] == p;
        assert(all[i] == p);
    }
    assert forall|p: Seq<char>| #[trigger] settings.disposable.contains(p) implies all.contains(p) by {
        let i = choose|i: int| 0 <= i < settings.disposable.len() && settings.disposable[i] == p;
        assert(all[n + i] == p);
    }
    if environment::writes_process_file(settings, every) {
        assert(all[m] == ".wt.env"@);
    }
    assert forall|p: Seq<char>| #[trigger] all.contains(p) implies copied.contains(p) || settings.disposable.contains(p)
        || (p == ".wt.env"@ && environment::writes_process_file(settings, every)) by {
        let i = choose|i: int| 0 <= i < all.len() && all[i] == p;
        if i < n {
            assert(copied[i] == p);
        } else if i < m {
            assert(settings.disposable[i - n] == p);
        }
    }
}

/// A process file is written exactly where a port has a default of its own, or where every variable
/// goes into it and there is a port or a Compose project at all.
pub proof fn the_process_file_has_its_reasons(settings: config::Settings, every: bool)
    ensures
        environment::writes_process_file(settings, every) <==> {
            ||| exists|i: int| 0 <= i < settings.ports.len() && (#[trigger] settings.ports[i]).contains(':')
            ||| every && settings.ports.len() > 0
            ||| every && settings.compose
        },
{
    reveal_strlit(":");
    assert forall|i: int| 0 <= i < settings.ports.len() implies (environment::is_process_port(
        #[trigger] settings.ports[i],
    ) <==> settings.ports[i].contains(':')) by {
        let port = settings.ports[i];
        if text::has_part(port, ":"@) {
            let at = choose|at: int| text::occurs_at(port, ":"@, at);
            assert(port.subrange(at, at + 1)[0] == port[at]);
            assert(port.contains(port[at]));
        }
        if port.contains(':') {
            let at = choose|at: int| 0 <= at < port.len() && port[at] == ':';
            assert(port.subrange(at, at + 1) =~= ":"@);
            assert(text::occurs_at(port, ":"@, at));
        }
    }
    if environment::has_process_port(settings.ports) {
        let i = choose|i: int| 0 <= i < settings.ports.len() && environment::is_process_port(#[trigger] settings.ports[i]);
        assert(settings.ports[i].contains(':'));
    }
}

/// A configured path passes exactly where Git answers and prints nothing of it.
pub proof fn only_untracked_paths_pass(path: Seq<char>, output: Output)
    ensures
        environment::found_untracked(path, output) is Ok <==> output.code == Some(0i32) && output.stdout@.len() == 0,
{
}

/// What direnv allows is what the first line that speaks of it says: `0` and `true` mean yes, anything
/// else means no.
pub proof fn the_first_line_says_what_is_allowed(lines: Seq<Seq<char>>, k: int, rest: Seq<char>)
    requires
        0 <= k < lines.len(),
        lines[k] == "Found RC allowed "@ + rest,
        forall|i: int| 0 <= i < k ==> !"Found RC allowed "@.is_prefix_of(#[trigger] lines[i]),
    ensures
        model::first_some(lines, environment::allowed_line()) == Some(rest == "0"@ || rest == "true"@),
{
    let f = environment::allowed_line();
    let start = "Found RC allowed "@;
    assert(lines[k].subrange(0, start.len() as int) =~= start);
    assert(lines[k].skip(start.len() as int) =~= rest);
    assert forall|i: int| 0 <= i < k implies f(#[trigger] lines[i]) is None by {
        assert(!start.is_prefix_of(lines[i]));
    }
    model::found_some(lines, f, k);
}

/// Of a listing, exactly the paths that do not end in a slash are files.
pub proof fn listed_directories_are_no_files(listing: Seq<Seq<char>>)
    ensures
        forall|p: Seq<char>| #[trigger]
            listing.filter(environment::names_file()).contains(p) <==> listing.contains(p) && (p.len() == 0 || p.last()
                != '/'),
{
    model::filter_keeps(listing, environment::names_file());
    reveal_strlit("/");
    assert forall|p: Seq<char>| #[trigger] listing.filter(environment::names_file()).contains(p) <==> listing.contains(p)
        && (p.len() == 0 || p.last() != '/') by {
        if p.len() > 0 {
            assert(p.subrange(p.len() - 1, p.len() as int)[0] == p.last());
            if p.last() == '/' {
                assert(p.subrange(p.len() - 1, p.len() as int) =~= "/"@);
            }
        }
    }
}

/// A path that stands for a directory or a single file is taken as written, even where it looks like
/// a pattern; only what is neither is searched for as a pattern.
pub proof fn patterns_are_searched_last(path: Seq<char>)
    ensures
        environment::search_for(path, environment::Entry::Directory) == environment::SearchData::Untracked(
            ":(literal)"@ + path,
        ),
        environment::search_for(path, environment::Entry::File) is Itself,
        path.contains('*') || path.contains('?') || path.contains('[') ==> environment::search_for(
            path,
            environment::Entry::Missing,
        ) == environment::SearchData::Untracked(":(glob)"@ + path),
        !(path.contains('*') || path.contains('?') || path.contains('[')) ==> environment::search_for(
            path,
            environment::Entry::Missing,
        ) is Nothing,
{
}

/// A port's own default is what is asked for, whatever the env file says; without one it is the value
/// of its variable in the env file, if that is a port.
pub proof fn defaults_come_before_the_env_file(
    env: Option<Seq<char>>,
    contents: Option<Seq<char>>,
    key: Seq<char>,
    port: u16,
    file: Seq<char>,
    text: Seq<char>,
    n: nat,
)
    ensures
        environment::asked_port(env, contents, (key, Some(port))) == Ok::<u16, Seq<char>>(port),
        environment::asked_port(Some(file), Some(text), (key, None)) is Ok <==> (environment::value_in(
            text,
            key,
        ) matches Some(value) && (crate::text::number(value) matches Some(m) && m <= 65535)),
        (environment::value_in(text, key) matches Some(value) && crate::text::number(value) == Some(n) && n <= 65535)
            ==> environment::asked_port(Some(file), Some(text), (key, None)) == Ok::<u16, Seq<char>>(n as u16),
        environment::asked_port(None, contents, (key, None)) is Err,
{
}

/// Every configured port is asked for, in order, under its variable: none where one of them is not
/// well formed or has no number.
pub proof fn every_configured_port_is_asked_for(ports: Seq<Seq<char>>, env: Option<Seq<char>>, contents: Option<Seq<char>>)
    ensures
        ({
            let asked = environment::collected(ports.map_values(environment::request_for(env, contents)));
            &&& asked matches Ok(list) ==> list.len() == ports.len() && forall|i: int|
                0 <= i < ports.len() ==> (config::port_spec(#[trigger] ports[i]) matches Ok((key, default)) && list[i].key
                    == key && list[i].process == default is Some && (default matches Some(port) ==> list[i].original
                    == port))
            &&& asked is Ok <==> forall|i: int|
                0 <= i < ports.len() ==> (config::port_spec(#[trigger] ports[i]) matches Ok(spec)
                    && environment::asked_port(env, contents, spec) is Ok)
        }),
{
    let f = environment::request_for(env, contents);
    let all = ports.map_values(f);
    environment::collecting_keeps_every_value(all);
    assert(forall|i: int| 0 <= i < ports.len() ==> #[trigger] all[i] == f(ports[i]));
    match environment::collected(all) {
        Ok(list) => {
            assert forall|i: int| 0 <= i < ports.len() implies (config::port_spec(#[trigger] ports[i]) matches Ok(
                (key, default),
            ) && list[i].key == key && list[i].process == default is Some && (default matches Some(port)
                ==> list[i].original == port)) by {
                assert(all[i] == Ok::<RequestData, Seq<char>>(list[i]));
            }
            assert forall|i: int| 0 <= i < ports.len() implies (config::port_spec(#[trigger] ports[i]) matches Ok(spec)
                && environment::asked_port(env, contents, spec) is Ok) by {
                assert(all[i] is Ok);
            }
        },
        Err(_) => {
            if forall|i: int|
                0 <= i < ports.len() ==> (config::port_spec(#[trigger] ports[i]) matches Ok(spec)
                    && environment::asked_port(env, contents, spec) is Ok) {
                assert forall|i: int| 0 <= i < all.len() implies #[trigger] all[i] is Ok by {
                    assert(config::port_spec(ports[i]) is Ok);
                }
            }
        },
    }
}

/// A file is prepared under its own path, with its variables and references rewritten; the primary
/// env file also names the Compose project.
pub proof fn files_are_prepared_under_their_paths(
    settings: config::Settings,
    file: (Seq<char>, Seq<char>),
    assignments: Seq<AssignmentData>,
    compose_name: Seq<char>,
)
    ensures
        ({
            let prepared = environment::prepared_file(settings, assignments, compose_name)(file);
            let named = settings.compose && (settings.env matches Some(env) && paths::same_path(env, file.0));
            &&& prepared is Ok <==> environment::rewritten(file.1, assignments) is Ok
            &&& prepared matches Ok(new) ==> new.0 == file.0
            &&& prepared is Ok && !named ==> prepared->Ok_0.1 == environment::rewritten(file.1, assignments)->Ok_0
            &&& prepared is Ok && named ==> prepared->Ok_0.1 == environment::value_set(
                environment::rewritten(file.1, assignments)->Ok_0,
                "COMPOSE_PROJECT_NAME"@,
                compose_name,
            )
        }),
{
}

/// Every file is prepared, in order, and a process file is added behind them where it has lines; a
/// file that cannot be prepared, or Compose without an env file, keeps all from it.
pub proof fn every_file_is_prepared(
    settings: config::Settings,
    files: Seq<(Seq<char>, Seq<char>)>,
    assignments: Seq<AssignmentData>,
    compose_name: Seq<char>,
    every: bool,
)
    ensures
        ({
            let prepared = environment::prepared_files(settings, files, assignments, compose_name, every);
            let f = environment::prepared_file(settings, assignments, compose_name);
            let added = environment::process_env(
                assignments,
                every,
                if settings.compose {
                    Some(compose_name)
                } else {
                    None
                },
            );
            &&& prepared is Ok <==> (settings.compose ==> settings.env is Some) && forall|i: int|
                0 <= i < files.len() ==> f(#[trigger] files[i]) is Ok
            &&& prepared is Ok ==> forall|i: int|
                0 <= i < files.len() ==> f(#[trigger] files[i]) == Ok::<(Seq<char>, Seq<char>), Seq<char>>(
                    prepared->Ok_0[i],
                )
            &&& prepared is Ok && added is None ==> prepared->Ok_0.len() == files.len()
            &&& prepared is Ok && added is Some ==> prepared->Ok_0.len() == files.len() + 1 && prepared->Ok_0.last() == (
                ".wt.env"@,
                added->0,
            )
        }),
{
    let f = environment::prepared_file(settings, assignments, compose_name);
    let all = files.map_values(f);
    let prepared = environment::prepared_files(settings, files, assignments, compose_name, every);
    environment::collecting_keeps_every_value(all);
    assert(forall|i: int| 0 <= i < files.len() ==> #[trigger] all[i] == f(files[i]));
    if environment::collected(all) is Ok {
        let copied = environment::collected(all)->Ok_0;
        assert forall|i: int| 0 <= i < files.len() implies f(#[trigger] files[i]) == Ok::<
            (Seq<char>, Seq<char>),
            Seq<char>,
        >(copied[i]) by {
            assert(all[i] == Ok::<(Seq<char>, Seq<char>), Seq<char>>(copied[i]));
        }
        if prepared is Ok {
            assert(forall|i: int| 0 <= i < files.len() ==> prepared->Ok_0[i] == #[trigger] copied[i]);
        }
    } else if forall|i: int| 0 <= i < files.len() ==> f(#[trigger] files[i]) is Ok {
        assert forall|i: int| 0 <= i < all.len() implies #[trigger] all[i] is Ok by {
            assert(f(files[i]) is Ok);
        }
    }
}

/// A process file has lines exactly where a port goes into it, be it a process's own or every one, or
/// where it names the Compose project.
pub proof fn the_process_file_has_lines(assignments: Seq<AssignmentData>, every: bool, name: Option<Seq<char>>)
    ensures
        environment::process_env(assignments, every, name) is Some <==> {
            ||| exists|i: int| 0 <= i < assignments.len() && (#[trigger] assignments[i]).process
            ||| every && assignments.len() > 0
            ||| every && name is Some
        },
{
    let g = environment::port_line(every);
    let lines = environment::process_lines(assignments, every, name);
    let ports = assignments.filter_map(g);
    model::filter_map_keeps(assignments, g);
    assert(lines.len() == ports.len() + if every && name is Some {
        1int
    } else {
        0int
    });
    if exists|i: int| 0 <= i < assignments.len() && (#[trigger] assignments[i]).process {
        let i = choose|i: int| 0 <= i < assignments.len() && (#[trigger] assignments[i]).process;
        assert(g(assignments[i]) is Some);
        assert(ports.contains(g(assignments[i])->0));
        assert(ports.len() > 0);
    } else if every && assignments.len() > 0 {
        assert(g(assignments[0]) is Some);
        assert(ports.contains(g(assignments[0])->0));
        assert(ports.len() > 0);
    } else if ports.len() > 0 {
        assert(ports.contains(ports[0]));
        let i = choose|i: int| 0 <= i < assignments.len() && g(#[trigger] assignments[i]) == Some(ports[0]);
        assert(every || assignments[i].process);
    }
}

/// The worktree's own `.envrc` counts where it has one; otherwise the checkout's does, exactly where
/// it is copied.
pub proof fn the_own_envrc_comes_first(
    own: Seq<char>,
    checkout: Option<Seq<char>>,
    copies: Seq<(Seq<char>, Option<Seq<char>>)>,
    k: int,
)
    ensures
        environment::envrc_after(Some(own), checkout, copies) == Some(own),
        0 <= k < copies.len() && copies[k].0 == ".envrc"@ ==> environment::envrc_after(None, checkout, copies)
            == checkout,
        (forall|i: int| 0 <= i < copies.len() ==> (#[trigger] copies[i]).0 != ".envrc"@) ==> environment::envrc_after(
            None,
            checkout,
            copies,
        ) is None,
{
}

/// A link's fingerprint is where it points, and so no other link's; a file's is what Git prints of
/// it; anything else has none.
pub proof fn fingerprints_tell_files_apart(path: Seq<char>, target: Seq<char>, other: Seq<char>, output: Output)
    ensures
        environment::link_fingerprint(target) == environment::link_fingerprint(other) ==> target == other,
        environment::file_fingerprint(path, environment::Kind::Other, output) is Err,
        environment::file_fingerprint(path, environment::Kind::File, output) is Ok <==> output.code == Some(0i32)
            && vstd::utf8::valid_utf8(output.stdout@),
        output.code == Some(0i32) && vstd::utf8::valid_utf8(output.stdout@) ==> environment::file_fingerprint(
            path,
            environment::Kind::File,
            output,
        ) == Ok::<Seq<char>, Seq<char>>(text::trimmed(vstd::utf8::decode_utf8(output.stdout@))),
{
    let start = "link:"@;
    assert((start + target).skip(start.len() as int) =~= target);
    assert((start + other).skip(start.len() as int) =~= other);
}

/// Whether a map is in the order of its keys, each once.
pub open spec fn by_key(map: Seq<(Seq<char>, u16)>) -> bool {
    forall|i: int, j: int| 0 <= i < j < map.len() ==> text::less((#[trigger] map[i]).0, (#[trigger] map[j]).0)
}

proof fn lemma_less_on(a: Seq<char>, b: Seq<char>, c: Seq<char>)
    ensures
        text::less(a, b) && text::less(b, c) ==> text::less(a, c),
        a == b || text::less(a, b) || text::less(b, a),
{
    text::text_order_is_total();
    let order = text::text_order();
    assert(order(a, b) == text::less(a, b));
    assert(order(b, a) == text::less(b, a));
    assert(order(b, c) == text::less(b, c));
    assert(order(a, c) == text::less(a, c));
}

proof fn lemma_map_stays_by_key(map: Seq<(Seq<char>, u16)>, key: Seq<char>, port: u16)
    requires
        by_key(map),
    ensures
        by_key(environment::map_with(map, key, port)),
        forall|i: int|
            0 <= i < environment::map_with(map, key, port).len() ==> {
                let k = (#[trigger] environment::map_with(map, key, port)[i]).0;
                k == key || exists|j: int| 0 <= j < map.len() && (#[trigger] map[j]).0 == k
            },
    decreases map.len(),
{
    let all = environment::map_with(map, key, port);
    if map.len() > 0 {
        let init = map.drop_last();
        let last = map[map.len() - 1];
        assert(by_key(init)) by {
            assert forall|i: int, j: int| 0 <= i < j < init.len() implies text::less(
                (#[trigger] init[i]).0,
                (#[trigger] init[j]).0,
            ) by {
                assert(init[i] == map[i] && init[j] == map[j]);
            }
        }
        lemma_map_stays_by_key(init, key, port);
        let inner = environment::map_with(init, key, port);
        assert forall|i: int| 0 <= i < all.len() implies {
            let k = (#[trigger] all[i]).0;
            k == key || exists|j: int| 0 <= j < map.len() && (#[trigger] map[j]).0 == k
        } by {
            if last.0 != key && text::less(key, last.0) {
                if i < inner.len() {
                    assert(all[i] == inner[i]);
                    if inner[i].0 != key {
                        let j = choose|j: int| 0 <= j < init.len() && (#[trigger] init[j]).0 == inner[i].0;
                        assert(map[j].0 == inner[i].0);
                    }
                } else {
                    assert(map[map.len() - 1].0 == all[i].0);
                }
            } else if i < init.len() {
                assert(all[i] == map[i]);
            } else if last.0 != key && i == init.len() {
                assert(all[i] == map[i]);
            }
        }
        assert forall|i: int, j: int| 0 <= i < j < all.len() implies text::less(
            (#[trigger] all[i]).0,
            (#[trigger] all[j]).0,
        ) by {
            if last.0 == key {
                assert(all[i].0 == map[i].0 && all[j].0 == map[j].0);
            } else if text::less(key, last.0) {
                if j < inner.len() {
                    assert(all[i] == inner[i] && all[j] == inner[j]);
                } else {
                    assert(all[i] == inner[i]);
                    if inner[i].0 != key {
                        let m = choose|m: int| 0 <= m < init.len() && (#[trigger] init[m]).0 == inner[i].0;
                        assert(init[m] == map[m]);
                        assert(text::less(map[m].0, map[map.len() - 1].0));
                    }
                }
            } else {
                lemma_less_on(key, last.0, last.0);
                if j < map.len() {
                    assert(all[i] == map[i] && all[j] == map[j]);
                } else {
                    assert(all[i] == map[i]);
                    if i < map.len() - 1 {
                        assert(text::less(map[i].0, map[map.len() - 1].0));
                        lemma_less_on(map[i].0, last.0, key);
                    }
                }
            }
        }
    }
}

/// The ports of a worktree stand in the order of their variables, each variable once.
pub proof fn ports_stand_in_the_order_of_their_variables(assignments: Seq<AssignmentData>)
    ensures
        by_key(environment::ports_by_key(assignments)),
    decreases assignments.len(),
{
    if assignments.len() > 0 {
        ports_stand_in_the_order_of_their_variables(assignments.drop_last());
        lemma_map_stays_by_key(
            environment::ports_by_key(assignments.drop_last()),
            assignments.last().key,
            assignments.last().assigned,
        );
    }
}

} // verus!
