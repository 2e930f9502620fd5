//! What holds of settings that are written and read again.

use vstd::prelude::*;

use crate::config;
use crate::config::Settings;
use crate::environment_laws;
use crate::model;
use crate::process::Output;
use crate::text;

verus! {

// ---------------------------------------------------------------------------
// Lists
// ---------------------------------------------------------------------------

proof fn lemma_filter_map_add<A, B>(a: Seq<A>, b: Seq<A>, f: spec_fn(A) -> Option<B>)
    ensures
        (a + b).filter_map(f) == a.filter_map(f) + b.filter_map(f),
    decreases b.len(),
{
    if b.len() == 0 {
        assert(a + b =~= a);
        assert(b.filter_map(f) =~= Seq::empty());
    } else {
        let init = b.drop_last();
        lemma_filter_map_add(a, init, f);
        assert((a + b).drop_last() =~= a + init);
        assert((a + b).last() == b.last());
        assert((a + b).filter_map(f) =~= a.filter_map(f) + b.filter_map(f));
    }
}

/// One mapping after another.
pub open spec fn both<A, B, C>(f: spec_fn(A) -> Option<B>, g: spec_fn(B) -> Option<C>) -> spec_fn(A) -> Option<C> {
    |a: A|
        match f(a) {
            Some(b) => g(b),
            None => None,
        }
}

proof fn lemma_filter_map_twice<A, B, C>(s: Seq<A>, f: spec_fn(A) -> Option<B>, g: spec_fn(B) -> Option<C>)
    ensures
        s.filter_map(f).filter_map(g) == s.filter_map(both(f, g)),
    decreases s.len(),
{
    if s.len() == 0 {
        assert(s.filter_map(f) =~= Seq::empty());
        assert(s.filter_map(f).filter_map(g) =~= s.filter_map(both(f, g)));
    } else {
        let init = s.drop_last();
        lemma_filter_map_twice(init, f, g);
        match f(s.last()) {
            Some(b) => {
                let mapped = init.filter_map(f) + seq![b];
                assert(s.filter_map(f) == mapped);
                assert(mapped.drop_last() =~= init.filter_map(f));
                assert(mapped.last() == b);
            },
            None => {},
        }
    }
}

/// The first value is the first of all values.
proof fn lemma_first_of_all<A, B>(s: Seq<A>, f: spec_fn(A) -> Option<B>)
    ensures
        model::first_some(s, f) == if s.filter_map(f).len() > 0 {
            Some(s.filter_map(f)[0])
        } else {
            None
        },
    decreases s.len(),
{
    if s.len() > 0 {
        let init = s.drop_last();
        lemma_first_of_all(init, f);
        model::first_some_push(init, s.last(), f);
        assert(init.push(s.last()) =~= s);
    }
}

// ---------------------------------------------------------------------------
// Lines
// ---------------------------------------------------------------------------

/// The entry that Git lists for a line of the section: the key in front of the equals sign, and
/// what the text behind it stands for.
pub open spec fn line_entry() -> spec_fn(Seq<char>) -> Option<(Seq<char>, Seq<char>)> {
    |line: Seq<char>|
        match text::cut_first(line, " = "@) {
            Some((key, value)) => Some(("wt."@ + text::trimmed_start(key), config::unquoted(value))),
            None => None,
        }
}

/// The entries that Git lists for a file that holds the section alone.
pub open spec fn entries_in(contents: Seq<char>) -> Seq<(Seq<char>, Seq<char>)> {
    text::lines(contents).filter_map(line_entry())
}

/// The value that a line gives to a key.
pub open spec fn value_on_line(key: Seq<char>) -> spec_fn(Seq<char>) -> Option<Seq<char>> {
    both(line_entry(), config::value_under(key))
}

pub open spec fn is_word(key: Seq<char>) -> bool {
    key.len() > 0 && forall|i: int| 0 <= i < key.len() ==> 'a' <= #[trigger] key[i] && key[i] <= 'z'
}

/// Whether a text stays on one line, and in one entry of a listing.
pub open spec fn on_one_line(s: Seq<char>) -> bool {
    !s.contains('\n') && !s.contains('\r') && !s.contains('\0')
}

/// A line that was written gives its key its value.
proof fn lemma_line_entry(key: Seq<char>, value: Seq<char>)
    requires
        is_word(key),
    ensures
        line_entry()(config::setting_line(key, value)) == Some(("wt."@ + key, value)),
{
    let line = config::setting_line(key, value);
    reveal_strlit("\t");
    reveal_strlit(" = ");
    let front = "\t"@ + key;
    assert forall|k: int| 0 <= k < front.len() implies !text::occurs_at(line, " = "@, k) by {
        if text::occurs_at(line, " = "@, k) {
            assert(line.subrange(k, k + 3)[0] == line[k]);
            if k > 0 {
                assert(line[k] == key[k - 1]);
            }
        }
    }
    text::texts_are_cut_at_the_first_separator(front, " = "@, config::quoted(value));
    config::quotes_read_back(value);
    assert(front[0] == '\t');
    assert(front.drop_first() =~= key);
    assert(text::trimmed_start(front) == text::trimmed_start(key));
    assert('a' <= key[0] && key[0] <= 'z');
    assert(text::trimmed_start(key) == key);
}

proof fn lemma_guarded_without(s: Seq<char>, c: char)
    requires
        !s.contains(c),
        c != '\\',
    ensures
        !config::guarded(s).contains(c),
    decreases s.len(),
{
    if s.len() > 0 {
        let init = s.drop_last();
        assert(s.contains(s.last()));
        if init.contains(c) {
            let k = choose|k: int| 0 <= k < init.len() && init[k] == c;
            assert(s[k] == c);
        }
        lemma_guarded_without(init, c);
        let g = config::guarded(s);
        if g.contains(c) {
            let k = choose|k: int| 0 <= k < g.len() && g[k] == c;
            if k < config::guarded(init).len() {
                assert(config::guarded(init)[k] == c);
            }
        }
    }
}

proof fn lemma_line_without(key: Seq<char>, value: Seq<char>, c: char)
    requires
        is_word(key),
        !value.contains(c),
        c == '\n' || c == '\r' || c == '\0',
    ensures
        !config::setting_line(key, value).contains(c),
{
    let line = config::setting_line(key, value);
    reveal_strlit("\t");
    reveal_strlit(" = ");
    lemma_guarded_without(value, c);
    if line.contains(c) {
        let k = choose|k: int| 0 <= k < line.len() && line[k] == c;
        let n = key.len() as int + 4;
        if 1 <= k < key.len() + 1 {
            assert(line[k] == key[k - 1]);
        } else if k >= n {
            let written = config::quoted(value);
            assert(written[k - n] == c);
            if written == value {
                assert(value.contains(c));
            } else if 0 < k - n < written.len() - 1 {
                assert(config::guarded(value)[k - n - 1] == c);
            }
        }
    }
}

// ---------------------------------------------------------------------------
// Files
// ---------------------------------------------------------------------------

/// A setting that may be there, as a list.
pub open spec fn optional(value: Option<Seq<char>>) -> Seq<Seq<char>> {
    match value {
        Some(value) => seq![value],
        None => Seq::empty(),
    }
}

/// The settings as keys and the values of each.
pub open spec fn fields(settings: Settings) -> Seq<(Seq<char>, Seq<Seq<char>>)> {
    seq![
        ("base"@, optional(settings.base)),
        ("env"@, optional(settings.env)),
        ("copy"@, settings.copies),
        (
            "compose"@,
            if settings.compose {
                seq!["true"@]
            } else {
                Seq::empty()
            },
        ),
        ("port"@, settings.ports),
        ("bootstrap"@, optional(settings.bootstrap)),
        ("teardown"@, optional(settings.teardown)),
        ("disposable"@, settings.disposable),
    ]
}

/// The lines of such a list.
pub open spec fn field_lines(list: Seq<(Seq<char>, Seq<Seq<char>>)>) -> Seq<Seq<char>>
    decreases list.len(),
{
    if list.len() == 0 {
        Seq::empty()
    } else {
        field_lines(list.drop_last()) + config::repeated_lines(list.last().0, list.last().1)
    }
}

/// The values of a key in such a list.
pub open spec fn field_values(list: Seq<(Seq<char>, Seq<Seq<char>>)>, key: Seq<char>) -> Seq<Seq<char>>
    decreases list.len(),
{
    if list.len() == 0 {
        Seq::empty()
    } else {
        field_values(list.drop_last(), key) + if list.last().0 == key {
            list.last().1
        } else {
            Seq::empty()
        }
    }
}

pub open spec fn are_words(list: Seq<(Seq<char>, Seq<Seq<char>>)>) -> bool {
    forall|i: int| 0 <= i < list.len() ==> is_word((#[trigger] list[i]).0)
}

proof fn lemma_repeated_values(key: Seq<char>, values: Seq<Seq<char>>, wanted: Seq<char>)
    requires
        is_word(key),
    ensures
        config::repeated_lines(key, values).filter_map(value_on_line("wt."@ + wanted)) == if key == wanted {
            values
        } else {
            Seq::empty()
        },
    decreases values.len(),
{
    let f = value_on_line("wt."@ + wanted);
    let lines = config::repeated_lines(key, values);
    if values.len() == 0 {
        assert(lines.filter_map(f) =~= Seq::empty());
        assert(values =~= Seq::empty());
    } else {
        let init = values.drop_last();
        lemma_repeated_values(key, init, wanted);
        assert(lines.drop_last() =~= config::repeated_lines(key, init));
        lemma_line_entry(key, values.last());
        assert(lines.last() == config::setting_line(key, values.last()));
        reveal_strlit("wt.");
        if "wt."@ + key == "wt."@ + wanted {
            assert(("wt."@ + key).skip(3) =~= key);
            assert(("wt."@ + wanted).skip(3) =~= wanted);
        }
        if key == wanted {
            assert(f(lines.last()) == Some(values.last()));
            assert(init + seq![values.last()] =~= values);
        } else {
            assert(f(lines.last()) is None);
        }
    }
}

proof fn lemma_field_values(list: Seq<(Seq<char>, Seq<Seq<char>>)>, wanted: Seq<char>)
    requires
        are_words(list),
    ensures
        field_lines(list).filter_map(value_on_line("wt."@ + wanted)) == field_values(list, wanted),
    decreases list.len(),
{
    let f = value_on_line("wt."@ + wanted);
    if list.len() == 0 {
        assert(field_lines(list).filter_map(f) =~= Seq::empty());
    } else {
        let init = list.drop_last();
        let last = list[list.len() - 1];
        assert forall|i: int| 0 <= i < init.len() implies is_word((#[trigger] init[i]).0) by {
            assert(init[i] == list[i]);
        }
        lemma_field_values(init, wanted);
        lemma_repeated_values(last.0, last.1, wanted);
        lemma_filter_map_add(field_lines(init), config::repeated_lines(last.0, last.1), f);
    }
}

/// Whether every value of a list stays on one line.
pub open spec fn values_on_one_line(values: Seq<Seq<char>>) -> bool {
    forall|i: int| 0 <= i < values.len() ==> on_one_line(#[trigger] values[i])
}

/// Whether every setting stays on one line.
pub open spec fn settings_on_one_line(settings: Settings) -> bool {
    &&& values_on_one_line(optional(settings.base))
    &&& values_on_one_line(optional(settings.env))
    &&& values_on_one_line(settings.copies)
    &&& values_on_one_line(settings.ports)
    &&& values_on_one_line(optional(settings.bootstrap))
    &&& values_on_one_line(optional(settings.teardown))
    &&& values_on_one_line(settings.disposable)
}

proof fn lemma_field_lines_whole(list: Seq<(Seq<char>, Seq<Seq<char>>)>)
    requires
        are_words(list),
        forall|i: int| 0 <= i < list.len() ==> values_on_one_line((#[trigger] list[i]).1),
    ensures
        values_on_one_line(field_lines(list)),
    decreases list.len(),
{
    if list.len() > 0 {
        let init = list.drop_last();
        let last = list[list.len() - 1];
        assert forall|i: int| 0 <= i < init.len() implies is_word((#[trigger] init[i]).0) && values_on_one_line(
            init[i].1,
        ) by {
            assert(init[i] == list[i]);
        }
        lemma_field_lines_whole(init);
        let lines = field_lines(list);
        let before = field_lines(init);
        assert forall|i: int| 0 <= i < lines.len() implies on_one_line(#[trigger] lines[i]) by {
            if i < before.len() {
                assert(lines[i] == before[i]);
            } else {
                let value = last.1[i - before.len()];
                assert(lines[i] == config::setting_line(last.0, value));
                lemma_line_without(last.0, value, '\n');
                lemma_line_without(last.0, value, '\r');
                lemma_line_without(last.0, value, '\0');
            }
        }
    }
}

proof fn lemma_keys()
    ensures
        is_word("base"@),
        is_word("env"@),
        is_word("copy"@),
        is_word("compose"@),
        is_word("port"@),
        is_word("bootstrap"@),
        is_word("teardown"@),
        is_word("disposable"@),
{
    reveal_strlit("base");
    reveal_strlit("env");
    reveal_strlit("copy");
    reveal_strlit("compose");
    reveal_strlit("port");
    reveal_strlit("bootstrap");
    reveal_strlit("teardown");
    reveal_strlit("disposable");
}

proof fn lemma_fields(settings: Settings)
    ensures
        are_words(fields(settings)),
        settings_on_one_line(settings) ==> forall|i: int|
            0 <= i < fields(settings).len() ==> values_on_one_line((#[trigger] fields(settings)[i]).1),
{
    lemma_keys();
    reveal_strlit("true");
    if settings_on_one_line(settings) {
        assert(on_one_line("true"@));
        assert forall|i: int| 0 <= i < fields(settings).len() implies values_on_one_line(
            (#[trigger] fields(settings)[i]).1,
        ) by {}
    }
}

/// The text of a list of lines, each of which ends with a line feed.
proof fn lemma_lines_joined(list: Seq<Seq<char>>)
    requires
        list.len() > 0,
        values_on_one_line(list),
    ensures
        text::lines(text::joined(list.push(""@), "\n"@)) == list,
{
    let all = list.push(""@);
    reveal_strlit("");
    reveal_strlit("\n");
    assert("\n"@ =~= seq!['\n']);
    assert forall|i: int| 0 <= i < all.len() implies !(#[trigger] all[i]).contains('\n') by {
        if i < list.len() {
            assert(on_one_line(list[i]));
        }
    }
    environment_laws::joined_pieces_are_split_again(all, '\n');
    let ended = all.drop_last().map_values(|p: Seq<char>| text::without_return(p));
    assert(all.drop_last() =~= list);
    assert forall|i: int| 0 <= i < list.len() implies ended[i] == list[i] by {
        assert(on_one_line(list[i]));
        if list[i].len() > 0 {
            assert(list[i].contains(list[i].last()));
        }
    }
    assert(ended =~= list);
}

proof fn lemma_optional_line(key: Seq<char>, value: Option<Seq<char>>)
    ensures
        config::optional_line(key, value) == config::repeated_lines(key, optional(value)),
{
    assert(config::optional_line(key, value) =~= config::repeated_lines(key, optional(value)));
}

proof fn lemma_compose_line(compose: bool)
    ensures
        (if compose {
            seq!["\tcompose = true"@]
        } else {
            Seq::empty()
        }) == config::repeated_lines(
            "compose"@,
            if compose {
                seq!["true"@]
            } else {
                Seq::empty()
            },
        ),
{
    reveal_strlit("\tcompose = true");
    reveal_strlit("\t");
    reveal_strlit("compose");
    reveal_strlit(" = ");
    reveal_strlit("true");
    assert(config::quoted("true"@) == "true"@) by {
        assert forall|i: int| 0 <= i < "true"@.len() implies config::is_plain(#[trigger] "true"@[i]) by {}
    }
    assert(config::setting_line("compose"@, "true"@) =~= "\tcompose = true"@);
    if compose {
        assert(seq!["\tcompose = true"@] =~= config::repeated_lines("compose"@, seq!["true"@]));
    } else {
        assert(Seq::<Seq<char>>::empty() =~= config::repeated_lines("compose"@, Seq::empty()));
    }
}

/// The lines of a list with one more field.
proof fn lemma_field_added(list: Seq<(Seq<char>, Seq<Seq<char>>)>, key: Seq<char>, values: Seq<Seq<char>>)
    ensures
        field_lines(list.push((key, values))) == field_lines(list) + config::repeated_lines(key, values),
{
    assert(list.push((key, values)).drop_last() =~= list);
}

/// The values of a key in a list with one more field.
proof fn lemma_value_added(
    list: Seq<(Seq<char>, Seq<Seq<char>>)>,
    key: Seq<char>,
    values: Seq<Seq<char>>,
    wanted: Seq<char>,
)
    ensures
        key != wanted ==> field_values(list.push((key, values)), wanted) == field_values(list, wanted),
        key == wanted && field_values(list, wanted).len() == 0 ==> field_values(list.push((key, values)), wanted)
            == values,
{
    assert(list.push((key, values)).drop_last() =~= list);
    let before = field_values(list, wanted);
    assert(before + Seq::<Seq<char>>::empty() =~= before);
    if before.len() == 0 {
        assert(before + values =~= values);
    }
}

/// What settings are written to, line by line.
proof fn lemma_rendered(settings: Settings)
    ensures
        config::rendered(settings) == text::joined(
            (seq!["[wt]"@] + field_lines(fields(settings))).push(""@),
            "\n"@,
        ),
{
    let none = Seq::<(Seq<char>, Seq<Seq<char>>)>::empty();
    let compose = if settings.compose {
        seq!["true"@]
    } else {
        Seq::empty()
    };
    let a = none.push(("base"@, optional(settings.base)));
    let b = a.push(("env"@, optional(settings.env)));
    let c = b.push(("copy"@, settings.copies));
    let d = c.push(("compose"@, compose));
    let e = d.push(("port"@, settings.ports));
    let f = e.push(("bootstrap"@, optional(settings.bootstrap)));
    let g = f.push(("teardown"@, optional(settings.teardown)));
    let h = g.push(("disposable"@, settings.disposable));
    assert(h =~= fields(settings));
    lemma_field_added(none, "base"@, optional(settings.base));
    lemma_field_added(a, "env"@, optional(settings.env));
    lemma_field_added(b, "copy"@, settings.copies);
    lemma_field_added(c, "compose"@, compose);
    lemma_field_added(d, "port"@, settings.ports);
    lemma_field_added(e, "bootstrap"@, optional(settings.bootstrap));
    lemma_field_added(f, "teardown"@, optional(settings.teardown));
    lemma_field_added(g, "disposable"@, settings.disposable);
    lemma_optional_line("base"@, settings.base);
    lemma_optional_line("env"@, settings.env);
    lemma_optional_line("bootstrap"@, settings.bootstrap);
    lemma_optional_line("teardown"@, settings.teardown);
    lemma_compose_line(settings.compose);
    let start = seq!["[wt]"@];
    let la = config::repeated_lines("base"@, optional(settings.base));
    let lb = config::repeated_lines("env"@, optional(settings.env));
    let lc = config::repeated_lines("copy"@, settings.copies);
    let ld = config::repeated_lines("compose"@, compose);
    let le = config::repeated_lines("port"@, settings.ports);
    let lf = config::repeated_lines("bootstrap"@, optional(settings.bootstrap));
    let lg = config::repeated_lines("teardown"@, optional(settings.teardown));
    let lh = config::repeated_lines("disposable"@, settings.disposable);
    lemma_empty_added(start);
    lemma_associative(start, field_lines(none), la);
    lemma_associative(start, field_lines(a), lb);
    lemma_associative(start, field_lines(b), lc);
    lemma_associative(start, field_lines(c), ld);
    lemma_associative(start, field_lines(d), le);
    lemma_associative(start, field_lines(e), lf);
    lemma_associative(start, field_lines(f), lg);
    lemma_associative(start, field_lines(g), lh);
    lemma_pushed(start + field_lines(h), ""@);
}

proof fn lemma_empty_added(start: Seq<Seq<char>>)
    ensures
        start + field_lines(Seq::empty()) == start,
{
    assert(start + field_lines(Seq::empty()) =~= start);
}

proof fn lemma_associative(a: Seq<Seq<char>>, b: Seq<Seq<char>>, c: Seq<Seq<char>>)
    ensures
        a + (b + c) == a + b + c,
{
    assert(a + (b + c) =~= a + b + c);
}

proof fn lemma_pushed(list: Seq<Seq<char>>, last: Seq<char>)
    ensures
        list.push(last) == list + seq![last],
{
    assert(list.push(last) =~= list + seq![last]);
}

/// The values of one field among the settings.
proof fn lemma_field(settings: Settings, wanted: Seq<char>)
    ensures
        field_values(fields(settings), wanted) == (if wanted == "base"@ {
            optional(settings.base)
        } else if wanted == "env"@ {
            optional(settings.env)
        } else if wanted == "copy"@ {
            settings.copies
        } else if wanted == "compose"@ {
            if settings.compose {
                seq!["true"@]
            } else {
                Seq::empty()
            }
        } else if wanted == "port"@ {
            settings.ports
        } else if wanted == "bootstrap"@ {
            optional(settings.bootstrap)
        } else if wanted == "teardown"@ {
            optional(settings.teardown)
        } else if wanted == "disposable"@ {
            settings.disposable
        } else {
            Seq::empty()
        }),
{
    lemma_keys_differ();
    let none = Seq::<(Seq<char>, Seq<Seq<char>>)>::empty();
    let compose = if settings.compose {
        seq!["true"@]
    } else {
        Seq::empty()
    };
    let a = none.push(("base"@, optional(settings.base)));
    let b = a.push(("env"@, optional(settings.env)));
    let c = b.push(("copy"@, settings.copies));
    let d = c.push(("compose"@, compose));
    let e = d.push(("port"@, settings.ports));
    let f = e.push(("bootstrap"@, optional(settings.bootstrap)));
    let g = f.push(("teardown"@, optional(settings.teardown)));
    let h = g.push(("disposable"@, settings.disposable));
    assert(h =~= fields(settings));
    lemma_value_added(none, "base"@, optional(settings.base), wanted);
    lemma_value_added(a, "env"@, optional(settings.env), wanted);
    lemma_value_added(b, "copy"@, settings.copies, wanted);
    lemma_value_added(c, "compose"@, compose, wanted);
    lemma_value_added(d, "port"@, settings.ports, wanted);
    lemma_value_added(e, "bootstrap"@, optional(settings.bootstrap), wanted);
    lemma_value_added(f, "teardown"@, optional(settings.teardown), wanted);
    lemma_value_added(g, "disposable"@, settings.disposable, wanted);
}

/// The lines of what was written.
proof fn lemma_written_lines(settings: Settings)
    requires
        settings_on_one_line(settings),
    ensures
        text::lines(config::rendered(settings)) == seq!["[wt]"@] + field_lines(fields(settings)),
        values_on_one_line(text::lines(config::rendered(settings))),
{
    let lines = field_lines(fields(settings));
    let all = seq!["[wt]"@] + lines;
    lemma_fields(settings);
    lemma_field_lines_whole(fields(settings));
    reveal_strlit("[wt]");
    assert forall|i: int| 0 <= i < all.len() implies on_one_line(#[trigger] all[i]) by {
        if i > 0 {
            assert(all[i] == lines[i - 1]);
        }
    }
    lemma_rendered(settings);
    lemma_lines_joined(all);
}

/// The values of a key in what was written.
proof fn lemma_written_values(settings: Settings, wanted: Seq<char>)
    requires
        settings_on_one_line(settings),
    ensures
        config::values_of(entries_in(config::rendered(settings)), "wt."@ + wanted) == field_values(
            fields(settings),
            wanted,
        ),
        config::value_of(entries_in(config::rendered(settings)), "wt."@ + wanted) == if field_values(
            fields(settings),
            wanted,
        ).len() > 0 {
            Some(field_values(fields(settings), wanted)[0])
        } else {
            None
        },
{
    let lines = field_lines(fields(settings));
    let head = seq!["[wt]"@];
    let all = head + lines;
    let f = value_on_line("wt."@ + wanted);
    lemma_fields(settings);
    lemma_written_lines(settings);
    reveal_strlit("[wt]");
    reveal_strlit(" = ");
    lemma_filter_map_twice(all, line_entry(), config::value_under("wt."@ + wanted));
    lemma_filter_map_add(head, lines, f);
    lemma_field_values(fields(settings), wanted);
    text::lemma_first_at("[wt]"@, " = "@);
    assert(line_entry()("[wt]"@) is None) by {
        match text::first_at("[wt]"@, " = "@) {
            Some(at) => {
                assert("[wt]"@.subrange(at, at + 3)[0] == ' ');
                assert("[wt]"@[at] == ' ');
            },
            None => {},
        }
    }
    assert(f(head.last()) is None);
    assert(head.drop_last() =~= Seq::empty());
    assert(head.filter_map(f) =~= Seq::empty()) by {
        assert(head.drop_last().filter_map(f) =~= Seq::empty());
    }
    assert(Seq::<Seq<char>>::empty() + lines.filter_map(f) =~= lines.filter_map(f));
    lemma_first_of_all(entries_in(config::rendered(settings)), config::value_under("wt."@ + wanted));
}

proof fn lemma_full_keys()
    ensures
        "wt."@ + "base"@ == "wt.base"@,
        "wt."@ + "env"@ == "wt.env"@,
        "wt."@ + "copy"@ == "wt.copy"@,
        "wt."@ + "compose"@ == "wt.compose"@,
        "wt."@ + "port"@ == "wt.port"@,
        "wt."@ + "bootstrap"@ == "wt.bootstrap"@,
        "wt."@ + "teardown"@ == "wt.teardown"@,
        "wt."@ + "disposable"@ == "wt.disposable"@,
{
    reveal_strlit("wt.");
    reveal_strlit("base");
    reveal_strlit("env");
    reveal_strlit("copy");
    reveal_strlit("compose");
    reveal_strlit("port");
    reveal_strlit("bootstrap");
    reveal_strlit("teardown");
    reveal_strlit("disposable");
    reveal_strlit("wt.base");
    reveal_strlit("wt.env");
    reveal_strlit("wt.copy");
    reveal_strlit("wt.compose");
    reveal_strlit("wt.port");
    reveal_strlit("wt.bootstrap");
    reveal_strlit("wt.teardown");
    reveal_strlit("wt.disposable");
    assert("wt."@ + "base"@ =~= "wt.base"@);
    assert("wt."@ + "env"@ =~= "wt.env"@);
    assert("wt."@ + "copy"@ =~= "wt.copy"@);
    assert("wt."@ + "compose"@ =~= "wt.compose"@);
    assert("wt."@ + "port"@ =~= "wt.port"@);
    assert("wt."@ + "bootstrap"@ =~= "wt.bootstrap"@);
    assert("wt."@ + "teardown"@ =~= "wt.teardown"@);
    assert("wt."@ + "disposable"@ =~= "wt.disposable"@);
}

proof fn lemma_keys_differ()
    ensures
        "base"@ != "env"@ && "base"@ != "copy"@ && "base"@ != "compose"@ && "base"@ != "port"@ && "base"@
            != "bootstrap"@ && "base"@ != "teardown"@ && "base"@ != "disposable"@,
        "env"@ != "copy"@ && "env"@ != "compose"@ && "env"@ != "port"@ && "env"@ != "bootstrap"@ && "env"@
            != "teardown"@ && "env"@ != "disposable"@,
        "copy"@ != "compose"@ && "copy"@ != "port"@ && "copy"@ != "bootstrap"@ && "copy"@ != "teardown"@ && "copy"@
            != "disposable"@,
        "compose"@ != "port"@ && "compose"@ != "bootstrap"@ && "compose"@ != "teardown"@ && "compose"@
            != "disposable"@,
        "port"@ != "bootstrap"@ && "port"@ != "teardown"@ && "port"@ != "disposable"@,
        "bootstrap"@ != "teardown"@ && "bootstrap"@ != "disposable"@,
        "teardown"@ != "disposable"@,
{
    reveal_strlit("base");
    reveal_strlit("env");
    reveal_strlit("copy");
    reveal_strlit("compose");
    reveal_strlit("port");
    reveal_strlit("bootstrap");
    reveal_strlit("teardown");
    reveal_strlit("disposable");
    assert("base"@[0] == 'b' && "copy"@[0] == 'c' && "port"@[0] == 'p');
    assert("base"@.len() == 4 && "env"@.len() == 3 && "copy"@.len() == 4 && "compose"@.len() == 7);
    assert("port"@.len() == 4 && "bootstrap"@.len() == 9 && "teardown"@.len() == 8 && "disposable"@.len() == 10);
}

/// Settings that were written read back as they were: every field, with its values in their order
/// and as often as they were given, where each value stays on one line.
pub proof fn written_settings_read_back(settings: Settings)
    requires
        settings_on_one_line(settings),
    ensures
        config::settings_of(entries_in(config::rendered(settings))) == settings,
{
    let entries = entries_in(config::rendered(settings));
    lemma_full_keys();
    lemma_keys_differ();
    lemma_written_values(settings, "base"@);
    lemma_written_values(settings, "env"@);
    lemma_written_values(settings, "copy"@);
    lemma_written_values(settings, "compose"@);
    lemma_written_values(settings, "port"@);
    lemma_written_values(settings, "bootstrap"@);
    lemma_written_values(settings, "teardown"@);
    lemma_written_values(settings, "disposable"@);
    lemma_field(settings, "base"@);
    lemma_field(settings, "env"@);
    lemma_field(settings, "copy"@);
    lemma_field(settings, "compose"@);
    lemma_field(settings, "port"@);
    lemma_field(settings, "bootstrap"@);
    lemma_field(settings, "teardown"@);
    lemma_field(settings, "disposable"@);
    assert(config::switched_on("true"@)) by {
        reveal_strlit("true");
        assert(text::lower_text("true"@) =~= "true"@);
    }
}

// ---------------------------------------------------------------------------
// Listings
// ---------------------------------------------------------------------------

/// What `git config --null --list` prints for entries: the key, a line feed, the value and a zero
/// character.
pub open spec fn listing(entries: Seq<(Seq<char>, Seq<char>)>) -> Seq<char>
    decreases entries.len(),
{
    if entries.len() == 0 {
        Seq::empty()
    } else {
        listing(entries.drop_last()) + printed(entries.last()) + seq!['\0']
    }
}

pub open spec fn printed(entry: (Seq<char>, Seq<char>)) -> Seq<char> {
    entry.0 + seq!['\n'] + entry.1
}

/// Whether an entry can be told apart in a listing.
pub open spec fn is_clean(entry: (Seq<char>, Seq<char>)) -> bool {
    !entry.0.contains('\n') && !entry.0.contains('\0') && !entry.1.contains('\0')
}

pub open spec fn are_clean(entries: Seq<(Seq<char>, Seq<char>)>) -> bool {
    forall|i: int| 0 <= i < entries.len() ==> is_clean(#[trigger] entries[i])
}

proof fn lemma_printed(entry: (Seq<char>, Seq<char>))
    requires
        is_clean(entry),
    ensures
        !printed(entry).contains('\0'),
        text::cut_first(printed(entry), "\n"@) == Some(entry),
{
    let s = printed(entry);
    let n = entry.0.len() as int;
    reveal_strlit("\n");
    assert("\n"@ =~= seq!['\n']);
    if s.contains('\0') {
        let k = choose|k: int| 0 <= k < s.len() && s[k] == '\0';
        if k < n {
            assert(entry.0[k] == '\0');
        } else if k > n {
            assert(entry.1[k - n - 1] == '\0');
        }
    }
    text::texts_are_cut_at_the_first_character(entry.0, '\n', entry.1);
}

proof fn lemma_listing(entries: Seq<(Seq<char>, Seq<char>)>)
    requires
        are_clean(entries),
    ensures
        text::split(listing(entries), '\0') == entries.map_values(|e: (Seq<char>, Seq<char>)| printed(e)).push(
            Seq::empty(),
        ),
    decreases entries.len(),
{
    let show = |e: (Seq<char>, Seq<char>)| printed(e);
    let none = Seq::<char>::empty();
    if entries.len() == 0 {
        assert(entries.map_values(show).push(none) =~= seq![none]);
    } else {
        let init = entries.drop_last();
        let last = entries[entries.len() - 1];
        assert forall|i: int| 0 <= i < init.len() implies is_clean(#[trigger] init[i]) by {
            assert(init[i] == entries[i]);
        }
        lemma_listing(init);
        lemma_printed(last);
        let before = listing(init);
        let open = before + printed(last);
        text::lemma_split_extend(before, printed(last), '\0');
        assert(none + printed(last) =~= printed(last));
        assert(init.map_values(show).push(none).drop_last() =~= init.map_values(show));
        assert(text::split(open, '\0') == init.map_values(show).push(printed(last)));
        assert(entries.map_values(show) =~= init.map_values(show).push(printed(last)));
        assert((open + seq!['\0']).drop_last() =~= open);
    }
}

/// Entries are read again from their listing.
proof fn lemma_listed_entries(entries: Seq<(Seq<char>, Seq<char>)>, file: Seq<char>, output: Output)
    requires
        are_clean(entries),
        output.success(),
        output.stdout@ == vstd::utf8::encode_utf8(listing(entries)),
    ensures
        config::listed_entries(file, output) == Ok::<Seq<(Seq<char>, Seq<char>)>, Seq<char>>(entries),
{
    let s = listing(entries);
    let show = |e: (Seq<char>, Seq<char>)| printed(e);
    let shown = entries.map_values(show);
    vstd::utf8::encode_utf8_valid_utf8(s);
    vstd::utf8::encode_utf8_decode_utf8(s);
    lemma_listing(entries);
    assert(shown.push(Seq::empty()).drop_last() =~= shown);
    assert(text::terminated(s, '\0') == shown);
    assert forall|i: int| 0 <= i < shown.len() implies text::cut_first(#[trigger] shown[i], "\n"@) == Some(
        entries[i],
    ) by {
        lemma_printed(entries[i]);
    }
    assert(shown.map_values(|e: Seq<char>| text::cut_first(e, "\n"@)->0) =~= entries);
}

proof fn lemma_unquoted_without(s: Seq<char>, c: char)
    requires
        !s.contains(c),
    ensures
        !config::unquoted(s).contains(c),
    decreases s.len(),
{
    if s.len() > 0 {
        let n: int = if s[0] == '\\' && s.len() > 1 {
            2
        } else {
            1
        };
        let rest = s.skip(n);
        if rest.contains(c) {
            let k = choose|k: int| 0 <= k < rest.len() && rest[k] == c;
            assert(s[k + n] == c);
        }
        lemma_unquoted_without(rest, c);
        assert(s.skip(1) =~= s.drop_first());
        assert(s.contains(s[0]));
        if n == 2 {
            assert(s.contains(s[1]));
        }
        let u = config::unquoted(s);
        if u.contains(c) {
            let k = choose|k: int| 0 <= k < u.len() && u[k] == c;
            let less = config::unquoted(rest);
            if u.len() == less.len() {
                assert(less[k] == c);
            } else if k > 0 {
                assert(less[k - 1] == c);
            }
        }
    }
}

proof fn lemma_trimmed_without(s: Seq<char>, c: char)
    requires
        !s.contains(c),
    ensures
        !text::trimmed_start(s).contains(c),
    decreases s.len(),
{
    if s.len() > 0 && text::white(s[0]) {
        let rest = s.drop_first();
        if rest.contains(c) {
            let k = choose|k: int| 0 <= k < rest.len() && rest[k] == c;
            assert(s[k + 1] == c);
        }
        lemma_trimmed_without(rest, c);
    }
}

/// The entry of a line can be told apart in a listing.
proof fn lemma_entry_is_clean(line: Seq<char>)
    requires
        on_one_line(line),
        line_entry()(line) is Some,
    ensures
        is_clean(line_entry()(line)->0),
{
    text::lemma_first_at(line, " = "@);
    reveal_strlit("wt.");
    let at = text::first_at(line, " = "@)->0;
    let key = line.take(at);
    let value = line.skip(at + " = "@.len());
    assert forall|c: char| !line.contains(c) implies !#[trigger] key.contains(c) && !value.contains(c) by {
        if key.contains(c) {
            let k = choose|k: int| 0 <= k < key.len() && key[k] == c;
            assert(line[k] == c);
        }
        if value.contains(c) {
            let k = choose|k: int| 0 <= k < value.len() && value[k] == c;
            assert(line[k + at + " = "@.len()] == c);
        }
    }
    assert(!key.contains('\n') && !key.contains('\0'));
    lemma_trimmed_without(key, '\n');
    lemma_trimmed_without(key, '\0');
    lemma_unquoted_without(value, '\0');
    lemma_prefixed_without(text::trimmed_start(key), '\n');
    lemma_prefixed_without(text::trimmed_start(key), '\0');
}

proof fn lemma_prefixed_without(key: Seq<char>, c: char)
    requires
        !key.contains(c),
        c == '\n' || c == '\0',
    ensures
        !("wt."@ + key).contains(c),
{
    reveal_strlit("wt.");
    let s = "wt."@ + key;
    if s.contains(c) {
        let k = choose|k: int| 0 <= k < s.len() && s[k] == c;
        if k >= 3 {
            assert(key[k - 3] == c);
        }
    }
}

proof fn lemma_entries_are_clean(lines: Seq<Seq<char>>)
    requires
        values_on_one_line(lines),
    ensures
        are_clean(lines.filter_map(line_entry())),
    decreases lines.len(),
{
    let entries = lines.filter_map(line_entry());
    if lines.len() > 0 {
        let init = lines.drop_last();
        let last = lines[lines.len() - 1];
        assert forall|i: int| 0 <= i < init.len() implies on_one_line(#[trigger] init[i]) by {
            assert(init[i] == lines[i]);
        }
        lemma_entries_are_clean(init);
        let before = init.filter_map(line_entry());
        assert(on_one_line(last));
        if line_entry()(last) is Some {
            lemma_entry_is_clean(last);
        }
        assert forall|i: int| 0 <= i < entries.len() implies is_clean(#[trigger] entries[i]) by {
            if i < before.len() {
                assert(entries[i] == before[i]);
            }
        }
    } else {
        assert(entries =~= Seq::empty());
    }
}

/// A configuration that could be written is loaded as it was, from what Git prints where it lists an
/// entry for each line of the section.
pub proof fn written_settings_are_loaded(settings: Settings, file: Seq<char>, output: Output)
    requires
        settings_on_one_line(settings),
        config::writable(settings) is Ok,
        output.success(),
        output.stdout@ == vstd::utf8::encode_utf8(listing(entries_in(config::rendered(settings)))),
    ensures
        config::loaded(file, Some(output)) == Ok::<Settings, Seq<char>>(settings),
{
    written_settings_read_back(settings);
    lemma_written_lines(settings);
    lemma_entries_are_clean(text::lines(config::rendered(settings)));
    lemma_listed_entries(entries_in(config::rendered(settings)), file, output);
}

} // verus!
