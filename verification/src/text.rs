//! Text as sequences of characters: the operations every other module is built from.

use vstd::prelude::*;

use crate::model;

verus! {

broadcast use crate::model::lemma_views_push;

/// Appends one character: `String::push` adds its argument at the end and changes nothing else.
pub assume_specification[ String::push ](s: &mut String, c: char)
    ensures
        final(s)@ == old(s)@.push(c),
;

/// The characters of a text.
pub fn chars(s: &str) -> (r: Vec<char>)
    ensures
        r@ == s@,
{
    let mut out: Vec<char> = Vec::new();
    for c in it: s.chars()
        invariant
            out@ == s@.take(it.index()),
            it.seq() == s@,
    {
        out.push(c);
    }
    out
}

/// The text made of the characters from `from` up to `to`.
pub fn text_of(chars: &Vec<char>, from: usize, to: usize) -> (r: String)
    requires
        from <= to <= chars@.len(),
    ensures
        r@ == chars@.subrange(from as int, to as int),
{
    let mut out = String::new();
    let mut i: usize = from;
    while i < to
        invariant
            from <= i <= to <= chars@.len(),
            out@ == chars@.subrange(from as int, i as int),
        decreases to - i,
    {
        out.push(chars[i]);
        i += 1;
    }
    out
}

/// Whether two texts hold the same characters.
pub fn same(a: &str, b: &str) -> (r: bool)
    ensures
        r == (a@ == b@),
{
    a.to_owned() == b.to_owned()
}

/// Both texts one after the other.
pub fn concat(a: &str, b: &str) -> (r: String)
    ensures
        r@ == a@ + b@,
{
    let mut out = a.to_owned();
    out.append(b);
    out
}

/// Three texts one after the other.
pub fn concat3(a: &str, b: &str, c: &str) -> (r: String)
    ensures
        r@ == a@ + b@ + c@,
{
    let mut out = a.to_owned();
    out.append(b);
    out.append(c);
    out
}

/// A copy of a list of texts.
pub fn copies_of(list: &Vec<String>) -> (r: Vec<String>)
    ensures
        model::views(r@) == model::views(list@),
{
    let mut out: Vec<String> = Vec::new();
    for i in 0..list.len()
        invariant
            model::views(out@) == model::views(list@).take(i as int),
    {
        out.push(list[i].clone());
        proof {
            assert(model::views(list@).take(i + 1) =~= model::views(list@).take(i as int).push(model::views(list@)[i as int]));
            assert(model::views(out@) =~= model::views(list@).take(i + 1));
        }
    }
    assert(model::views(list@).take(list@.len() as int) =~= model::views(list@));
    out
}

/// Whether two lists hold the same texts in the same order.
pub fn same_lists(a: &Vec<String>, b: &Vec<String>) -> (r: bool)
    ensures
        r == (model::views(a@) == model::views(b@)),
{
    if a.len() != b.len() {
        assert(model::views(a@).len() != model::views(b@).len());
        return false;
    }
    for i in 0..a.len()
        invariant
            a@.len() == b@.len(),
            forall|k: int| 0 <= k < i ==> model::views(a@)[k] == model::views(b@)[k],
    {
        if !same(&a[i], &b[i]) {
            assert(model::views(a@)[i as int] != model::views(b@)[i as int]);
            return false;
        }
    }
    assert(model::views(a@) =~= model::views(b@));
    true
}

/// Whether two optional texts are the same.
pub fn same_options(a: &Option<String>, b: &Option<String>) -> (r: bool)
    ensures
        r == (model::opt(*a) == model::opt(*b)),
{
    match (a, b) {
        (Some(a), Some(b)) => same(a, b),
        (None, None) => true,
        _ => false,
    }
}

/// A copy of an optional text.
pub fn copy_of(s: &Option<String>) -> (r: Option<String>)
    ensures
        model::opt(r) == model::opt(*s),
{
    match s {
        Some(s) => Some(s.clone()),
        None => None,
    }
}

/// Whether a list holds a text.
pub fn list_contains(list: &Vec<String>, wanted: &str) -> (r: bool)
    ensures
        r == model::views(list@).contains(wanted@),
{
    for i in 0..list.len()
        invariant
            forall|j: int| 0 <= j < i ==> model::views(list@)[j] != wanted@,
    {
        if same(&list[i], wanted) {
            assert(model::views(list@)[i as int] == wanted@);
            return true;
        }
        assert(model::views(list@)[i as int] != wanted@);
    }
    false
}

// ---------------------------------------------------------------------------
// ASCII letters and digits
// ---------------------------------------------------------------------------

/// The lower-case form of an ASCII letter; any other character is itself.
pub open spec fn ascii_lower(c: char) -> char {
    if 'A' <= c && c <= 'Z' {
        ((c as u8) + 32) as u8 as char
    } else {
        c
    }
}

pub open spec fn is_ascii_digit(c: char) -> bool {
    '0' <= c && c <= '9'
}

pub open spec fn is_ascii_alphanumeric(c: char) -> bool {
    is_ascii_digit(c) || ('a' <= c && c <= 'z') || ('A' <= c && c <= 'Z')
}

pub open spec fn lower_text(s: Seq<char>) -> Seq<char> {
    s.map_values(|c: char| ascii_lower(c))
}

/// Whether two texts differ at most in the case of ASCII letters.
pub open spec fn same_ignoring_case(a: Seq<char>, b: Seq<char>) -> bool {
    lower_text(a) == lower_text(b)
}

pub fn lower(c: char) -> (r: char)
    ensures
        r == ascii_lower(c),
{
    if 'A' <= c && c <= 'Z' {
        ((c as u8) + 32) as char
    } else {
        c
    }
}

pub fn ascii_digit(c: char) -> (r: bool)
    ensures
        r == is_ascii_digit(c),
{
    '0' <= c && c <= '9'
}

pub fn ascii_alphanumeric(c: char) -> (r: bool)
    ensures
        r == is_ascii_alphanumeric(c),
{
    ascii_digit(c) || ('a' <= c && c <= 'z') || ('A' <= c && c <= 'Z')
}

pub fn to_ascii_lowercase(s: &str) -> (r: String)
    ensures
        r@ == lower_text(s@),
{
    let mut out = String::new();
    let source = chars(s);
    for i in 0..source.len()
        invariant
            source@ == s@,
            out@ == lower_text(s@.take(i as int)),
    {
        out.push(lower(source[i]));
        assert(lower_text(s@.take(i + 1)) =~= lower_text(s@.take(i as int)).push(ascii_lower(s@[i as int])));
    }
    assert(s@.take(s@.len() as int) =~= s@);
    out
}

pub fn eq_ignore_ascii_case(a: &str, b: &str) -> (r: bool)
    ensures
        r == same_ignoring_case(a@, b@),
{
    to_ascii_lowercase(a) == to_ascii_lowercase(b)
}

// ---------------------------------------------------------------------------
// Searching
// ---------------------------------------------------------------------------

/// Whether `part` stands in `s` at position `at`.
pub open spec fn occurs_at(s: Seq<char>, part: Seq<char>, at: int) -> bool {
    0 <= at && at + part.len() <= s.len() && s.subrange(at, at + part.len()) == part
}

/// Whether `part` stands somewhere in `s`.
pub open spec fn has_part(s: Seq<char>, part: Seq<char>) -> bool {
    exists|at: int| occurs_at(s, part, at)
}

/// The position of the first occurrence of `part`, if there is one.
pub open spec fn first_at(s: Seq<char>, part: Seq<char>) -> Option<int>
    decreases s.len(),
{
    if part.is_prefix_of(s) {
        Some(0)
    } else if s.len() == 0 {
        None
    } else {
        match first_at(s.drop_first(), part) {
            Some(at) => Some(at + 1),
            None => None,
        }
    }
}

/// The position of the last occurrence of `part`, if there is one.
pub open spec fn last_at(s: Seq<char>, part: Seq<char>) -> Option<int>
    decreases s.len(),
{
    if part.is_suffix_of(s) {
        Some(s.len() - part.len())
    } else if s.len() == 0 {
        None
    } else {
        last_at(s.drop_last(), part)
    }
}

/// `first_at` is the least position at which the part occurs.
pub proof fn lemma_first_at(s: Seq<char>, part: Seq<char>)
    ensures
        match first_at(s, part) {
            Some(at) => occurs_at(s, part, at) && forall|k: int|
                0 <= k < at ==> !occurs_at(s, part, k),
            None => !has_part(s, part),
        },
    decreases s.len(),
{
    if part.is_prefix_of(s) {
        assert(occurs_at(s, part, 0));
    } else if s.len() == 0 {
        assert forall|k: int| !occurs_at(s, part, k) by {
            if occurs_at(s, part, k) {
                assert(s.subrange(k, k + part.len()) =~= s.subrange(0, part.len() as int));
            }
        }
    } else {
        let rest = s.drop_first();
        lemma_first_at(rest, part);
        assert forall|k: int| 1 <= k implies occurs_at(s, part, k) == occurs_at(rest, part, k - 1) by {
            if k + part.len() <= s.len() {
                assert(s.subrange(k, k + part.len()) =~= rest.subrange(k - 1, k - 1 + part.len()));
            }
        }
        assert(!occurs_at(s, part, 0));
        match first_at(rest, part) {
            Some(at) => {
                assert(occurs_at(s, part, at + 1));
                assert forall|k: int| 0 <= k < at + 1 implies !occurs_at(s, part, k) by {
                    if k >= 1 {
                        assert(!occurs_at(rest, part, k - 1));
                    }
                }
            },
            None => {
                assert forall|k: int| !occurs_at(s, part, k) by {
                    if k >= 1 {
                        assert(!occurs_at(rest, part, k - 1));
                    }
                }
            },
        }
    }
}

/// `last_at` is the greatest position at which the part occurs.
pub proof fn lemma_last_at(s: Seq<char>, part: Seq<char>)
    ensures
        match last_at(s, part) {
            Some(at) => occurs_at(s, part, at) && forall|k: int|
                at < k ==> !occurs_at(s, part, k),
            None => !has_part(s, part),
        },
    decreases s.len(),
{
    if part.is_suffix_of(s) {
        assert(occurs_at(s, part, s.len() - part.len()));
    } else if s.len() == 0 {
        assert forall|k: int| !occurs_at(s, part, k) by {
            if occurs_at(s, part, k) {
                assert(part =~= s.subrange(s.len() - part.len(), s.len() as int));
            }
        }
    } else {
        let rest = s.drop_last();
        lemma_last_at(rest, part);
        assert forall|k: int| occurs_at(s, part, k) == occurs_at(rest, part, k) by {
            if occurs_at(s, part, k) {
                if k + part.len() == s.len() {
                    assert(part.is_suffix_of(s));
                }
                assert(s.subrange(k, k + part.len()) =~= rest.subrange(k, k + part.len()));
            }
            if occurs_at(rest, part, k) {
                assert(s.subrange(k, k + part.len()) =~= rest.subrange(k, k + part.len()));
            }
        }
    }
}

/// Whether the characters of `part` stand in `s` at `at`.
pub fn matches_at(s: &Vec<char>, part: &Vec<char>, at: usize) -> (r: bool)
    requires
        at <= s@.len(),
    ensures
        r == occurs_at(s@, part@, at as int),
{
    if part.len() > s.len() - at {
        return false;
    }
    for i in 0..part.len()
        invariant
            at + part@.len() <= s@.len() <= usize::MAX,
            forall|j: int| 0 <= j < i ==> s@[at + j] == part@[j],
    {
        if s[at + i] != part[i] {
            assert(s@.subrange(at as int, at + part@.len())[i as int] != part@[i as int]);
            return false;
        }
    }
    assert(s@.subrange(at as int, at + part@.len()) =~= part@);
    true
}

pub fn starts_with(s: &str, prefix: &str) -> (r: bool)
    ensures
        r == prefix@.is_prefix_of(s@),
{
    let source = chars(s);
    let part = chars(prefix);
    assert(occurs_at(s@, prefix@, 0) == prefix@.is_prefix_of(s@));
    matches_at(&source, &part, 0)
}

pub fn ends_with(s: &str, suffix: &str) -> (r: bool)
    ensures
        r == suffix@.is_suffix_of(s@),
{
    let source = chars(s);
    let part = chars(suffix);
    if part.len() > source.len() {
        return false;
    }
    let at: usize = source.len() - part.len();
    assert(occurs_at(s@, suffix@, at as int) == suffix@.is_suffix_of(s@));
    matches_at(&source, &part, at)
}

/// The position, counted in characters, of the first occurrence of `part`.
pub fn find(s: &str, part: &str) -> (r: Option<usize>)
    ensures
        match first_at(s@, part@) {
            Some(at) => r == Some(at as usize) && 0 <= at && at + part@.len() <= s@.len() <= usize::MAX,
            None => r is None,
        },
{
    let source = chars(s);
    let wanted = chars(part);
    proof {
        lemma_first_at(s@, part@);
    }
    if wanted.len() == 0 {
        assert(occurs_at(s@, part@, 0));
        return Some(0);
    }
    for i in 0..source.len()
        invariant
            source@ == s@,
            wanted@ == part@,
            forall|k: int| 0 <= k < i ==> !occurs_at(s@, part@, k),
    {
        if matches_at(&source, &wanted, i) {
            proof {
                lemma_first_at(s@, part@);
                assert(first_at(s@, part@) == Some(i as int));
            }
            return Some(i);
        }
    }
    None
}


pub fn contains(s: &str, part: &str) -> (r: bool)
    ensures
        r == has_part(s@, part@),
{
    proof {
        lemma_first_at(s@, part@);
    }
    find(s, part).is_some()
}

/// The position, counted in characters, of the last occurrence of a non-empty `part`.
pub fn rfind(s: &str, part: &str) -> (r: Option<usize>)
    requires
        part@.len() > 0,
    ensures
        match last_at(s@, part@) {
            Some(at) => r == Some(at as usize) && 0 <= at && at + part@.len() <= s@.len() <= usize::MAX,
            None => r is None,
        },
{
    let source = chars(s);
    let wanted = chars(part);
    proof {
        lemma_last_at(s@, part@);
    }
    let mut i: usize = source.len();
    while i > 0
        invariant
            source@ == s@,
            wanted@ == part@,
            part@.len() > 0,
            i <= s@.len() <= usize::MAX,
            forall|k: int| i <= k ==> !occurs_at(s@, part@, k),
        decreases i,
    {
        i -= 1;
        if matches_at(&source, &wanted, i) {
            proof {
                lemma_last_at(s@, part@);
                assert(last_at(s@, part@) == Some(i as int));
            }
            return Some(i);
        }
    }
    None
}

/// What follows `prefix`, where the text starts with it.
pub open spec fn after_prefix(s: Seq<char>, prefix: Seq<char>) -> Option<Seq<char>> {
    if prefix.is_prefix_of(s) {
        Some(s.skip(prefix.len() as int))
    } else {
        None
    }
}

/// What precedes `suffix`, where the text ends with it.
pub open spec fn before_suffix(s: Seq<char>, suffix: Seq<char>) -> Option<Seq<char>> {
    if suffix.is_suffix_of(s) {
        Some(s.take(s.len() - suffix.len()))
    } else {
        None
    }
}

pub fn strip_prefix(s: &str, prefix: &str) -> (r: Option<String>)
    ensures
        model::opt(r) == after_prefix(s@, prefix@),
{
    if !starts_with(s, prefix) {
        return None;
    }
    let source = chars(s);
    let part = chars(prefix);
    Some(text_of(&source, part.len(), source.len()))
}

pub fn strip_suffix(s: &str, suffix: &str) -> (r: Option<String>)
    ensures
        model::opt(r) == before_suffix(s@, suffix@),
{
    if !ends_with(s, suffix) {
        return None;
    }
    let source = chars(s);
    let part = chars(suffix);
    Some(text_of(&source, 0, source.len() - part.len()))
}

/// The text without any copy of `prefix` at its start.
pub open spec fn without_prefixes(s: Seq<char>, prefix: Seq<char>) -> Seq<char>
    decreases s.len(),
{
    if prefix.len() > 0 && prefix.is_prefix_of(s) {
        without_prefixes(s.skip(prefix.len() as int), prefix)
    } else {
        s
    }
}

pub fn trim_prefixes(s: &str, prefix: &str) -> (r: String)
    ensures
        r@ == without_prefixes(s@, prefix@),
{
    let mut out = s.to_owned();
    if prefix.is_empty() {
        return out;
    }
    loop
        invariant
            prefix@.len() > 0,
            without_prefixes(s@, prefix@) == without_prefixes(out@, prefix@),
        ensures
            out@ == without_prefixes(s@, prefix@),
        decreases out@.len(),
    {
        match strip_prefix(&out, prefix) {
            Some(rest) => {
                out = rest;
            },
            None => {
                break;
            },
        }
    }
    out
}

/// The texts before and after the first occurrence of `sep`.
pub open spec fn cut_first(s: Seq<char>, sep: Seq<char>) -> Option<(Seq<char>, Seq<char>)> {
    match first_at(s, sep) {
        Some(at) => Some((s.take(at), s.skip(at + sep.len()))),
        None => None,
    }
}

/// The texts before and after the last occurrence of `sep`.
pub open spec fn cut_last(s: Seq<char>, sep: Seq<char>) -> Option<(Seq<char>, Seq<char>)> {
    match last_at(s, sep) {
        Some(at) => Some((s.take(at), s.skip(at + sep.len()))),
        None => None,
    }
}

/// A part is found where it first stands.
pub proof fn the_first_occurrence_is_found(a: Seq<char>, part: Seq<char>, b: Seq<char>)
    requires
        forall|k: int| 0 <= k < a.len() ==> !occurs_at(a + part + b, part, k),
    ensures
        first_at(a + part + b, part) == Some(a.len() as int),
{
    let s = a + part + b;
    let at = a.len() as int;
    lemma_first_at(s, part);
    assert(s.subrange(at, at + part.len()) =~= part);
    assert(occurs_at(s, part, at));
    assert(has_part(s, part));
    let first = first_at(s, part)->0;
    assert(first == at);
}

/// A character is found where it first stands.
pub proof fn the_first_character_is_found(a: Seq<char>, c: char, b: Seq<char>)
    requires
        !a.contains(c),
    ensures
        first_at(a + seq![c] + b, seq![c]) == Some(a.len() as int),
{
    let part = seq![c];
    let s = a + part + b;
    assert forall|k: int| 0 <= k < a.len() implies !occurs_at(s, part, k) by {
        if occurs_at(s, part, k) {
            assert(s.subrange(k, k + part.len())[0] == a[k]);
            assert(a.contains(a[k]));
        }
    }
    the_first_occurrence_is_found(a, part, b);
}

/// A part is found from behind where it last stands.
pub proof fn the_last_occurrence_is_found(a: Seq<char>, part: Seq<char>, b: Seq<char>)
    requires
        forall|k: int| a.len() < k ==> !occurs_at(a + part + b, part, k),
    ensures
        last_at(a + part + b, part) == Some(a.len() as int),
{
    let s = a + part + b;
    let at = a.len() as int;
    lemma_last_at(s, part);
    assert(s.subrange(at, at + part.len()) =~= part);
    assert(occurs_at(s, part, at));
    assert(has_part(s, part));
    let last = last_at(s, part)->0;
    assert(last == at);
}

/// A character is found from behind where it last stands.
pub proof fn the_last_character_is_found(a: Seq<char>, c: char, b: Seq<char>)
    requires
        !b.contains(c),
    ensures
        last_at(a + seq![c] + b, seq![c]) == Some(a.len() as int),
{
    let part = seq![c];
    let s = a + part + b;
    assert forall|k: int| a.len() < k implies !occurs_at(s, part, k) by {
        if occurs_at(s, part, k) {
            assert(s.subrange(k, k + part.len())[0] == s[k]);
            assert(s[k] == b[k - a.len() - 1]);
            assert(b.contains(s[k]));
        }
    }
    the_last_occurrence_is_found(a, part, b);
}

/// A text is cut where the separator first stands: what comes before it and what comes after it are
/// given back.
pub proof fn texts_are_cut_at_the_first_separator(a: Seq<char>, sep: Seq<char>, b: Seq<char>)
    requires
        forall|k: int| 0 <= k < a.len() ==> !occurs_at(a + sep + b, sep, k),
    ensures
        cut_first(a + sep + b, sep) == Some((a, b)),
{
    let s = a + sep + b;
    let at = a.len() as int;
    lemma_first_at(s, sep);
    assert(s.subrange(at, at + sep.len()) =~= sep);
    assert(occurs_at(s, sep, at));
    assert(has_part(s, sep));
    let first = first_at(s, sep)->0;
    assert(first == at);
    assert(s.take(at) =~= a);
    assert(s.skip(at + sep.len()) =~= b);
}

/// A text is cut at a character that does not stand before.
pub proof fn texts_are_cut_at_the_first_character(a: Seq<char>, c: char, b: Seq<char>)
    requires
        !a.contains(c),
    ensures
        cut_first(a + seq![c] + b, seq![c]) == Some((a, b)),
{
    let sep = seq![c];
    let s = a + sep + b;
    assert forall|k: int| 0 <= k < a.len() implies !occurs_at(s, sep, k) by {
        if occurs_at(s, sep, k) {
            assert(s.subrange(k, k + sep.len())[0] == a[k]);
            assert(a.contains(a[k]));
        }
    }
    texts_are_cut_at_the_first_separator(a, sep, b);
}

/// A text without the separator is not cut.
pub proof fn texts_without_the_separator_are_not_cut(s: Seq<char>, sep: Seq<char>)
    requires
        !has_part(s, sep),
    ensures
        cut_first(s, sep) is None,
        cut_last(s, sep) is None,
{
    lemma_first_at(s, sep);
    lemma_last_at(s, sep);
    if first_at(s, sep) is Some {
        assert(occurs_at(s, sep, first_at(s, sep)->0));
    }
    if last_at(s, sep) is Some {
        assert(occurs_at(s, sep, last_at(s, sep)->0));
    }
}

/// A text is cut from behind where the separator last stands.
pub proof fn texts_are_cut_at_the_last_separator(a: Seq<char>, sep: Seq<char>, b: Seq<char>)
    requires
        forall|k: int| a.len() < k ==> !occurs_at(a + sep + b, sep, k),
    ensures
        cut_last(a + sep + b, sep) == Some((a, b)),
{
    let s = a + sep + b;
    let at = a.len() as int;
    lemma_last_at(s, sep);
    assert(s.subrange(at, at + sep.len()) =~= sep);
    assert(occurs_at(s, sep, at));
    assert(has_part(s, sep));
    let last = last_at(s, sep)->0;
    assert(last == at);
    assert(s.take(at) =~= a);
    assert(s.skip(at + sep.len()) =~= b);
}

pub fn split_once(s: &str, sep: &str) -> (r: Option<(String, String)>)
    ensures
        model::opt_pair(r) == cut_first(s@, sep@),
{
    match find(s, sep) {
        Some(at) => {
            let source = chars(s);
            let part = chars(sep);
            let end: usize = source.len();
            Some((text_of(&source, 0, at), text_of(&source, at + part.len(), end)))
        },
        None => None,
    }
}

pub fn rsplit_once(s: &str, sep: &str) -> (r: Option<(String, String)>)
    requires
        sep@.len() > 0,
    ensures
        model::opt_pair(r) == cut_last(s@, sep@),
{
    match rfind(s, sep) {
        Some(at) => {
            let source = chars(s);
            let part = chars(sep);
            let end: usize = source.len();
            Some((text_of(&source, 0, at), text_of(&source, at + part.len(), end)))
        },
        None => None,
    }
}

// ---------------------------------------------------------------------------
// Cutting a text into pieces
// ---------------------------------------------------------------------------

/// The pieces between the occurrences of `sep`: one more than there are separators.
pub open spec fn split(s: Seq<char>, sep: char) -> Seq<Seq<char>>
    decreases s.len(),
{
    if s.len() == 0 {
        seq![Seq::<char>::empty()]
    } else {
        let before = split(s.drop_last(), sep);
        if s.last() == sep {
            before.push(Seq::<char>::empty())
        } else {
            before.drop_last().push(before.last().push(s.last()))
        }
    }
}

/// A text without the separator, added behind, extends the last piece.
pub proof fn lemma_split_extend(s: Seq<char>, more: Seq<char>, sep: char)
    requires
        !more.contains(sep),
    ensures
        split(s + more, sep) == split(s, sep).drop_last().push(split(s, sep).last() + more),
    decreases more.len(),
{
    lemma_split_nonempty(s, sep);
    let pieces = split(s, sep);
    if more.len() == 0 {
        assert(s + more =~= s);
        assert(pieces.last() + more =~= pieces.last());
        assert(pieces.drop_last().push(pieces.last()) =~= pieces);
    } else {
        let init = more.drop_last();
        assert forall|i: int| 0 <= i < init.len() implies init[i] != sep by {
            assert(init[i] == more[i]);
        }
        lemma_split_extend(s, init, sep);
        assert(more.last() != sep) by {
            assert(more[more.len() - 1] != sep);
        }
        assert((s + more).drop_last() =~= s + init);
        let before = split(s + init, sep);
        assert(before.drop_last() =~= pieces.drop_last());
        assert(before.last().push(more.last()) =~= pieces.last() + more);
    }
}

/// A text added behind: its first piece extends the last one, the others follow.
pub proof fn lemma_split_add(s: Seq<char>, more: Seq<char>, sep: char)
    ensures
        split(s + more, sep) == split(s, sep).drop_last().push(split(s, sep).last() + split(more, sep)[0])
            + split(more, sep).drop_first(),
    decreases more.len(),
{
    lemma_split_nonempty(s, sep);
    lemma_split_nonempty(more, sep);
    let pieces = split(s, sep);
    if more.len() == 0 {
        assert(s + more =~= s);
        assert(pieces.last() + split(more, sep)[0] =~= pieces.last());
        assert(pieces.drop_last().push(pieces.last()) + split(more, sep).drop_first() =~= pieces);
    } else {
        let init = more.drop_last();
        lemma_split_add(s, init, sep);
        lemma_split_nonempty(init, sep);
        assert((s + more).drop_last() =~= s + init);
        let others = split(init, sep);
        let before = split(s + init, sep);
        if more.last() == sep {
            assert(before.push(Seq::<char>::empty()) =~= pieces.drop_last().push(pieces.last() + others[0])
                + others.push(Seq::<char>::empty()).drop_first());
        } else if others.len() == 1 {
            assert(before.last().push(more.last()) =~= pieces.last() + others[0].push(more.last()));
            assert(before.drop_last().push(before.last().push(more.last())) =~= pieces.drop_last().push(
                pieces.last() + others[0].push(more.last()),
            ));
        } else {
            let last = others.last().push(more.last());
            assert(before.last() == others.last());
            assert(before.drop_last().push(last) =~= pieces.drop_last().push(pieces.last() + others[0])
                + others.drop_last().push(last).drop_first());
        }
    }
}

/// A list of texts with `sep` between neighbours.
pub open spec fn joined(list: Seq<Seq<char>>, sep: Seq<char>) -> Seq<char>
    decreases list.len(),
{
    if list.len() == 0 {
        Seq::empty()
    } else if list.len() == 1 {
        list[0]
    } else {
        joined(list.drop_last(), sep) + sep + list.last()
    }
}

/// A text always has at least one piece.
pub proof fn lemma_split_nonempty(s: Seq<char>, sep: char)
    ensures
        split(s, sep).len() > 0,
    decreases s.len(),
{
    if s.len() > 0 {
        lemma_split_nonempty(s.drop_last(), sep);
    }
}

/// No piece holds the separator, and joining the pieces with it gives the text back.
pub proof fn split_then_join(s: Seq<char>, sep: char)
    ensures
        joined(split(s, sep), seq![sep]) == s,
        forall|i: int| 0 <= i < split(s, sep).len() ==> !(#[trigger] split(s, sep)[i]).contains(sep),
    decreases s.len(),
{
    if s.len() > 0 {
        let init = s.drop_last();
        split_then_join(init, sep);
        lemma_split_nonempty(init, sep);
        let before = split(init, sep);
        let pieces = split(s, sep);
        let mark = seq![sep];
        assert forall|i: int| 0 <= i < pieces.len() implies !(#[trigger] pieces[i]).contains(sep) by {
            if i < before.len() - 1 {
                assert(pieces[i] == before[i]);
            } else if s.last() == sep && i == before.len() - 1 {
                assert(pieces[i] == before[i]);
            } else if s.last() != sep {
                assert(!before[i].contains(sep));
                assert(pieces[i] =~= before[i].push(s.last()));
                assert forall|k: int| 0 <= k < pieces[i].len() implies pieces[i][k] != sep by {
                    if k < before[i].len() {
                        assert(pieces[i][k] == before[i][k]);
                    }
                }
            }
        }
        if s.last() == sep {
            assert(pieces.drop_last() =~= before);
            assert(joined(pieces, mark) =~= init.push(sep));
        } else {
            assert(pieces.drop_last() =~= before.drop_last());
            assert(joined(pieces, mark) =~= joined(before, mark).push(s.last()));
        }
        assert(s =~= init.push(s.last()));
    } else {
        assert(split(s, sep)[0] =~= Seq::<char>::empty());
        assert(joined(split(s, sep), seq![sep]) =~= s);
    }
}

pub fn split_text(s: &str, sep: char) -> (r: Vec<String>)
    ensures
        model::views(r@) == split(s@, sep),
{
    let source = chars(s);
    let mut pieces: Vec<String> = Vec::new();
    let mut current = String::new();
    proof {
        assert(model::views(pieces@).push(current@) =~= split(s@.take(0), sep));
    }
    for i in 0..source.len()
        invariant
            source@ == s@,
            model::views(pieces@).push(current@) == split(s@.take(i as int), sep),
    {
        let c = source[i];
        let ghost upto = s@.take(i + 1);
        let ghost before = split(s@.take(i as int), sep);
        proof {
            assert(upto.drop_last() =~= s@.take(i as int));
            assert(before.last() == current@);
            assert(before.drop_last() =~= model::views(pieces@));
        }
        if c == sep {
            pieces.push(current);
            current = String::new();
            assert(model::views(pieces@) =~= before);
        } else {
            current.push(c);
        }
        assert(model::views(pieces@).push(current@) =~= split(upto, sep));
    }
    assert(s@.take(s@.len() as int) =~= s@);
    let ghost done = model::views(pieces@).push(current@);
    pieces.push(current);
    assert(model::views(pieces@) =~= done);
    pieces
}

pub fn join(list: &Vec<String>, sep: &str) -> (r: String)
    ensures
        r@ == joined(model::views(list@), sep@),
{
    let mut out = String::new();
    assert(model::views(list@).take(0) =~= Seq::<Seq<char>>::empty());
    for i in 0..list.len()
        invariant
            out@ == joined(model::views(list@).take(i as int), sep@),
    {
        let ghost upto = model::views(list@).take(i + 1);
        proof {
            assert(upto.drop_last() =~= model::views(list@).take(i as int));
            assert(upto.last() == list@[i as int]@);
        }
        if i > 0 {
            out.append(sep);
        }
        out.append(&list[i]);
        assert(out@ =~= joined(upto, sep@));
    }
    assert(model::views(list@).take(list@.len() as int) =~= model::views(list@));
    out
}

/// The pieces that each end at an occurrence of `sep`; what follows the last one is a piece only
/// where it is not empty.
pub open spec fn terminated(s: Seq<char>, sep: char) -> Seq<Seq<char>> {
    let pieces = split(s, sep);
    if pieces.last().len() == 0 {
        pieces.drop_last()
    } else {
        pieces
    }
}

pub fn split_terminator(s: &str, sep: char) -> (r: Vec<String>)
    ensures
        model::views(r@) == terminated(s@, sep),
{
    let mut pieces = split_text(s, sep);
    proof {
        lemma_split_nonempty(s@, sep);
    }
    let last: usize = pieces.len() - 1;
    assert(split(s@, sep).last() == pieces@[last as int]@);
    if pieces[last].as_str().is_empty() {
        let ghost before = model::views(pieces@);
        pieces.truncate(last);
        assert(model::views(pieces@) =~= before.drop_last());
    }
    pieces
}

/// A line that ended in a line feed, without the carriage return that may precede it.
pub open spec fn without_return(line: Seq<char>) -> Seq<char> {
    if line.len() > 0 && line.last() == '\r' {
        line.drop_last()
    } else {
        line
    }
}

/// The lines of a text. Each ends at a line feed, which is dropped together with a carriage
/// return before it; what follows the last line feed is a line only where it is not empty.
pub open spec fn lines(s: Seq<char>) -> Seq<Seq<char>> {
    let pieces = split(s, '\n');
    let ended = pieces.drop_last().map_values(|p: Seq<char>| without_return(p));
    if pieces.last().len() == 0 {
        ended
    } else {
        ended.push(pieces.last())
    }
}

pub fn lines_of(s: &str) -> (r: Vec<String>)
    ensures
        model::views(r@) == lines(s@),
{
    let pieces = split_text(s, '\n');
    proof {
        lemma_split_nonempty(s@, '\n');
    }
    let ghost ended = split(s@, '\n').drop_last().map_values(|p: Seq<char>| without_return(p));
    let mut out: Vec<String> = Vec::new();
    let last: usize = pieces.len() - 1;
    for i in 0..last
        invariant
            last == pieces@.len() - 1,
            model::views(pieces@) == split(s@, '\n'),
            ended == split(s@, '\n').drop_last().map_values(|p: Seq<char>| without_return(p)),
            model::views(out@) == ended.take(i as int),
    {
        let source = chars(&pieces[i]);
        assert(split(s@, '\n')[i as int] == pieces@[i as int]@);
        if source.len() > 0 && source[source.len() - 1] == '\r' {
            out.push(text_of(&source, 0, source.len() - 1));
        } else {
            out.push(text_of(&source, 0, source.len()));
        }
        proof {
            let line = pieces@[i as int]@;
            assert(line.subrange(0, line.len() as int) =~= line);
            assert(ended[i as int] == without_return(line));
            assert(out@.last()@ =~= without_return(line));
        }
        assert(model::views(out@) =~= ended.take(i + 1));
    }
    assert(ended.take(last as int) =~= ended);
    assert(split(s@, '\n')[last as int] == pieces@[last as int]@);
    if !pieces[last].as_str().is_empty() {
        let ghost before = model::views(out@);
        out.push(pieces[last].clone());
        assert(model::views(out@) =~= before.push(split(s@, '\n').last()));
    }
    out
}

/// Whether a text is empty or ends at the end of a line.
pub open spec fn ends_a_line(s: Seq<char>) -> bool {
    s.len() == 0 || s.last() == '\n'
}

/// A line added behind whole lines is one line more, and the others stay.
pub proof fn lemma_lines_append(s: Seq<char>, line: Seq<char>)
    requires
        ends_a_line(s),
        !line.contains('\n'),
    ensures
        lines(s + line + seq!['\n']) == lines(s).push(without_return(line)),
        ends_a_line(s + line + seq!['\n']),
{
    let f = |p: Seq<char>| without_return(p);
    lemma_split_nonempty(s, '\n');
    lemma_split_extend(s, line, '\n');
    let pieces = split(s, '\n');
    assert(pieces.last().len() == 0);
    assert(pieces.last() + line =~= line);
    let whole = s + line + seq!['\n'];
    assert(whole.drop_last() =~= s + line);
    assert(whole.last() == '\n');
    let all = split(whole, '\n');
    assert(all =~= pieces.drop_last().push(line).push(Seq::<char>::empty()));
    assert(all.drop_last() =~= pieces.drop_last().push(line));
    assert(all.drop_last().map_values(f) =~= pieces.drop_last().map_values(f).push(without_return(line)));
}

// ---------------------------------------------------------------------------
// Replacing
// ---------------------------------------------------------------------------

/// Every occurrence of `from`, taken from left to right without overlap, turned into `to`.
pub open spec fn replaced(s: Seq<char>, from: Seq<char>, to: Seq<char>) -> Seq<char>
    decreases s.len(),
{
    if s.len() == 0 || from.len() == 0 {
        s
    } else if from.is_prefix_of(s) {
        to + replaced(s.skip(from.len() as int), from, to)
    } else {
        seq![s[0]] + replaced(s.drop_first(), from, to)
    }
}

/// Where a text does not stand, nothing is replaced.
pub proof fn absent_texts_are_not_replaced(s: Seq<char>, from: Seq<char>, to: Seq<char>)
    requires
        !has_part(s, from),
    ensures
        replaced(s, from, to) == s,
    decreases s.len(),
{
    if s.len() > 0 && from.len() > 0 {
        if from.is_prefix_of(s) {
            assert(occurs_at(s, from, 0));
        } else {
            let rest = s.drop_first();
            if has_part(rest, from) {
                let at = choose|at: int| occurs_at(rest, from, at);
                assert(s.subrange(at + 1, at + 1 + from.len()) =~= rest.subrange(at, at + from.len()));
                assert(occurs_at(s, from, at + 1));
            }
            absent_texts_are_not_replaced(rest, from, to);
            assert(seq![s[0]] + rest =~= s);
        }
    }
}

/// A text is replaced where it first stands, and then in what follows: what comes before stays as it
/// is, and no occurrence is left out.
pub proof fn texts_are_replaced_from_the_first_on(s: Seq<char>, from: Seq<char>, to: Seq<char>, at: int)
    requires
        from.len() > 0,
        occurs_at(s, from, at),
        forall|k: int| 0 <= k < at ==> !occurs_at(s, from, k),
    ensures
        replaced(s, from, to) == s.take(at) + to + replaced(s.skip(at + from.len()), from, to),
    decreases s.len(),
{
    if at == 0 {
        assert(s.subrange(0, from.len() as int) =~= from);
        assert(s.take(0) + to =~= to);
    } else {
        if from.is_prefix_of(s) {
            assert(occurs_at(s, from, 0));
        }
        let rest = s.drop_first();
        assert(rest.subrange(at - 1, at - 1 + from.len()) =~= s.subrange(at, at + from.len()));
        assert forall|k: int| 0 <= k < at - 1 implies !occurs_at(rest, from, k) by {
            if occurs_at(rest, from, k) {
                assert(s.subrange(k + 1, k + 1 + from.len()) =~= rest.subrange(k, k + from.len()));
                assert(occurs_at(s, from, k + 1));
            }
        }
        texts_are_replaced_from_the_first_on(rest, from, to, at - 1);
        assert(rest.skip(at - 1 + from.len()) =~= s.skip(at + from.len()));
        assert(seq![s[0]] + rest.take(at - 1) =~= s.take(at));
        let tail = replaced(s.skip(at + from.len()), from, to);
        assert(seq![s[0]] + (rest.take(at - 1) + to + tail) =~= s.take(at) + to + tail);
    }
}

pub fn replace(s: &str, from: &str, to: &str) -> (r: String)
    requires
        from@.len() > 0,
    ensures
        r@ == replaced(s@, from@, to@),
{
    let source = chars(s);
    let part = chars(from);
    let mut out = String::new();
    let mut i: usize = 0;
    assert(s@.skip(0) =~= s@);
    while i < source.len()
        invariant
            source@ == s@,
            part@ == from@,
            from@.len() > 0,
            i <= s@.len(),
            out@ + replaced(s@.skip(i as int), from@, to@) == replaced(s@, from@, to@),
        decreases s@.len() - i,
    {
        let ghost rest = s@.skip(i as int);
        let ghost before = out@;
        assert(occurs_at(s@, from@, i as int) == from@.is_prefix_of(rest)) by {
            if i + from@.len() <= s@.len() {
                assert(s@.subrange(i as int, i + from@.len()) =~= rest.subrange(0, from@.len() as int));
            }
        }
        if matches_at(&source, &part, i) {
            out.append(to);
            i += part.len();
            assert(rest.skip(from@.len() as int) =~= s@.skip(i as int));
            assert(out@ + replaced(s@.skip(i as int), from@, to@) =~= before + replaced(rest, from@, to@));
        } else {
            out.push(source[i]);
            i += 1;
            assert(rest.drop_first() =~= s@.skip(i as int));
            assert(out@ + replaced(s@.skip(i as int), from@, to@) =~= before + replaced(rest, from@, to@));
        }
    }
    assert(out@ + replaced(s@.skip(i as int), from@, to@) =~= out@);
    out
}

// ---------------------------------------------------------------------------
// White space and trimming
// ---------------------------------------------------------------------------

/// Whether a character outside ASCII has the Unicode property `White_Space`.
pub uninterp spec fn unicode_white(c: char) -> bool;

/// Whether a character is white space: the space and the controls from tab to carriage return in
/// ASCII, and what Unicode counts as such beyond it.
pub open spec fn white(c: char) -> bool {
    if (c as u32) < 128 {
        c == ' ' || 9 <= c as u32 <= 13
    } else {
        unicode_white(c)
    }
}

/// Calls `char::is_whitespace`, which tests the Unicode property `White_Space`. In ASCII the
/// space and the controls from tab to carriage return have it; the answer for other characters is
/// named, not listed.
#[verifier::external_body]
fn is_white(c: char) -> (r: bool)
    ensures
        (c as u32) < 128 ==> r == (c == ' ' || 9 <= c as u32 <= 13),
        (c as u32) >= 128 ==> r == unicode_white(c),
{
    c.is_whitespace()
}

/// The text without the characters at its start that satisfy `drop`.
pub open spec fn trim_start_by(s: Seq<char>, drop: spec_fn(char) -> bool) -> Seq<char>
    decreases s.len(),
{
    if s.len() > 0 && drop(s[0]) {
        trim_start_by(s.drop_first(), drop)
    } else {
        s
    }
}

/// The text without the characters at its end that satisfy `drop`.
pub open spec fn trim_end_by(s: Seq<char>, drop: spec_fn(char) -> bool) -> Seq<char>
    decreases s.len(),
{
    if s.len() > 0 && drop(s.last()) {
        trim_end_by(s.drop_last(), drop)
    } else {
        s
    }
}

/// The text without white space at its start.
pub open spec fn trimmed_start(s: Seq<char>) -> Seq<char> {
    trim_start_by(s, |c: char| white(c))
}

/// The text without white space at its start and its end.
pub open spec fn trimmed(s: Seq<char>) -> Seq<char> {
    trim_end_by(trimmed_start(s), |c: char| white(c))
}

/// The text without characters of `set` at its start.
pub open spec fn trimmed_start_of(s: Seq<char>, set: Seq<char>) -> Seq<char> {
    trim_start_by(s, |c: char| set.contains(c))
}

/// The text without characters of `set` at its end.
pub open spec fn trimmed_end_of(s: Seq<char>, set: Seq<char>) -> Seq<char> {
    trim_end_by(s, |c: char| set.contains(c))
}

/// The text without characters of `set` at its start and its end.
pub open spec fn trimmed_of(s: Seq<char>, set: Seq<char>) -> Seq<char> {
    trimmed_end_of(trimmed_start_of(s, set), set)
}

/// What is left of a text has lost a stretch at its start that is dropped throughout.
pub proof fn lemma_trim_start_by(s: Seq<char>, drop: spec_fn(char) -> bool, n: int)
    requires
        0 <= n <= s.len(),
        forall|i: int| 0 <= i < n ==> #[trigger] drop(s[i]),
    ensures
        trim_start_by(s, drop) == trim_start_by(s.skip(n), drop),
    decreases n,
{
    if n == 0 {
        assert(s.skip(0) =~= s);
    } else {
        assert(drop(s[0]));
        let rest = s.drop_first();
        assert forall|i: int| 0 <= i < n - 1 implies #[trigger] drop(rest[i]) by {
            assert(rest[i] == s[i + 1]);
            assert(drop(s[i + 1]));
        }
        lemma_trim_start_by(rest, drop, n - 1);
        assert(rest.skip(n - 1) =~= s.skip(n));
    }
}

/// What is left of a text has lost a stretch at its end that is dropped throughout.
pub proof fn lemma_trim_end_by(s: Seq<char>, drop: spec_fn(char) -> bool, n: int)
    requires
        0 <= n <= s.len(),
        forall|i: int| n <= i < s.len() ==> #[trigger] drop(s[i]),
    ensures
        trim_end_by(s, drop) == trim_end_by(s.take(n), drop),
    decreases s.len() - n,
{
    if n == s.len() {
        assert(s.take(n) =~= s);
    } else {
        assert(drop(s[s.len() - 1]));
        let rest = s.drop_last();
        assert forall|i: int| n <= i < rest.len() implies #[trigger] drop(rest[i]) by {
            assert(rest[i] == s[i]);
            assert(drop(s[i]));
        }
        lemma_trim_end_by(rest, drop, n);
        assert(rest.take(n) =~= s.take(n));
    }
}

pub fn trim_start(s: &str) -> (r: String)
    ensures
        r@ == trimmed_start(s@),
{
    let source = chars(s);
    let mut i: usize = 0;
    let ghost drop = |c: char| white(c);
    while i < source.len() && is_white(source[i])
        invariant
            i <= source@.len(),
            drop == (|c: char| white(c)),
            forall|k: int| 0 <= k < i ==> #[trigger] drop(source@[k]),
        decreases source@.len() - i,
    {
        i += 1;
    }
    proof {
        lemma_trim_start_by(s@, drop, i as int);
    }
    text_of(&source, i, source.len())
}

pub fn trim(s: &str) -> (r: String)
    ensures
        r@ == trimmed(s@),
{
    trim_end(&trim_start(s))
}

/// The text without white space at its end.
pub fn trim_end(s: &str) -> (r: String)
    ensures
        r@ == trim_end_by(s@, |c: char| white(c)),
{
    let source = chars(s);
    let mut n: usize = source.len();
    let ghost drop = |c: char| white(c);
    while n > 0 && is_white(source[n - 1])
        invariant
            n <= source@.len(),
            drop == (|c: char| white(c)),
            forall|k: int| n <= k < source@.len() ==> #[trigger] drop(source@[k]),
        decreases n,
    {
        n -= 1;
    }
    proof {
        lemma_trim_end_by(s@, drop, n as int);
    }
    text_of(&source, 0, n)
}

/// Whether a character stands in a text.
fn among(set: &Vec<char>, c: char) -> (r: bool)
    ensures
        r == set@.contains(c),
{
    for i in 0..set.len()
        invariant
            forall|k: int| 0 <= k < i ==> set@[k] != c,
    {
        if set[i] == c {
            return true;
        }
    }
    false
}

/// Whether a character stands in a text.
pub fn has_char(s: &str, c: char) -> (r: bool)
    ensures
        r == s@.contains(c),
{
    let source = chars(s);
    among(&source, c)
}

pub fn trim_start_matches(s: &str, set: &str) -> (r: String)
    ensures
        r@ == trimmed_start_of(s@, set@),
{
    let source = chars(s);
    let members = chars(set);
    let mut i: usize = 0;
    let ghost drop = |c: char| set@.contains(c);
    while i < source.len() && among(&members, source[i])
        invariant
            i <= source@.len(),
            members@ == set@,
            drop == (|c: char| set@.contains(c)),
            forall|k: int| 0 <= k < i ==> #[trigger] drop(source@[k]),
        decreases source@.len() - i,
    {
        i += 1;
    }
    proof {
        lemma_trim_start_by(s@, drop, i as int);
    }
    text_of(&source, i, source.len())
}

pub fn trim_end_matches(s: &str, set: &str) -> (r: String)
    ensures
        r@ == trimmed_end_of(s@, set@),
{
    let source = chars(s);
    let members = chars(set);
    let mut n: usize = source.len();
    let ghost drop = |c: char| set@.contains(c);
    while n > 0 && among(&members, source[n - 1])
        invariant
            n <= source@.len(),
            members@ == set@,
            drop == (|c: char| set@.contains(c)),
            forall|k: int| n <= k < source@.len() ==> #[trigger] drop(source@[k]),
        decreases n,
    {
        n -= 1;
    }
    proof {
        lemma_trim_end_by(s@, drop, n as int);
    }
    text_of(&source, 0, n)
}

pub fn trim_matches(s: &str, set: &str) -> (r: String)
    ensures
        r@ == trimmed_of(s@, set@),
{
    let started = trim_start_matches(s, set);
    trim_end_matches(&started, set)
}

/// The stretches of a text between white space; none of them is empty.
pub open spec fn words(s: Seq<char>) -> Seq<Seq<char>>
    decreases s.len(),
{
    if s.len() == 0 {
        Seq::empty()
    } else if white(s.last()) {
        words(s.drop_last())
    } else if s.len() == 1 || white(s[s.len() - 2]) {
        words(s.drop_last()).push(seq![s.last()])
    } else {
        let before = words(s.drop_last());
        before.drop_last().push(before.last().push(s.last()))
    }
}

pub fn split_whitespace(s: &str) -> (r: Vec<String>)
    ensures
        model::views(r@) == words(s@),
{
    let source = chars(s);
    let mut found: Vec<String> = Vec::new();
    let mut current = String::new();
    for i in 0..source.len()
        invariant
            source@ == s@,
            current@.len() == 0 <==> (i == 0 || white(s@[i - 1])),
            current@.len() == 0 ==> model::views(found@) == words(s@.take(i as int)),
            current@.len() > 0 ==> model::views(found@).push(current@) == words(s@.take(i as int)),
    {
        let c = source[i];
        let ghost upto = s@.take(i + 1);
        proof {
            assert(upto.drop_last() =~= s@.take(i as int));
            assert(upto.last() == c);
            if i > 0 {
                assert(upto[upto.len() - 2] == s@[i - 1]);
            }
        }
        if is_white(c) {
            if !current.as_str().is_empty() {
                found.push(current);
                current = String::new();
            }
        } else {
            let ghost old_current = current@;
            current.push(c);
            proof {
                if old_current.len() == 0 {
                    assert(current@ =~= seq![c]);
                } else {
                    let before = words(s@.take(i as int));
                    assert(before.drop_last() =~= model::views(found@));
                    assert(before.last() == old_current);
                }
            }
        }
    }
    assert(s@.take(s@.len() as int) =~= s@);
    if !current.as_str().is_empty() {
        found.push(current);
    }
    found
}

// ---------------------------------------------------------------------------
// Numbers
// ---------------------------------------------------------------------------

/// The value of a decimal digit.
pub open spec fn digit_value(c: char) -> nat {
    (c as u32 - '0' as u32) as nat
}

/// The value of a sequence of decimal digits.
pub open spec fn digits_value(s: Seq<char>) -> nat
    decreases s.len(),
{
    if s.len() == 0 {
        0
    } else {
        digits_value(s.drop_last()) * 10 + digit_value(s.last())
    }
}

pub open spec fn all_digits(s: Seq<char>) -> bool {
    forall|i: int| 0 <= i < s.len() ==> is_ascii_digit(#[trigger] s[i])
}

/// A text without one plus sign at its start.
pub open spec fn unsigned(s: Seq<char>) -> Seq<char> {
    if s.len() > 0 && s[0] == '+' {
        s.skip(1)
    } else {
        s
    }
}

/// The number that a text spells: an optional plus sign and one or more decimal digits.
pub open spec fn number(s: Seq<char>) -> Option<nat> {
    let digits = unsigned(s);
    if digits.len() > 0 && all_digits(digits) {
        Some(digits_value(digits))
    } else {
        None
    }
}

/// The number that a text spells, where it is at most `max`.
pub open spec fn number_upto(s: Seq<char>, max: nat) -> Option<nat> {
    match number(s) {
        Some(n) => if n <= max {
            Some(n)
        } else {
            None
        },
        None => None,
    }
}

proof fn lemma_digits_grow(s: Seq<char>, n: int)
    requires
        0 <= n <= s.len(),
    ensures
        digits_value(s.take(n)) <= digits_value(s),
    decreases s.len() - n,
{
    if n == s.len() {
        assert(s.take(n) =~= s);
    } else {
        assert(s.drop_last().take(n) =~= s.take(n));
        lemma_digits_grow(s.drop_last(), n);
    }
}

pub fn parse_u64(s: &str) -> (r: Option<u64>)
    ensures
        match number_upto(s@, u64::MAX as nat) {
            Some(n) => r == Some(n as u64),
            None => r is None,
        },
{
    let source = chars(s);
    let start: usize = if source.len() > 0 && source[0] == '+' {
        1
    } else {
        0
    };
    let ghost digits = unsigned(s@);
    assert(digits =~= s@.skip(start as int));
    if start == source.len() {
        return None;
    }
    let mut value: u64 = 0;
    let mut i: usize = start;
    assert(digits.take(0) =~= Seq::<char>::empty());
    while i < source.len()
        invariant
            source@ == s@,
            start <= i <= s@.len(),
            start < s@.len(),
            digits == s@.skip(start as int),
            digits == unsigned(s@),
            forall|k: int| 0 <= k < i - start ==> is_ascii_digit(#[trigger] digits[k]),
            value == digits_value(digits.take(i - start)),
        decreases s@.len() - i,
    {
        let c = source[i];
        let ghost done = i - start;
        proof {
            assert(digits[done] == c);
            assert(digits.take(done + 1).drop_last() =~= digits.take(done));
            assert(digits.take(done + 1).last() == c);
        }
        if !ascii_digit(c) {
            assert(!is_ascii_digit(digits[done]));
            return None;
        }
        let digit: u64 = (c as u32 - '0' as u32) as u64;
        proof {
            lemma_digits_grow(digits, done + 1);
        }
        match value.checked_mul(10) {
            Some(scaled) => match scaled.checked_add(digit) {
                Some(sum) => {
                    value = sum;
                },
                None => {
                    return None;
                },
            },
            None => {
                return None;
            },
        }
        i += 1;
    }
    assert(digits.take(digits.len() as int) =~= digits);
    Some(value)
}

pub fn parse_u16(s: &str) -> (r: Option<u16>)
    ensures
        match number_upto(s@, u16::MAX as nat) {
            Some(n) => r == Some(n as u16),
            None => r is None,
        },
{
    match parse_u64(s) {
        Some(n) => if n <= 65535 {
            Some(n as u16)
        } else {
            None
        },
        None => None,
    }
}

pub open spec fn digit_char(n: nat) -> char {
    (('0' as u32) + n) as u32 as char
}

/// A number in decimal notation, without leading zeros.
pub open spec fn decimal(n: nat) -> Seq<char>
    decreases n,
{
    if n < 10 {
        seq![digit_char(n)]
    } else {
        decimal(n / 10).push(digit_char(n % 10))
    }
}

/// Decimal notation consists of digits and has the value it was written from.
pub proof fn lemma_decimal(n: nat)
    ensures
        decimal(n).len() > 0,
        all_digits(decimal(n)),
        digits_value(decimal(n)) == n,
    decreases n,
{
    assert(forall|d: nat| d < 10 ==> is_ascii_digit(#[trigger] digit_char(d)) && digit_value(digit_char(d)) == d);
    let s = decimal(n);
    if n < 10 {
        assert(is_ascii_digit(digit_char(n)));
        assert(s.drop_last() =~= Seq::<char>::empty());
        assert(s.last() == digit_char(n));
        assert(digits_value(Seq::<char>::empty()) == 0);
        assert(digits_value(s) == digits_value(s.drop_last()) * 10 + digit_value(s.last()));
    } else {
        lemma_decimal(n / 10);
        assert(is_ascii_digit(digit_char(n % 10)));
        assert(s.drop_last() =~= decimal(n / 10));
        assert(s.last() == digit_char(n % 10));
        assert(digits_value(s) == digits_value(s.drop_last()) * 10 + digit_value(s.last()));
    }
}

/// Decimal notation reads back as the number it was written from.
pub proof fn decimal_reads_back(n: nat)
    ensures
        number(decimal(n)) == Some(n),
{
    lemma_decimal(n);
    assert(is_ascii_digit(decimal(n)[0]));
}

/// Two numbers with the same decimal notation are equal.
pub proof fn decimal_is_injective(a: nat, b: nat)
    requires
        decimal(a) == decimal(b),
    ensures
        a == b,
{
    decimal_reads_back(a);
    decimal_reads_back(b);
}

pub fn to_decimal(n: u64) -> (r: String)
    ensures
        r@ == decimal(n as nat),
    decreases n,
{
    let digit = (48 + (n % 10) as u8) as char;
    assert(digit == digit_char((n % 10) as nat));
    if n < 10 {
        let mut out = String::new();
        out.push(digit);
        assert(out@ =~= decimal(n as nat));
        out
    } else {
        let mut out = to_decimal(n / 10);
        out.push(digit);
        out
    }
}

pub fn to_decimal_wide(n: u128) -> (r: String)
    ensures
        r@ == decimal(n as nat),
    decreases n,
{
    let digit = (48 + (n % 10) as u8) as char;
    assert(digit == digit_char((n % 10) as nat));
    if n < 10 {
        let mut out = String::new();
        out.push(digit);
        assert(out@ =~= decimal(n as nat));
        out
    } else {
        let mut out = to_decimal_wide(n / 10);
        out.push(digit);
        out
    }
}

pub open spec fn hex_digit(n: nat) -> char {
    if n < 10 {
        (('0' as u32) + n) as u32 as char
    } else {
        (('a' as u32) + (n - 10)) as u32 as char
    }
}

/// A number in hexadecimal notation, with `width` digits.
pub open spec fn hexadecimal(n: nat, width: nat) -> Seq<char>
    decreases width,
{
    if width == 0 {
        Seq::empty()
    } else {
        hexadecimal(n / 16, (width - 1) as nat).push(hex_digit(n % 16))
    }
}

/// Hexadecimal notation has as many characters as were asked for, digits and small letters.
pub proof fn lemma_hexadecimal(n: nat, width: nat)
    ensures
        hexadecimal(n, width).len() == width,
        forall|i: int|
            0 <= i < width ==> {
                let c = #[trigger] hexadecimal(n, width)[i];
                is_ascii_digit(c) || ('a' <= c && c <= 'f')
            },
    decreases width,
{
    if width > 0 {
        lemma_hexadecimal(n / 16, (width - 1) as nat);
        let digit = n % 16;
        assert(digit < 16);
        assert(is_ascii_digit(hex_digit(digit)) || ('a' <= hex_digit(digit) && hex_digit(digit) <= 'f'));
    }
}

pub fn to_hexadecimal(n: u64, width: u8) -> (r: String)
    ensures
        r@ == hexadecimal(n as nat, width as nat),
    decreases width,
{
    if width == 0 {
        return String::new();
    }
    let mut out = to_hexadecimal(n / 16, width - 1);
    let digit = (n % 16) as u8;
    if digit < 10 {
        out.push((48 + digit) as char);
    } else {
        out.push((97 + (digit - 10)) as char);
    }
    out
}

// ---------------------------------------------------------------------------
// Order
// ---------------------------------------------------------------------------

/// Whether a text precedes another: by the first character in which they differ, a text before
/// its extensions.
pub open spec fn less(a: Seq<char>, b: Seq<char>) -> bool
    decreases a.len(),
{
    if b.len() == 0 {
        false
    } else if a.len() == 0 {
        true
    } else if a[0] == b[0] {
        less(a.drop_first(), b.drop_first())
    } else {
        a[0] < b[0]
    }
}

/// The order of texts as a relation.
pub open spec fn text_order() -> spec_fn(Seq<char>, Seq<char>) -> bool {
    |a: Seq<char>, b: Seq<char>| less(a, b)
}

/// Whether a list of texts precedes another, compared text by text.
pub open spec fn list_less(a: Seq<Seq<char>>, b: Seq<Seq<char>>) -> bool
    decreases a.len(),
{
    if b.len() == 0 {
        false
    } else if a.len() == 0 {
        true
    } else if a[0] == b[0] {
        list_less(a.drop_first(), b.drop_first())
    } else {
        less(a[0], b[0])
    }
}

proof fn lemma_less_irreflexive(a: Seq<char>)
    ensures
        !less(a, a),
    decreases a.len(),
{
    if a.len() > 0 {
        lemma_less_irreflexive(a.drop_first());
    }
}

proof fn lemma_less_transitive(a: Seq<char>, b: Seq<char>, c: Seq<char>)
    requires
        less(a, b),
        less(b, c),
    ensures
        less(a, c),
    decreases a.len(),
{
    if a.len() > 0 && a[0] == b[0] && b[0] == c[0] {
        lemma_less_transitive(a.drop_first(), b.drop_first(), c.drop_first());
    }
}

proof fn lemma_less_total(a: Seq<char>, b: Seq<char>)
    requires
        a != b,
    ensures
        less(a, b) || less(b, a),
    decreases a.len(),
{
    if a.len() > 0 && b.len() > 0 && a[0] == b[0] {
        if a.drop_first() == b.drop_first() {
            assert(a =~= seq![a[0]] + a.drop_first());
            assert(b =~= seq![b[0]] + b.drop_first());
        }
        lemma_less_total(a.drop_first(), b.drop_first());
    } else if a.len() == 0 && b.len() == 0 {
        assert(a =~= b);
    }
}

/// The order of texts is a strict total order.
pub proof fn text_order_is_total()
    ensures
        model::total_order(text_order()),
{
    assert forall|a: Seq<char>| !#[trigger] text_order()(a, a) by {
        lemma_less_irreflexive(a);
    }
    assert forall|a: Seq<char>, b: Seq<char>, c: Seq<char>| #[trigger] text_order()(a, b) && #[trigger] text_order()(b, c) implies text_order()(a, c) by {
        lemma_less_transitive(a, b, c);
    }
    assert forall|a: Seq<char>, b: Seq<char>| a != b implies #[trigger] text_order()(a, b) || text_order()(b, a) by {
        lemma_less_total(a, b);
    }
}

/// The order of lists of texts is a strict total order.
pub proof fn list_order_is_total(a: Seq<Seq<char>>, b: Seq<Seq<char>>, c: Seq<Seq<char>>)
    ensures
        !list_less(a, a),
        list_less(a, b) && list_less(b, c) ==> list_less(a, c),
        a != b ==> list_less(a, b) || list_less(b, a),
    decreases a.len() + b.len() + c.len(),
{
    if a.len() > 0 {
        lemma_less_irreflexive(a[0]);
        if b.len() > 0 && c.len() > 0 {
            list_order_is_total(a.drop_first(), b.drop_first(), c.drop_first());
            if less(a[0], b[0]) && less(b[0], c[0]) {
                lemma_less_transitive(a[0], b[0], c[0]);
            }
            lemma_less_irreflexive(b[0]);
            if less(a[0], b[0]) && less(b[0], a[0]) {
                lemma_less_transitive(a[0], b[0], a[0]);
            }
        } else if b.len() > 0 {
            list_order_is_total(a.drop_first(), b.drop_first(), c);
        } else {
            list_order_is_total(a.drop_first(), b, c);
        }
        if b.len() > 0 && a != b {
            if a[0] != b[0] {
                lemma_less_total(a[0], b[0]);
            } else if a.drop_first() == b.drop_first() {
                assert(a =~= seq![a[0]] + a.drop_first());
                assert(b =~= seq![b[0]] + b.drop_first());
            }
        }
    } else if b.len() == 0 {
        assert(a =~= b);
    }
}

pub fn precedes(a: &str, b: &str) -> (r: bool)
    ensures
        r == less(a@, b@),
{
    let left = chars(a);
    let right = chars(b);
    let mut i: usize = 0;
    assert(a@.skip(0) =~= a@);
    assert(b@.skip(0) =~= b@);
    while i < left.len() && i < right.len()
        invariant
            left@ == a@,
            right@ == b@,
            i <= a@.len(),
            i <= b@.len(),
            less(a@, b@) == less(a@.skip(i as int), b@.skip(i as int)),
        decreases a@.len() - i,
    {
        if left[i] != right[i] {
            return left[i] < right[i];
        }
        i += 1;
        assert(a@.skip(i - 1).drop_first() =~= a@.skip(i as int));
        assert(b@.skip(i - 1).drop_first() =~= b@.skip(i as int));
    }
    i < right.len()
}

pub fn list_precedes(a: &Vec<String>, b: &Vec<String>) -> (r: bool)
    ensures
        r == list_less(model::views(a@), model::views(b@)),
{
    let mut i: usize = 0;
    let ghost left = model::views(a@);
    let ghost right = model::views(b@);
    assert(left.skip(0) =~= left);
    assert(right.skip(0) =~= right);
    while i < a.len() && i < b.len()
        invariant
            left == model::views(a@),
            right == model::views(b@),
            i <= left.len(),
            i <= right.len(),
            list_less(left, right) == list_less(left.skip(i as int), right.skip(i as int)),
        decreases left.len() - i,
    {
        assert(left.skip(i as int)[0] == a@[i as int]@);
        assert(right.skip(i as int)[0] == b@[i as int]@);
        if !same(&a[i], &b[i]) {
            return precedes(&a[i], &b[i]);
        }
        i += 1;
        assert(left.skip(i - 1).drop_first() =~= left.skip(i as int));
        assert(right.skip(i - 1).drop_first() =~= right.skip(i as int));
    }
    i < b.len()
}

/// The texts in order, each once.
pub open spec fn sorted_set(list: Seq<Seq<char>>) -> Seq<Seq<char>> {
    model::deduped(model::sorted(list, text_order()), model::equal())
}

/// A sorted set holds exactly the texts of the list, in ascending order, none of them twice.
pub proof fn sorted_set_is_the_set(list: Seq<Seq<char>>)
    ensures
        model::strictly_ascending(sorted_set(list), text_order()),
        forall|s: Seq<char>| #[trigger] sorted_set(list).contains(s) <==> list.contains(s),
{
    text_order_is_total();
    model::lemma_total_is_weak(text_order());
    model::sorting_orders(list, text_order());
    model::deduping_keeps_one_of_each(model::sorted(list, text_order()), text_order());
}

pub fn sort(list: &Vec<String>) -> (r: Vec<String>)
    ensures
        model::views(r@) == model::sorted(model::views(list@), text_order()),
{
    let mut out: Vec<String> = Vec::new();
    let ghost all = model::views(list@);
    assert(model::views(out@) =~= model::sorted(all.take(0), text_order()));
    for i in 0..list.len()
        invariant
            all == model::views(list@),
            model::views(out@) == model::sorted(all.take(i as int), text_order()),
    {
        let ghost done = model::views(out@);
        let mut at: usize = out.len();
        while at > 0 && precedes(&list[i], &out[at - 1])
            invariant
                i < list@.len(),
                at <= out@.len(),
                done == model::views(out@),
                forall|k: int| at <= k < out@.len() ==> #[trigger] text_order()(list@[i as int]@, done[k]),
            decreases at,
        {
            at -= 1;
        }
        let item = list[i].clone();
        proof {
            model::step(all, i as int);
            model::lemma_inserted(done, item@, text_order(), at as int);
        }
        out.insert(at, item);
        assert(model::views(out@) =~= done.insert(at as int, item@));
    }
    proof {
        model::whole(all);
    }
    out
}

pub fn dedup(list: &Vec<String>) -> (r: Vec<String>)
    ensures
        model::views(r@) == model::deduped(model::views(list@), model::equal()),
{
    let mut out: Vec<String> = Vec::new();
    let ghost all = model::views(list@);
    assert(model::views(out@) =~= model::deduped(all.take(0), model::equal()));
    for i in 0..list.len()
        invariant
            all == model::views(list@),
            model::views(out@) == model::deduped(all.take(i as int), model::equal()),
    {
        proof {
            model::step(all, i as int);
        }
        if out.len() == 0 || !same(&out[out.len() - 1], &list[i]) {
            out.push(list[i].clone());
        }
    }
    proof {
        model::whole(all);
    }
    out
}

pub fn sort_unique(list: &Vec<String>) -> (r: Vec<String>)
    ensures
        model::views(r@) == sorted_set(model::views(list@)),
{
    dedup(&sort(list))
}

// ---------------------------------------------------------------------------
// Bytes
// ---------------------------------------------------------------------------

/// Decodes bytes with `String::from_utf8`, which succeeds exactly on valid UTF-8 and then gives
/// the text that the bytes encode.
#[verifier::external_body]
pub(crate) fn from_utf8(bytes: &Vec<u8>) -> (r: Option<String>)
    ensures
        r is Some == vstd::utf8::valid_utf8(bytes@),
        r matches Some(s) ==> s@ == vstd::utf8::decode_utf8(bytes@),
{
    String::from_utf8(bytes.clone()).ok()
}

/// What `String::from_utf8_lossy` makes of bytes.
pub uninterp spec fn lossy_text(bytes: Seq<u8>) -> Seq<char>;

/// Decodes bytes with `String::from_utf8_lossy`. Its result is named; stated of it is only that
/// valid UTF-8 decodes to the text it encodes. How invalid sequences are replaced is left unsaid.
#[verifier::external_body]
pub(crate) fn from_utf8_lossy(bytes: &Vec<u8>) -> (r: String)
    ensures
        r@ == lossy_text(bytes@),
        vstd::utf8::valid_utf8(bytes@) ==> r@ == vstd::utf8::decode_utf8(bytes@),
{
    String::from_utf8_lossy(bytes).into_owned()
}

// ---------------------------------------------------------------------------
// What trimming and dividing leave
// ---------------------------------------------------------------------------

/// Trimming takes white space off both ends, all of it, and nothing else.
pub proof fn trimming_leaves_the_core(lead: Seq<char>, core: Seq<char>, trail: Seq<char>)
    requires
        forall|i: int| 0 <= i < lead.len() ==> white(#[trigger] lead[i]),
        forall|i: int| 0 <= i < trail.len() ==> white(#[trigger] trail[i]),
        core.len() > 0 ==> !white(core[0]) && !white(core.last()),
    ensures
        trimmed(lead + core + trail) == core,
        core.len() > 0 ==> trimmed_start(lead + core + trail) == core + trail,
{
    let s = lead + core + trail;
    let drop = |c: char| white(c);
    if core.len() > 0 {
        assert forall|i: int| 0 <= i < lead.len() implies #[trigger] drop(s[i]) by {
            assert(s[i] == lead[i]);
        }
        lemma_trim_start_by(s, drop, lead.len() as int);
        let rest = core + trail;
        assert(s.skip(lead.len() as int) =~= rest);
        assert(!drop(rest[0]));
        assert(trim_start_by(rest, drop) == rest);
        assert forall|i: int| core.len() <= i < rest.len() implies #[trigger] drop(rest[i]) by {
            assert(rest[i] == trail[i - core.len()]);
        }
        lemma_trim_end_by(rest, drop, core.len() as int);
        assert(rest.take(core.len() as int) =~= core);
        assert(!drop(core.last()));
    } else {
        assert forall|i: int| 0 <= i < s.len() implies #[trigger] drop(s[i]) by {
            if i < lead.len() {
                assert(s[i] == lead[i]);
            } else {
                assert(s[i] == trail[i - lead.len()]);
            }
        }
        lemma_trim_start_by(s, drop, s.len() as int);
        assert(s.skip(s.len() as int) =~= core);
    }
}

/// Taking characters of a set off the end takes all of them there, and nothing else.
pub proof fn trimming_the_end_leaves_the_start(start: Seq<char>, tail: Seq<char>, set: Seq<char>)
    requires
        forall|i: int| 0 <= i < tail.len() ==> set.contains(#[trigger] tail[i]),
        start.len() > 0 ==> !set.contains(start.last()),
    ensures
        trimmed_end_of(start + tail, set) == start,
{
    let s = start + tail;
    let drop = |c: char| set.contains(c);
    assert forall|i: int| start.len() <= i < s.len() implies #[trigger] drop(s[i]) by {
        assert(s[i] == tail[i - start.len()]);
    }
    lemma_trim_end_by(s, drop, start.len() as int);
    assert(s.take(start.len() as int) =~= start);
}

proof fn lemma_a_word_at_the_end(s: Seq<char>)
    requires
        s.len() > 0,
        !white(s.last()),
    ensures
        words(s).len() > 0,
    decreases s.len(),
{
    if s.len() > 1 && !white(s[s.len() - 2]) {
        lemma_a_word_at_the_end(s.drop_last());
    }
}

/// Words are divided at white space, and only there: what stands on two sides of it is divided by
/// itself, and a text without any is one word.
pub proof fn words_are_divided_at_white_space(a: Seq<char>, c: char, b: Seq<char>)
    requires
        white(c),
    ensures
        words(a + seq![c] + b) == words(a) + words(b),
    decreases b.len(),
{
    let s = a + seq![c] + b;
    if b.len() == 0 {
        assert(s.drop_last() =~= a);
        assert(words(a) + words(b) =~= words(a));
    } else {
        let init = b.drop_last();
        words_are_divided_at_white_space(a, c, init);
        assert(s.drop_last() =~= a + seq![c] + init);
        assert(s.last() == b.last());
        if !white(b.last()) {
            if b.len() == 1 {
                assert(s[s.len() - 2] == c);
                assert(words(s) =~= words(a) + words(b));
            } else {
                assert(s[s.len() - 2] == b[b.len() - 2]);
                if white(b[b.len() - 2]) {
                    assert(words(s) =~= words(a) + words(b));
                } else {
                    lemma_a_word_at_the_end(init);
                    assert(words(s) =~= words(a) + words(b));
                }
            }
        }
    }
}

/// A text without white space is one word.
pub proof fn a_word_is_itself(word: Seq<char>)
    requires
        word.len() > 0,
        forall|i: int| 0 <= i < word.len() ==> !white(#[trigger] word[i]),
    ensures
        words(word) == seq![word],
    decreases word.len(),
{
    assert(!white(word[word.len() - 1]));
    if word.len() == 1 {
        let none = word.drop_last();
        assert(none.len() == 0);
        assert(words(none) == Seq::<Seq<char>>::empty());
        assert(words(word) == words(none).push(seq![word.last()]));
        assert(seq![word.last()] =~= word);
        assert(words(word) =~= seq![word]);
    } else {
        let init = word.drop_last();
        assert forall|i: int| 0 <= i < init.len() implies !white(#[trigger] init[i]) by {
            assert(init[i] == word[i]);
        }
        assert(!white(word[word.len() - 2]));
        a_word_is_itself(init);
        assert(init.push(word.last()) =~= word);
        assert(words(word) =~= seq![word]);
    }
}

/// A text that ends a line and then goes on has one line more, as it is written.
pub proof fn the_rest_is_a_line(s: Seq<char>, rest: Seq<char>)
    requires
        ends_a_line(s),
        rest.len() > 0,
        !rest.contains('\n'),
    ensures
        lines(s + rest) == lines(s).push(rest),
{
    lemma_split_nonempty(s, '\n');
    lemma_split_extend(s, rest, '\n');
    let before = split(s, '\n');
    assert(before.last().len() == 0) by {
        if s.len() > 0 {
            assert(split(s, '\n') == split(s.drop_last(), '\n').push(Seq::<char>::empty()));
        }
    }
    assert(before.last() + rest =~= rest);
    let all = split(s + rest, '\n');
    assert(all.drop_last() =~= before.drop_last());
    assert(all.last() == rest);
}

/// Texts are ordered by their first difference, and a text comes before what goes on from it.
pub proof fn texts_are_ordered_by_the_first_difference(
    common: Seq<char>,
    x: char,
    a: Seq<char>,
    y: char,
    b: Seq<char>,
)
    requires
        x != y,
    ensures
        less(common + seq![x] + a, common + seq![y] + b) <==> x < y,
        less(common, common + seq![x] + a),
        !less(common + seq![x] + a, common),
    decreases common.len(),
{
    let p = common + seq![x] + a;
    let q = common + seq![y] + b;
    if common.len() > 0 {
        let rest = common.drop_first();
        texts_are_ordered_by_the_first_difference(rest, x, a, y, b);
        assert(p.drop_first() =~= rest + seq![x] + a);
        assert(q.drop_first() =~= rest + seq![y] + b);
        assert(p[0] == common[0] && q[0] == common[0]);
    } else {
        assert(p[0] == x && q[0] == y);
    }
}

/// Leading zeros and a plus sign do not change a number.
pub proof fn leading_zeros_do_not_count(digits: Seq<char>)
    requires
        digits.len() > 0,
        all_digits(digits),
    ensures
        number(digits) == Some(digits_value(digits)),
        number(seq!['0'] + digits) == number(digits),
        number(seq!['+'] + digits) == number(digits),
{
    let zero = seq!['0'] + digits;
    let plus = seq!['+'] + digits;
    assert(is_ascii_digit(digits[0]));
    assert(plus.skip(1) =~= digits);
    assert forall|i: int| 0 <= i < zero.len() implies is_ascii_digit(#[trigger] zero[i]) by {
        if i > 0 {
            assert(zero[i] == digits[i - 1]);
        }
    }
    lemma_leading_zero(digits);
}

proof fn lemma_leading_zero(digits: Seq<char>)
    ensures
        digits_value(seq!['0'] + digits) == digits_value(digits),
    decreases digits.len(),
{
    let zero = seq!['0'] + digits;
    if digits.len() == 0 {
        assert(zero.drop_last() =~= Seq::<char>::empty());
        assert(digits_value(zero.drop_last()) == 0);
        assert(zero.last() == '0');
    } else {
        lemma_leading_zero(digits.drop_last());
        assert(zero.drop_last() =~= seq!['0'] + digits.drop_last());
        assert(zero.last() == digits.last());
    }
}

/// A text with anything but digits behind an optional plus sign is no number.
pub proof fn only_digits_are_numbers(s: Seq<char>, i: int)
    requires
        0 <= i < s.len(),
        !is_ascii_digit(s[i]),
        i > 0 || s[0] != '+',
    ensures
        number(s) is None,
        number(Seq::<char>::empty()) is None,
        number(seq!['+']) is None,
{
    if s[0] == '+' {
        assert(s.skip(1)[i - 1] == s[i]);
    }
    assert(seq!['+'].skip(1).len() == 0);
}

/// A joined list holds each of its texts.
pub proof fn joined_texts_hold_each(list: Seq<Seq<char>>, sep: Seq<char>, k: int)
    requires
        0 <= k < list.len(),
    ensures
        has_part(joined(list, sep), list[k]),
    decreases list.len(),
{
    let s = joined(list, sep);
    if list.len() == 1 {
        assert(s.subrange(0, s.len() as int) =~= list[0]);
        assert(occurs_at(s, list[k], 0));
    } else {
        let init = list.drop_last();
        let before = joined(init, sep);
        if k < init.len() {
            joined_texts_hold_each(init, sep, k);
            assert(init[k] == list[k]);
            parts_of_a_part(Seq::empty(), before, sep + list.last(), list[k]);
            assert(Seq::<char>::empty() + before + (sep + list.last()) =~= s);
        } else {
            let at = (before.len() + sep.len()) as int;
            assert(s.subrange(at, s.len() as int) =~= list.last());
            assert(occurs_at(s, list[k], at));
        }
    }
}

/// What is part of a text is part of every text around it.
pub proof fn parts_of_a_part(before: Seq<char>, s: Seq<char>, after: Seq<char>, part: Seq<char>)
    requires
        has_part(s, part),
    ensures
        has_part(before + s + after, part),
{
    let at = choose|at: int| occurs_at(s, part, at);
    let whole = before + s + after;
    let there = before.len() + at;
    assert(whole.subrange(there, there + part.len()) =~= s.subrange(at, at + part.len()));
    assert(occurs_at(whole, part, there));
}

/// Pieces that each end in a separator are given back without it, and so is a last piece that does
/// not.
pub proof fn ended_pieces_are_given_back(s: Seq<char>, sep: char)
    ensures
        terminated(s.push(sep), sep) == split(s, sep),
        s.len() > 0 && s.last() != sep ==> terminated(s, sep) == split(s, sep),
        terminated(Seq::<char>::empty(), sep) == Seq::<Seq<char>>::empty(),
{
    let none = Seq::<char>::empty();
    let all = s.push(sep);
    assert(all.drop_last() =~= s);
    assert(split(all, sep) == split(s, sep).push(none));
    assert(split(s, sep).push(none).drop_last() =~= split(s, sep));
    if s.len() > 0 && s.last() != sep {
        lemma_split_nonempty(s.drop_last(), sep);
        assert(split(s, sep).last().len() > 0);
    }
    assert(split(none, sep) =~= seq![none]);
    assert(terminated(none, sep) =~= Seq::<Seq<char>>::empty());
}

/// Replacing one character by another keeps the length, and every other character in its place.
pub proof fn characters_are_replaced_in_place(s: Seq<char>, from: char, to: char)
    ensures
        replaced(s, seq![from], seq![to]).len() == s.len(),
        forall|i: int|
            0 <= i < s.len() ==> #[trigger] replaced(s, seq![from], seq![to])[i] == if s[i] == from {
                to
            } else {
                s[i]
            },
    decreases s.len(),
{
    if s.len() > 0 {
        let rest = s.drop_first();
        let after = replaced(rest, seq![from], seq![to]);
        characters_are_replaced_in_place(rest, from, to);
        let first = if s[0] == from {
            to
        } else {
            s[0]
        };
        if s[0] == from {
            assert(s.subrange(0, 1) =~= seq![from]);
            assert(s.skip(1) =~= rest);
        } else if seq![from].is_prefix_of(s) {
            assert(s.subrange(0, 1)[0] == from);
        }
        let all = replaced(s, seq![from], seq![to]);
        assert(all == seq![first] + after);
        assert forall|i: int| 0 <= i < s.len() implies #[trigger] all[i] == if s[i] == from {
            to
        } else {
            s[i]
        } by {
            if i > 0 {
                assert(all[i] == after[i - 1]);
                assert(rest[i - 1] == s[i]);
            }
        }
    }
}

/// How many numbers have a hexadecimal notation of this width.
pub open spec fn hexadecimals(width: nat) -> nat
    decreases width,
{
    if width == 0 {
        1
    } else {
        16 * hexadecimals((width - 1) as nat)
    }
}

/// Different numbers that fit the width have different hexadecimal notations.
pub proof fn hexadecimal_is_injective(a: nat, b: nat, width: nat)
    requires
        a < hexadecimals(width),
        b < hexadecimals(width),
        hexadecimal(a, width) == hexadecimal(b, width),
    ensures
        a == b,
    decreases width,
{
    if width > 0 {
        let less = (width - 1) as nat;
        let x = hexadecimal(a / 16, less);
        let y = hexadecimal(b / 16, less);
        let c = hex_digit(a % 16);
        let d = hex_digit(b % 16);
        assert(x.push(c).last() == c && y.push(d).last() == d);
        assert(x.push(c).drop_last() =~= x && y.push(d).drop_last() =~= y);
        assert(c == d);
        assert(c as u32 == d as u32);
        assert(a % 16 == b % 16);
        hexadecimal_is_injective(a / 16, b / 16, less);
    }
}

/// Lists are ordered by the first text that differs.
pub proof fn lists_are_ordered_by_the_first_difference(
    common: Seq<Seq<char>>,
    x: Seq<char>,
    a: Seq<Seq<char>>,
    y: Seq<char>,
    b: Seq<Seq<char>>,
)
    requires
        x != y,
    ensures
        list_less(common + seq![x] + a, common + seq![y] + b) <==> less(x, y),
        list_less(common, common + seq![x] + a),
    decreases common.len(),
{
    let p = common + seq![x] + a;
    let q = common + seq![y] + b;
    if common.len() > 0 {
        let rest = common.drop_first();
        lists_are_ordered_by_the_first_difference(rest, x, a, y, b);
        assert(p.drop_first() =~= rest + seq![x] + a);
        assert(q.drop_first() =~= rest + seq![y] + b);
        assert(p[0] == common[0] && q[0] == common[0]);
    } else {
        assert(p[0] == x && q[0] == y);
    }
}

} // verus!
