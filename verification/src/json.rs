//! The one JSON text that is kept: the two commands of a configuration, by which trust is given.

use vstd::prelude::*;

use crate::model;

verus! {

/// An error of `serde_json`, carried as it comes.
#[verifier::external_type_specification]
#[verifier::external_body]
pub struct ExJsonError(serde_json::Error);

pub open spec fn hex_digit(n: int) -> char {
    if n < 10 {
        ('0' as int + n) as char
    } else {
        ('a' as int + (n - 10)) as char
    }
}

/// A character inside a JSON string.
pub open spec fn escaped_char(c: char) -> Seq<char> {
    if c == '"' {
        seq!['\\', '"']
    } else if c == '\\' {
        seq!['\\', '\\']
    } else if c as int == 8 {
        seq!['\\', 'b']
    } else if c as int == 9 {
        seq!['\\', 't']
    } else if c as int == 10 {
        seq!['\\', 'n']
    } else if c as int == 12 {
        seq!['\\', 'f']
    } else if c as int == 13 {
        seq!['\\', 'r']
    } else if (c as int) < 32 {
        seq!['\\', 'u', '0', '0', hex_digit(c as int / 16), hex_digit(c as int % 16)]
    } else {
        seq![c]
    }
}

/// The characters of a text inside a JSON string.
pub open spec fn escaped(s: Seq<char>) -> Seq<char>
    decreases s.len(),
{
    if s.len() == 0 {
        Seq::empty()
    } else {
        escaped_char(s[0]) + escaped(s.drop_first())
    }
}

/// An optional text in JSON.
pub open spec fn json_text(s: Option<Seq<char>>) -> Seq<char> {
    match s {
        Some(s) => seq!['"'] + escaped(s) + seq!['"'],
        None => seq!['n', 'u', 'l', 'l'],
    }
}

/// A JSON array of two optional texts.
pub open spec fn json_pair(a: Option<Seq<char>>, b: Option<Seq<char>>) -> Seq<char> {
    seq!['['] + json_text(a) + seq![','] + json_text(b) + seq![']']
}

/// Writes two optional texts with `serde_json::to_string`. Writing strings and nulls into a
/// `String` cannot fail, and it leaves no white space: an array in brackets with a comma between
/// its two elements, an absent text as `null`, a present one in quotes. Inside the quotes a quote
/// and a backslash follow a backslash, the control characters below the space are written as
/// `\b`, `\t`, `\n`, `\f`, `\r` or as `\u00` and two lower-case hexadecimal digits, and every other
/// character stands for itself.
#[verifier::external_body]
pub(crate) fn pair_to_string(a: Option<&str>, b: Option<&str>) -> (r: Result<String, serde_json::Error>)
    ensures
        r is Ok,
        r->Ok_0@ == json_pair(model::opt_str(a), model::opt_str(b)),
{
    serde_json::to_string(&[a, b])
}

proof fn lemma_escaped_char(a: char, b: char, x: Seq<char>, y: Seq<char>)
    requires
        escaped_char(a) + x == escaped_char(b) + y,
    ensures
        a == b,
        x == y,
{
    let left = escaped_char(a) + x;
    let right = escaped_char(b) + y;
    assert(left[0] == right[0]);
    assert(left[0] == escaped_char(a)[0]);
    assert(right[0] == escaped_char(b)[0]);
    if escaped_char(a)[0] == '\\' {
        assert(left[1] == escaped_char(a)[1]);
        assert(right[1] == escaped_char(b)[1]);
        if escaped_char(a)[1] == 'u' {
            assert(left[4] == escaped_char(a)[4]);
            assert(right[4] == escaped_char(b)[4]);
            assert(left[5] == escaped_char(a)[5]);
            assert(right[5] == escaped_char(b)[5]);
            assert(a as int / 16 == b as int / 16);
            assert(a as int % 16 == b as int % 16);
        }
    }
    assert(a == b);
    assert(x =~= left.skip(escaped_char(a).len() as int));
    assert(y =~= right.skip(escaped_char(b).len() as int));
}

proof fn lemma_escaped(a: Seq<char>, b: Seq<char>, x: Seq<char>, y: Seq<char>)
    requires
        escaped(a) + seq!['"'] + x == escaped(b) + seq!['"'] + y,
    ensures
        a == b,
        x == y,
    decreases a.len() + b.len(),
{
    let left = escaped(a) + seq!['"'] + x;
    let right = escaped(b) + seq!['"'] + y;
    assert(left[0] == right[0]);
    if a.len() == 0 && b.len() == 0 {
        assert(a =~= b);
        assert(x =~= left.skip(1));
        assert(y =~= right.skip(1));
    } else if a.len() == 0 {
        assert(right[0] == escaped_char(b[0])[0]);
        assert(left[0] == '"');
    } else if b.len() == 0 {
        assert(left[0] == escaped_char(a[0])[0]);
        assert(right[0] == '"');
    } else {
        let more_left = escaped(a.drop_first()) + seq!['"'] + x;
        let more_right = escaped(b.drop_first()) + seq!['"'] + y;
        assert(left =~= escaped_char(a[0]) + more_left);
        assert(right =~= escaped_char(b[0]) + more_right);
        lemma_escaped_char(a[0], b[0], more_left, more_right);
        lemma_escaped(a.drop_first(), b.drop_first(), x, y);
        assert(a =~= seq![a[0]] + a.drop_first());
        assert(b =~= seq![b[0]] + b.drop_first());
    }
}

proof fn lemma_json_text(a: Option<Seq<char>>, b: Option<Seq<char>>, x: Seq<char>, y: Seq<char>)
    requires
        json_text(a) + x == json_text(b) + y,
    ensures
        a == b,
        x == y,
{
    let left = json_text(a) + x;
    let right = json_text(b) + y;
    assert(left[0] == json_text(a)[0]);
    assert(right[0] == json_text(b)[0]);
    match (a, b) {
        (Some(s), Some(t)) => {
            assert(left.skip(1) =~= escaped(s) + seq!['"'] + x);
            assert(right.skip(1) =~= escaped(t) + seq!['"'] + y);
            lemma_escaped(s, t, x, y);
        },
        (None, None) => {
            assert(x =~= left.skip(4));
            assert(y =~= right.skip(4));
        },
        _ => {},
    }
}

/// Two pairs of texts that are written alike are the same.
pub proof fn json_pairs_are_distinct(a: Option<Seq<char>>, b: Option<Seq<char>>, c: Option<Seq<char>>, d: Option<Seq<char>>)
    requires
        json_pair(a, b) == json_pair(c, d),
    ensures
        a == c,
        b == d,
{
    let left = json_pair(a, b);
    let right = json_pair(c, d);
    let rest_left = seq![','] + json_text(b) + seq![']'];
    let rest_right = seq![','] + json_text(d) + seq![']'];
    assert(left.skip(1) =~= json_text(a) + rest_left);
    assert(right.skip(1) =~= json_text(c) + rest_right);
    lemma_json_text(a, c, rest_left, rest_right);
    assert(rest_left.skip(1) =~= json_text(b) + seq![']']);
    assert(rest_right.skip(1) =~= json_text(d) + seq![']']);
    lemma_json_text(b, d, seq![']'], seq![']']);
}

proof fn lemma_escaped_char_printable(c: char)
    ensures
        forall|i: int| 0 <= i < escaped_char(c).len() ==> (#[trigger] escaped_char(c)[i]) as int >= 32,
{
    if (c as int) < 32 {
        let high = c as int / 16;
        let low = c as int % 16;
        assert(0 <= high < 2 && 0 <= low < 16);
        assert(hex_digit(high) as int >= 32);
        assert(hex_digit(low) as int >= 32);
    }
}

proof fn lemma_escaped_printable(s: Seq<char>)
    ensures
        forall|i: int| 0 <= i < escaped(s).len() ==> (#[trigger] escaped(s)[i]) as int >= 32,
    decreases s.len(),
{
    if s.len() > 0 {
        lemma_escaped_printable(s.drop_first());
        lemma_escaped_char_printable(s[0]);
        let first = escaped_char(s[0]);
        let rest = escaped(s.drop_first());
        assert forall|i: int| 0 <= i < escaped(s).len() implies (#[trigger] escaped(s)[i]) as int >= 32 by {
            if i < first.len() {
                assert(escaped(s)[i] == first[i]);
            } else {
                assert(escaped(s)[i] == rest[i - first.len()]);
            }
        }
    }
}

proof fn lemma_json_text_printable(s: Option<Seq<char>>)
    ensures
        forall|i: int| 0 <= i < json_text(s).len() ==> (#[trigger] json_text(s)[i]) as int >= 32,
{
    match s {
        Some(s) => {
            lemma_escaped_printable(s);
            assert forall|i: int| 0 <= i < json_text(Some(s)).len() implies (#[trigger] json_text(Some(s))[i]) as int >= 32 by {
                if 1 <= i < json_text(Some(s)).len() - 1 {
                    assert(json_text(Some(s))[i] == escaped(s)[i - 1]);
                }
            }
        },
        None => {},
    }
}

/// A written pair fits on one line: it holds no control character.
pub proof fn json_pair_is_one_line(a: Option<Seq<char>>, b: Option<Seq<char>>)
    ensures
        forall|i: int| 0 <= i < json_pair(a, b).len() ==> (#[trigger] json_pair(a, b)[i]) as int >= 32,
        json_pair(a, b).len() > 0,
        json_pair(a, b).last() == ']',
{
    lemma_json_text_printable(a);
    lemma_json_text_printable(b);
    let r = json_pair(a, b);
    let n = json_text(a).len();
    assert forall|i: int| 0 <= i < r.len() implies (#[trigger] r[i]) as int >= 32 by {
        if 1 <= i < 1 + n {
            assert(r[i] == json_text(a)[i - 1]);
        } else if n + 2 <= i < r.len() - 1 {
            assert(r[i] == json_text(b)[i - n - 2]);
        }
    }
}

} // verus!
