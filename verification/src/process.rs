//! What a finished command left behind, and how it is read.

use vstd::prelude::*;

use crate::model;
use crate::text;

verus! {

/// The exit code of a command, where it was not killed by a signal, and what it wrote.
pub struct Output {
    pub code: Option<i32>,
    pub stdout: Vec<u8>,
    pub stderr: Vec<u8>,
}

impl Output {
    pub open spec fn success(&self) -> bool {
        self.code == Some(0i32)
    }

    /// What the command wrote to standard error, without white space around it.
    pub open spec fn complaint(&self) -> Seq<char> {
        text::trimmed(text::lossy_text(self.stderr@))
    }

    pub fn succeeded(&self) -> (r: bool)
        ensures
            r == self.success(),
    {
        match self.code {
            Some(code) => code == 0,
            None => false,
        }
    }

    pub fn complaint_text(&self) -> (r: String)
        ensures
            r@ == self.complaint(),
    {
        text::trim(&text::from_utf8_lossy(&self.stderr))
    }
}

/// The text that bytes encode, or the complaint that they encode none.
pub open spec fn decoded(bytes: Seq<u8>) -> Result<Seq<char>, Seq<char>> {
    if vstd::utf8::valid_utf8(bytes) {
        Ok(vstd::utf8::decode_utf8(bytes))
    } else {
        Err("output is not valid UTF-8"@)
    }
}

pub fn decode(bytes: &Vec<u8>) -> (r: Result<String, String>)
    ensures
        model::outcome(r) == decoded(bytes@),
{
    match text::from_utf8(bytes) {
        Some(s) => Ok(s),
        None => Err("output is not valid UTF-8".to_owned()),
    }
}

/// A command that must succeed.
pub open spec fn required(output: Output) -> Result<(), Seq<char>> {
    if output.success() {
        Ok(())
    } else {
        Err("command failed: "@ + output.complaint())
    }
}

pub fn run(output: &Output) -> (r: Result<(), String>)
    ensures
        model::outcome(r) == required(*output),
{
    if output.succeeded() {
        Ok(())
    } else {
        Err(text::concat("command failed: ", &output.complaint_text()))
    }
}

/// What a command that must succeed wrote, without white space around it.
pub open spec fn answered(output: Output) -> Result<Seq<char>, Seq<char>> {
    if !output.success() {
        Err("command failed: "@ + output.complaint())
    } else {
        match decoded(output.stdout@) {
            Ok(s) => Ok(text::trimmed(s)),
            Err(message) => Err(message),
        }
    }
}

pub fn git_output(output: &Output) -> (r: Result<String, String>)
    ensures
        model::outcome(r) == answered(*output),
{
    match run(output) {
        Ok(()) => match decode(&output.stdout) {
            Ok(s) => Ok(text::trim(&s)),
            Err(message) => Err(message),
        },
        Err(message) => Err(message),
    }
}

/// A complaint with what was being done in front of it.
pub open spec fn in_context(context: Seq<char>, message: Seq<char>) -> Seq<char> {
    context + ": "@ + message
}

pub fn with_context(context: &str, message: &str) -> (r: String)
    ensures
        r@ == in_context(context@, message@),
{
    text::concat3(context, ": ", message)
}

// ---------------------------------------------------------------------------
// Lists separated by NUL
// ---------------------------------------------------------------------------

/// The pieces of a byte sequence between the occurrences of `sep`.
pub open spec fn byte_pieces(bytes: Seq<u8>, sep: u8) -> Seq<Seq<u8>>
    decreases bytes.len(),
{
    if bytes.len() == 0 {
        seq![Seq::<u8>::empty()]
    } else {
        let before = byte_pieces(bytes.drop_last(), sep);
        if bytes.last() == sep {
            before.push(Seq::<u8>::empty())
        } else {
            before.drop_last().push(before.last().push(bytes.last()))
        }
    }
}

/// The bytes of a list of byte strings.
pub open spec fn byte_views(list: Seq<Vec<u8>>) -> Seq<Seq<u8>> {
    list.map_values(|v: Vec<u8>| v@)
}

/// The non-empty pieces between NUL bytes.
pub open spec fn nul_entries(bytes: Seq<u8>) -> Seq<Seq<u8>> {
    byte_pieces(bytes, 0).filter(|e: Seq<u8>| e.len() > 0)
}

proof fn lemma_byte_pieces_nonempty(bytes: Seq<u8>, sep: u8)
    ensures
        byte_pieces(bytes, sep).len() > 0,
    decreases bytes.len(),
{
    if bytes.len() > 0 {
        lemma_byte_pieces_nonempty(bytes.drop_last(), sep);
    }
}

/// The non-empty pieces of `bytes` between NUL bytes.
pub fn nul_pieces(bytes: &Vec<u8>) -> (r: Vec<Vec<u8>>)
    ensures
        byte_views(r@) == nul_entries(bytes@),
{
    let ghost keep = |e: Seq<u8>| e.len() > 0;
    let mut out: Vec<Vec<u8>> = Vec::new();
    let mut last: Vec<u8> = Vec::new();
    proof {
        assert(bytes@.take(0) =~= Seq::<u8>::empty());
        let pieces = byte_pieces(bytes@.take(0), 0);
        assert(pieces.drop_last() =~= pieces.take(0));
        model::start_filter(pieces, keep);
        assert(byte_views(out@) =~= pieces.drop_last().filter(keep));
        assert(pieces.last() =~= last@);
    }
    for i in 0..bytes.len()
        invariant
            keep == (|e: Seq<u8>| e.len() > 0),
            byte_pieces(bytes@.take(i as int), 0).len() > 0,
            byte_views(out@) == byte_pieces(bytes@.take(i as int), 0).drop_last().filter(keep),
            last@ == byte_pieces(bytes@.take(i as int), 0).last(),
    {
        let byte: u8 = bytes[i];
        let ghost before = byte_pieces(bytes@.take(i as int), 0);
        let ghost after = byte_pieces(bytes@.take(i + 1), 0);
        let ghost kept = byte_views(out@);
        proof {
            model::step(bytes@, i as int);
            lemma_byte_pieces_nonempty(bytes@.take(i + 1), 0);
            reveal(Seq::filter);
        }
        if byte == 0 {
            assert(after.drop_last() =~= before);
            if last.len() > 0 {
                out.push(last);
                assert(byte_views(out@) =~= kept.push(before.last()));
            }
            last = Vec::new();
            assert(last@ =~= after.last());
        } else {
            last.push(byte);
            assert(after.drop_last() =~= before.drop_last());
        }
    }
    proof {
        model::whole(bytes@);
        reveal(Seq::filter);
    }
    if last.len() > 0 {
        let ghost kept = byte_views(out@);
        out.push(last);
        assert(byte_views(out@) =~= kept.push(byte_pieces(bytes@, 0).last()));
    }
    out
}

/// The paths that a NUL-separated list names.
pub open spec fn nul_texts(bytes: Seq<u8>) -> Result<Seq<Seq<char>>, Seq<char>> {
    let entries = nul_entries(bytes);
    if forall|i: int| 0 <= i < entries.len() ==> vstd::utf8::valid_utf8(#[trigger] entries[i]) {
        Ok(entries.map_values(|e: Seq<u8>| vstd::utf8::decode_utf8(e)))
    } else {
        Err("output is not valid UTF-8"@)
    }
}

pub fn nul_paths(bytes: &Vec<u8>) -> (r: Result<Vec<String>, String>)
    ensures
        model::outcome_list(r) == nul_texts(bytes@),
{
    broadcast use crate::model::lemma_views_push;

    let pieces = nul_pieces(bytes);
    let ghost entries = nul_entries(bytes@);
    let ghost texts = entries.map_values(|e: Seq<u8>| vstd::utf8::decode_utf8(e));
    let mut out: Vec<String> = Vec::new();
    for i in 0..pieces.len()
        invariant
            entries == nul_entries(bytes@),
            texts == entries.map_values(|e: Seq<u8>| vstd::utf8::decode_utf8(e)),
            entries == byte_views(pieces@),
            forall|k: int| 0 <= k < i ==> vstd::utf8::valid_utf8(#[trigger] entries[k]),
            model::views(out@) == texts.take(i as int),
    {
        assert(entries[i as int] == pieces@[i as int]@);
        match decode(&pieces[i]) {
            Ok(s) => {
                proof {
                    model::step(texts, i as int);
                }
                out.push(s);
            },
            Err(message) => {
                assert(!vstd::utf8::valid_utf8(entries[i as int]));
                return Err(message);
            },
        }
    }
    proof {
        model::whole(texts);
    }
    Ok(out)
}

proof fn lemma_pieces_apart(a: Seq<u8>, b: Seq<u8>, sep: u8)
    ensures
        byte_pieces(a + seq![sep] + b, sep) == byte_pieces(a, sep) + byte_pieces(b, sep),
        byte_pieces(b, sep).len() > 0,
    decreases b.len(),
{
    let all = a + seq![sep] + b;
    if b.len() == 0 {
        assert(all.drop_last() =~= a);
        assert(byte_pieces(all, sep) =~= byte_pieces(a, sep) + byte_pieces(b, sep));
    } else {
        lemma_pieces_apart(a, b.drop_last(), sep);
        assert(all.drop_last() =~= a + seq![sep] + b.drop_last());
        assert(byte_pieces(all, sep) =~= byte_pieces(a, sep) + byte_pieces(b, sep));
    }
}

proof fn lemma_one_piece(entry: Seq<u8>, sep: u8)
    requires
        !entry.contains(sep),
    ensures
        byte_pieces(entry, sep) == seq![entry],
    decreases entry.len(),
{
    if entry.len() == 0 {
        assert(entry =~= Seq::<u8>::empty());
    } else {
        let init = entry.drop_last();
        assert(!init.contains(sep)) by {
            if init.contains(sep) {
                let i = choose|i: int| 0 <= i < init.len() && init[i] == sep;
                assert(entry[i] == sep);
            }
        }
        assert(entry.contains(entry.last()));
        lemma_one_piece(init, sep);
        assert(init.push(entry.last()) =~= entry);
        assert(byte_pieces(entry, sep) =~= seq![entry]);
    }
}

/// Output in entries that end in a zero byte gives every entry back, in order: what stands before a
/// zero byte and what stands after it are read apart, and an entry without one is a single entry.
pub proof fn entries_are_read_apart(a: Seq<u8>, b: Seq<u8>, entry: Seq<u8>)
    ensures
        nul_entries(a + seq![0u8] + b) == nul_entries(a) + nul_entries(b),
        entry.len() > 0 && !entry.contains(0u8) ==> nul_entries(entry) == seq![entry],
        nul_entries(Seq::<u8>::empty()) == Seq::<Seq<u8>>::empty(),
{
    let keep = |e: Seq<u8>| e.len() > 0;
    let none = Seq::<u8>::empty();
    lemma_pieces_apart(a, b, 0);
    Seq::filter_distributes_over_add(byte_pieces(a, 0), byte_pieces(b, 0), keep);
    if entry.len() > 0 && !entry.contains(0u8) {
        lemma_one_piece(entry, 0);
        crate::model::filter_one(entry, keep);
    }
    lemma_one_piece(none, 0);
    crate::model::filter_one(none, keep);
}

/// Entries are read as texts exactly where each of them is valid, each as itself.
pub proof fn every_entry_is_read(bytes: Seq<u8>)
    ensures
        nul_texts(bytes) is Ok <==> forall|i: int|
            0 <= i < nul_entries(bytes).len() ==> vstd::utf8::valid_utf8(#[trigger] nul_entries(bytes)[i]),
        nul_texts(bytes) matches Ok(list) ==> list.len() == nul_entries(bytes).len() && forall|i: int|
            0 <= i < list.len() ==> #[trigger] list[i] == vstd::utf8::decode_utf8(nul_entries(bytes)[i]),
{
}

} // verus!
