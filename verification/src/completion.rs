//! What is offered when an argument is completed.

use vstd::prelude::*;

use crate::clean;
use crate::model;
use crate::process::Output;
use crate::state;
use crate::state::{Record, RecordData};
use crate::text;

verus! {

broadcast use crate::model::lemma_views_push;

// ---------------------------------------------------------------------------
// Fish
// ---------------------------------------------------------------------------

/// Completion for Fish, with the word under the cursor read as Fish reads it.
pub struct Fish;

/// The script by which `clap_complete` registers completion with Fish.
pub uninterp spec fn fish_script(var: Seq<char>, name: Seq<char>, bin: Seq<char>, completer: Seq<char>) -> Seq<u8>;

/// Whether Fish reads a word as it stands.
pub open spec fn plain_word(s: Seq<char>) -> bool {
    s.len() > 0 && forall|i: int|
        0 <= i < s.len() ==> text::is_ascii_alphanumeric(#[trigger] s[i]) || "/_-.,+=:@"@.contains(s[i])
}

/// The script for words that Fish reads as they stand.
pub open spec fn plain_script(var: Seq<char>, bin: Seq<char>, completer: Seq<char>) -> Seq<char> {
    "complete --keep-order --exclusive --command "@ + bin + " --arguments \"("@ + var + "=fish "@ + completer
        + " -- (commandline --current-process --tokenize --cut-at-cursor) (commandline --current-token))\"\n"@
}

/// Writes the script with `clap_complete::env::Fish::write_registration` into a buffer, which
/// cannot fail. The script is named: it is a function of the four texts. Where Fish reads the name
/// of the program and the completer as they stand, it is one line that holds them so; how other
/// words are quoted is left unsaid.
#[verifier::external_body]
fn write_fish_script(var: &str, name: &str, bin: &str, completer: &str) -> (r: Result<Vec<u8>, String>)
    ensures
        r is Ok,
        r->Ok_0@ == fish_script(var@, name@, bin@, completer@),
        plain_word(bin@) && plain_word(completer@) ==> r->Ok_0@ == vstd::utf8::encode_utf8(
            plain_script(var@, bin@, completer@),
        ),
{
    let mut script: Vec<u8> = Vec::new();
    let shell: &dyn clap_complete::env::EnvCompleter = &clap_complete::env::Fish;
    match shell.write_registration(var, name, bin, completer, &mut script) {
        Ok(()) => Ok(script),
        Err(error) => Err(error.to_string()),
    }
}

/// A script in which the word under the cursor is split into tokens without being evaluated;
/// printing it keeps an empty word.
pub open spec fn word_tokenized(script: Seq<char>) -> Seq<char> {
    text::replaced(
        script,
        "(commandline --current-token)"@,
        "(printf '%s\\\\n' (commandline --current-token --tokenize))"@,
    )
}

/// A registration script with its word split so, read as a text.
pub open spec fn tokenized(script: Seq<u8>) -> Seq<char> {
    word_tokenized(text::lossy_text(script))
}

/// Has a registration script hand over the word under the cursor without quotes and escapes.
pub fn tokenize(script: &Vec<u8>) -> (r: String)
    ensures
        r@ == tokenized(script@),
        vstd::utf8::valid_utf8(script@) ==> r@ == word_tokenized(vstd::utf8::decode_utf8(script@)),
{
    proof {
        reveal_strlit("(commandline --current-token)");
    }
    text::replace(
        &text::from_utf8_lossy(script),
        "(commandline --current-token)",
        "(printf '%s\\\\n' (commandline --current-token --tokenize))",
    )
}

impl Fish {
    pub fn name(&self) -> (r: &'static str)
        ensures
            r@ == "fish"@,
    {
        "fish"
    }

    pub fn is(&self, name: &str) -> (r: bool)
        ensures
            r == (name@ == "fish"@),
    {
        text::same(name, "fish")
    }

    /// The script that registers completion with Fish.
    pub fn registration(&self, var: &str, name: &str, bin: &str, completer: &str) -> (r: Result<String, String>)
        ensures
            r is Ok,
            r->Ok_0@ == tokenized(fish_script(var@, name@, bin@, completer@)),
            plain_word(bin@) && plain_word(completer@) ==> r->Ok_0@ == word_tokenized(
                plain_script(var@, bin@, completer@),
            ),
    {
        broadcast use {vstd::utf8::encode_utf8_valid_utf8, vstd::utf8::encode_utf8_decode_utf8};

        match write_fish_script(var, name, bin, completer) {
            Ok(script) => Ok(tokenize(&script)),
            Err(message) => Err(message),
        }
    }
}

// ---------------------------------------------------------------------------
// Candidates
// ---------------------------------------------------------------------------

pub open spec fn begins_with(prefix: Seq<char>) -> spec_fn(Seq<char>) -> bool {
    |value: Seq<char>| prefix.is_prefix_of(value)
}

/// The values that begin with what was typed, in order, each once.
pub open spec fn offered(current: Seq<char>, values: Seq<Seq<char>>) -> Seq<Seq<char>> {
    text::sorted_set(values.filter(begins_with(current)))
}

pub fn candidates(current: &str, values: &Vec<String>) -> (r: Vec<String>)
    ensures
        model::views(r@) == offered(current@, model::views(values@)),
{
    let ghost all = model::views(values@);
    let ghost keep = begins_with(current@);
    let mut out: Vec<String> = Vec::new();
    proof {
        model::start_filter(all, keep);
    }
    for i in 0..values.len()
        invariant
            all == model::views(values@),
            keep == begins_with(current@),
            model::views(out@) == all.take(i as int).filter(keep),
    {
        proof {
            model::step_filter(all, i as int, keep);
            assert(all[i as int] == values@[i as int]@);
        }
        if text::starts_with(&values[i], current) {
            out.push(values[i].clone());
        }
    }
    proof {
        model::whole(all);
    }
    text::sort_unique(&out)
}

/// Exactly the values that begin with what was typed are offered, in ascending order.
pub proof fn offers_what_begins_as_typed(current: Seq<char>, values: Seq<Seq<char>>)
    ensures
        model::strictly_ascending(offered(current, values), text::text_order()),
        forall|value: Seq<char>| #[trigger]
            offered(current, values).contains(value) <==> values.contains(value) && current.is_prefix_of(value),
{
    let keep = begins_with(current);
    text::sorted_set_is_the_set(values.filter(keep));
    assert forall|value: Seq<char>| #[trigger] offered(current, values).contains(value) <==> values.contains(value)
        && current.is_prefix_of(value) by {
        lemma_filter_contains(values, keep, value);
    }
}

proof fn lemma_filter_contains(s: Seq<Seq<char>>, keep: spec_fn(Seq<char>) -> bool, x: Seq<char>)
    ensures
        s.filter(keep).contains(x) <==> s.contains(x) && keep(x),
    decreases s.len(),
{
    reveal(Seq::filter);
    if s.len() > 0 {
        let init = s.drop_last();
        lemma_filter_contains(init, keep, x);
        assert(s =~= init.push(s.last()));
        assert(s.contains(x) <==> init.contains(x) || x == s.last()) by {
            if s.contains(x) {
                let m = choose|m: int| 0 <= m < s.len() && s[m] == x;
                if m < init.len() {
                    assert(init[m] == x);
                }
            }
            if init.contains(x) {
                let m = choose|m: int| 0 <= m < init.len() && init[m] == x;
                assert(s[m] == x);
            }
            assert(s[s.len() - 1] == s.last());
        }
        let before = init.filter(keep);
        let after = s.filter(keep);
        if keep(s.last()) {
            assert(after == before.push(s.last()));
            assert(after.contains(x) <==> before.contains(x) || x == s.last()) by {
                if after.contains(x) {
                    let m = choose|m: int| 0 <= m < after.len() && after[m] == x;
                    if m < before.len() {
                        assert(before[m] == x);
                    }
                }
                if before.contains(x) {
                    let m = choose|m: int| 0 <= m < before.len() && before[m] == x;
                    assert(after[m] == x);
                }
                assert(after[after.len() - 1] == s.last());
            }
        }
    }
}

/// The branch that a line of a listing of references names; symbolic references name none.
pub open spec fn branch_in() -> spec_fn(Seq<char>) -> Option<Seq<char>> {
    |line: Seq<char>|
        match text::cut_first(line, "\t"@) {
            Some((name, symbolic)) => if symbolic.len() > 0 {
                None
            } else {
                match text::after_prefix(name, "refs/heads/"@) {
                    Some(branch) => Some(branch),
                    None => text::after_prefix(name, "refs/remotes/origin/"@),
                }
            },
            None => None,
        }
}

fn branch_of_line(line: &str) -> (r: Option<String>)
    ensures
        model::opt(r) == branch_in()(line@),
{
    proof {
        reveal_strlit("\t");
    }
    match text::split_once(line, "\t") {
        Some((name, symbolic)) => {
            if !symbolic.as_str().is_empty() {
                return None;
            }
            match text::strip_prefix(&name, "refs/heads/") {
                Some(branch) => Some(branch),
                None => text::strip_prefix(&name, "refs/remotes/origin/"),
            }
        },
        None => None,
    }
}

/// The branches to offer, by what Git lists of local and remote references.
pub fn branches(current: &str, output: &Output) -> (r: Vec<String>)
    ensures
        model::views(r@) == if output.success() {
            offered(current@, text::lines(text::lossy_text(output.stdout@)).filter_map(branch_in()))
        } else {
            Seq::empty()
        },
{
    let mut found: Vec<String> = Vec::new();
    if !output.succeeded() {
        assert(model::views(found@) =~= Seq::empty());
        return found;
    }
    let lines = text::lines_of(&text::from_utf8_lossy(&output.stdout));
    let ghost all = text::lines(text::lossy_text(output.stdout@));
    proof {
        model::start_filter_map(all, branch_in());
    }
    for i in 0..lines.len()
        invariant
            all == model::views(lines@),
            model::views(found@) == all.take(i as int).filter_map(branch_in()),
    {
        proof {
            model::step_filter_map(all, i as int, branch_in());
            assert(all[i as int] == lines@[i as int]@);
        }
        match branch_of_line(&lines[i]) {
            Some(branch) => {
                found.push(branch);
            },
            None => {},
        }
    }
    proof {
        model::whole(all);
    }
    candidates(current, &found)
}

/// How a worktree is referred to: by its issue, else by its branch.
pub open spec fn reference_of() -> spec_fn(RecordData) -> Seq<char> {
    |record: RecordData|
        match record.issue {
            Some(issue) => text::decimal(issue as nat),
            None => record.branch,
        }
}

/// The worktrees of a repository to offer.
pub fn worktrees(current: &str, repository: &str, records: &Vec<Record>) -> (r: Vec<String>)
    ensures
        model::views(r@) == offered(
            current@,
            state::record_views(records@).filter(clean::ours(repository@)).map_values(reference_of()),
        ),
{
    let own = clean::of_repository(records, repository);
    let ghost all = state::record_views(own@).map_values(reference_of());
    let mut out: Vec<String> = Vec::new();
    assert(model::views(out@) =~= all.take(0));
    for i in 0..own.len()
        invariant
            all == state::record_views(own@).map_values(reference_of()),
            model::views(out@) == all.take(i as int),
    {
        proof {
            model::step(all, i as int);
            assert(state::record_views(own@)[i as int] == own@[i as int]@);
        }
        let name = match own[i].issue {
            Some(issue) => text::to_decimal(issue),
            None => own[i].branch.clone(),
        };
        out.push(name);
    }
    proof {
        model::whole(all);
    }
    candidates(current, &out)
}

/// A branch is offered by its name, be it local or the remote's; a line that names something else, or
/// only points to another reference, offers nothing.
pub proof fn branches_are_offered_by_name(branch: Seq<char>, symbolic: Seq<char>)
    requires
        !branch.contains('\t'),
    ensures
        branch_in()("refs/heads/"@ + branch + "\t"@) == Some(branch),
        branch_in()("refs/remotes/origin/"@ + branch + "\t"@) == Some(branch),
        symbolic.len() > 0 ==> branch_in()("refs/heads/"@ + branch + "\t"@ + symbolic) is None,
        symbolic.len() > 0 ==> branch_in()("refs/remotes/origin/"@ + branch + "\t"@ + symbolic) is None,
        branch_in()("refs/tags/"@ + branch + "\t"@) is None,
{
    reveal_strlit("refs/heads/");
    reveal_strlit("refs/remotes/origin/");
    reveal_strlit("refs/tags/");
    reveal_strlit("\t");
    let none = Seq::<char>::empty();
    let local = "refs/heads/"@ + branch;
    let remote = "refs/remotes/origin/"@ + branch;
    let tag = "refs/tags/"@ + branch;
    lemma_no_tab("refs/heads/"@, branch);
    lemma_no_tab("refs/remotes/origin/"@, branch);
    lemma_no_tab("refs/tags/"@, branch);
    lemma_cut_at_tab(local, none);
    lemma_cut_at_tab(remote, none);
    lemma_cut_at_tab(tag, none);
    lemma_cut_at_tab(local, symbolic);
    lemma_cut_at_tab(remote, symbolic);
    assert(local + "\t"@ + none =~= local + "\t"@);
    assert(remote + "\t"@ + none =~= remote + "\t"@);
    assert(tag + "\t"@ + none =~= tag + "\t"@);
    assert(local.subrange(0, "refs/heads/"@.len() as int) =~= "refs/heads/"@);
    assert(local.skip("refs/heads/"@.len() as int) =~= branch);
    assert(remote.subrange(0, "refs/remotes/origin/"@.len() as int) =~= "refs/remotes/origin/"@);
    assert(remote.skip("refs/remotes/origin/"@.len() as int) =~= branch);
    if "refs/heads/"@.is_prefix_of(remote) {
        assert(remote.subrange(0, "refs/heads/"@.len() as int)[5] == 'r');
    }
    if "refs/heads/"@.is_prefix_of(tag) {
        assert(tag.subrange(0, "refs/heads/"@.len() as int)[5] == 't');
    }
    if "refs/remotes/origin/"@.is_prefix_of(tag) {
        assert(tag.subrange(0, "refs/remotes/origin/"@.len() as int)[5] == 't');
    }
}

proof fn lemma_no_tab(place: Seq<char>, branch: Seq<char>)
    requires
        !branch.contains('\t'),
        forall|i: int| 0 <= i < place.len() ==> #[trigger] place[i] != '\t',
    ensures
        !(place + branch).contains('\t'),
{
    let name = place + branch;
    if name.contains('\t') {
        let i = choose|i: int| 0 <= i < name.len() && name[i] == '\t';
        if i >= place.len() {
            assert(branch[i - place.len()] == '\t');
        } else {
            assert(place[i] == '\t');
        }
    }
}

proof fn lemma_cut_at_tab(name: Seq<char>, rest: Seq<char>)
    requires
        !name.contains('\t'),
    ensures
        text::cut_first(name + "\t"@ + rest, "\t"@) == Some((name, rest)),
{
    reveal_strlit("\t");
    assert("\t"@ =~= seq!['\t']);
    text::texts_are_cut_at_the_first_character(name, '\t', rest);
}

/// Every worktree of the repository is offered by its issue, or by its branch where it has none, if
/// that begins as typed.
pub proof fn every_worktree_is_offered(current: Seq<char>, repository: Seq<char>, records: Seq<RecordData>, k: int)
    requires
        0 <= k < records.len(),
        text::lower_text(records[k].repository) == text::lower_text(repository),
    ensures
        ({
            let values = records.filter(clean::ours(repository)).map_values(reference_of());
            &&& records[k].issue matches Some(issue) ==> (offered(current, values).contains(text::decimal(issue as nat))
                <==> current.is_prefix_of(text::decimal(issue as nat)))
            &&& records[k].issue is None ==> (offered(current, values).contains(records[k].branch)
                <==> current.is_prefix_of(records[k].branch))
        }),
{
    let own = records.filter(clean::ours(repository));
    let values = own.map_values(reference_of());
    clean::records_belong_to_their_repository(records, repository);
    assert(own.contains(records[k]));
    let i = choose|i: int| 0 <= i < own.len() && own[i] == records[k];
    assert(values[i] == reference_of()(records[k]));
    assert(values.contains(values[i]));
    offers_what_begins_as_typed(current, values);
}

/// Nothing else is offered: a value stands for a worktree of the repository.
pub proof fn only_worktrees_are_offered(
    current: Seq<char>,
    repository: Seq<char>,
    records: Seq<RecordData>,
    value: Seq<char>,
)
    requires
        offered(current, records.filter(clean::ours(repository)).map_values(reference_of())).contains(value),
    ensures
        current.is_prefix_of(value),
        exists|k: int|
            0 <= k < records.len() && text::lower_text((#[trigger] records[k]).repository) == text::lower_text(
                repository,
            ) && (records[k].issue matches Some(issue) ==> value == text::decimal(issue as nat)) && (
            records[k].issue is None ==> value == records[k].branch),
{
    let own = records.filter(clean::ours(repository));
    let values = own.map_values(reference_of());
    offers_what_begins_as_typed(current, values);
    clean::records_belong_to_their_repository(records, repository);
    let i = choose|i: int| 0 <= i < values.len() && values[i] == value;
    assert(own.contains(own[i]));
    assert(records.contains(own[i]));
    let k = choose|k: int| 0 <= k < records.len() && records[k] == own[i];
    assert(own.contains(records[k]));
}

} // verus!
