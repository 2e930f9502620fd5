//! Whether a branch was merged through a pull request.

use vstd::prelude::*;

use crate::model;
use crate::process::Output;
use crate::text;

verus! {

broadcast use crate::model::lemma_views_push;

/// A pull request as GitHub lists it.
pub struct PullRequest {
    pub number: u64,
    pub state: String,
    pub head_ref_name: String,
    pub head_ref_oid: String,
    pub base_ref_name: String,
    pub is_cross_repository: bool,
}

pub ghost struct PullData {
    pub number: u64,
    pub state: Seq<char>,
    pub head_ref_name: Seq<char>,
    pub head_ref_oid: Seq<char>,
    pub base_ref_name: Seq<char>,
    pub is_cross_repository: bool,
}

impl View for PullRequest {
    type V = PullData;

    open spec fn view(&self) -> PullData {
        PullData {
            number: self.number,
            state: self.state@,
            head_ref_name: self.head_ref_name@,
            head_ref_oid: self.head_ref_oid@,
            base_ref_name: self.base_ref_name@,
            is_cross_repository: self.is_cross_repository,
        }
    }
}

pub open spec fn pull_views(list: Seq<PullRequest>) -> Seq<PullData> {
    list.map_values(|p: PullRequest| p@)
}

/// A base as GitHub names it: without the places that Git keeps branches in.
pub open spec fn base_name(base: Seq<char>) -> Seq<char> {
    text::without_prefixes(
        text::without_prefixes(text::without_prefixes(base, "refs/heads/"@), "refs/remotes/"@),
        "origin/"@,
    )
}

pub fn short_base(base: &str) -> (r: String)
    ensures
        r@ == base_name(base@),
{
    text::trim_prefixes(
        &text::trim_prefixes(&text::trim_prefixes(base, "refs/heads/"), "refs/remotes/"),
        "origin/",
    )
}

/// Names that carry none of Git's places for branches.
pub open spec fn bare_name(name: Seq<char>) -> bool {
    !"refs/heads/"@.is_prefix_of(name) && !"refs/remotes/"@.is_prefix_of(name) && !"origin/"@.is_prefix_of(name)
}

proof fn lemma_place(prefix: Seq<char>, name: Seq<char>)
    requires
        prefix.len() > 0,
        !prefix.is_prefix_of(name),
    ensures
        text::without_prefixes(prefix + name, prefix) == name,
        text::without_prefixes(name, prefix) == name,
{
    reveal_with_fuel(text::without_prefixes, 2);
    assert((prefix + name).skip(prefix.len() as int) =~= name);
    assert((prefix + name).take(prefix.len() as int) =~= prefix);
    assert(prefix.is_prefix_of(prefix + name));
}

/// A base is the same one however it is spelled: by its name, as the local branch, or as the branch
/// of the remote.
pub proof fn every_spelling_names_the_base(name: Seq<char>)
    requires
        bare_name(name),
    ensures
        base_name(name) == name,
        base_name("origin/"@ + name) == name,
        base_name("refs/heads/"@ + name) == name,
        base_name("refs/remotes/origin/"@ + name) == name,
{
    let heads = "refs/heads/"@;
    let remotes = "refs/remotes/"@;
    let origin = "origin/"@;
    let both = "refs/remotes/origin/"@;
    reveal_strlit("refs/heads/");
    reveal_strlit("refs/remotes/");
    reveal_strlit("origin/");
    reveal_strlit("refs/remotes/origin/");
    lemma_place(heads, name);
    lemma_place(remotes, name);
    lemma_place(origin, name);
    let with_origin = origin + name;
    assert(with_origin[0] == 'o');
    assert(heads[0] == 'r' && remotes[0] == 'r');
    assert(!heads.is_prefix_of(with_origin));
    assert(!remotes.is_prefix_of(with_origin));
    lemma_place(heads, with_origin);
    lemma_place(remotes, with_origin);
    let with_both = both + name;
    assert(with_both =~= remotes + with_origin);
    assert(with_both[5] == 'r' && heads[5] == 'h');
    assert(!heads.is_prefix_of(with_both)) by {
        if heads.is_prefix_of(with_both) {
            assert(with_both.subrange(0, heads.len() as int)[5] == with_both[5]);
        }
    }
    lemma_place(heads, with_both);
}

/// Whether a pull request merged the branch into the base, from the repository itself.
pub open spec fn merges(branch: Seq<char>, base: Seq<char>) -> spec_fn(PullData) -> bool {
    |p: PullData|
        p.state == "MERGED"@ && !p.is_cross_repository && p.head_ref_name == branch && p.base_ref_name == base
}

/// A pull request to compare with: its number, and the commit that its head ended at.
pub open spec fn comparison() -> spec_fn(PullData) -> (u64, Seq<char>) {
    |p: PullData| (p.number, p.head_ref_oid)
}

/// The pull requests that may have merged the branch, in the order they are listed.
pub open spec fn qualifying(page: Seq<PullData>, branch: Seq<char>, base: Seq<char>) -> Seq<(u64, Seq<char>)> {
    page.filter(merges(branch, base)).map_values(comparison())
}

/// Only pull requests of the branch itself, merged into the base from the repository and not from
/// a fork, are compared with.
pub proof fn only_own_merged_pulls_qualify(page: Seq<PullData>, branch: Seq<char>, base: Seq<char>)
    ensures
        forall|i: int|
            0 <= i < qualifying(page, branch, base).len() ==> exists|k: int|
                0 <= k < page.len() && comes_from(#[trigger] page[k], branch, base, #[trigger] qualifying(
                    page,
                    branch,
                    base,
                )[i]),
    decreases page.len(),
{
    reveal(Seq::filter);
    let keep = merges(branch, base);
    let all = qualifying(page, branch, base);
    if page.len() > 0 {
        let init = page.drop_last();
        only_own_merged_pulls_qualify(init, branch, base);
        let before = qualifying(init, branch, base);
        assert forall|i: int| 0 <= i < all.len() implies exists|k: int|
            0 <= k < page.len() && comes_from(#[trigger] page[k], branch, base, #[trigger] all[i]) by {
            if i < before.len() {
                assert(all[i] == before[i]);
                let k = choose|k: int|
                    0 <= k < init.len() && comes_from(#[trigger] init[k], branch, base, before[i]);
                assert(comes_from(page[k], branch, base, all[i]));
            } else {
                assert(comes_from(page[page.len() - 1], branch, base, all[i]));
            }
        }
    }
}

/// Every pull request that was merged into the base, comes from the repository itself and has the
/// branch as its head is compared with, whatever the branch is called.
pub proof fn every_own_merged_pull_qualifies(page: Seq<PullData>, branch: Seq<char>, base: Seq<char>, k: int)
    requires
        0 <= k < page.len(),
        page[k].state == "MERGED"@,
        !page[k].is_cross_repository,
        page[k].head_ref_name == branch,
        page[k].base_ref_name == base,
    ensures
        qualifying(page, branch, base).contains((page[k].number, page[k].head_ref_oid)),
{
    let keep = merges(branch, base);
    model::filter_keeps(page, keep);
    let kept = page.filter(keep);
    assert(kept.contains(page[k]));
    let i = choose|i: int| 0 <= i < kept.len() && kept[i] == page[k];
    assert(qualifying(page, branch, base)[i] == (page[k].number, page[k].head_ref_oid));
}

/// Pull requests are compared with in the order of their pages: what qualifies of two pages is
/// what qualifies of the first, then what qualifies of the second.
pub proof fn pulls_qualify_in_order(page: Seq<PullData>, more: Seq<PullData>, branch: Seq<char>, base: Seq<char>)
    ensures
        qualifying(page + more, branch, base) == qualifying(page, branch, base) + qualifying(more, branch, base),
{
    let keep = merges(branch, base);
    Seq::filter_distributes_over_add(page, more, keep);
    assert(qualifying(page + more, branch, base) =~= qualifying(page, branch, base) + qualifying(
        more,
        branch,
        base,
    ));
}

/// A single pull request qualifies by its own fields alone, and counts once.
pub proof fn a_pull_qualifies_by_itself(pull: PullData, branch: Seq<char>, base: Seq<char>)
    ensures
        ({
            let compared = qualifying(seq![pull], branch, base);
            &&& pull.state == "MERGED"@ && !pull.is_cross_repository && pull.head_ref_name == branch
                && pull.base_ref_name == base <==> compared == seq![(pull.number, pull.head_ref_oid)]
            &&& compared.len() <= 1
        }),
{
    model::filter_one(pull, merges(branch, base));
    let compared = qualifying(seq![pull], branch, base);
    if merges(branch, base)(pull) {
        assert(compared =~= seq![(pull.number, pull.head_ref_oid)]);
    } else {
        assert(compared.len() == 0);
    }
}

/// Whether a comparison is with the merged head of a pull request of the branch.
pub open spec fn comes_from(pull: PullData, branch: Seq<char>, base: Seq<char>, compared: (u64, Seq<char>)) -> bool {
    &&& pull.state == "MERGED"@
    &&& !pull.is_cross_repository
    &&& pull.head_ref_name == branch
    &&& pull.base_ref_name == base
    &&& compared == (pull.number, pull.head_ref_oid)
}

pub open spec fn comparison_views(list: Seq<(u64, String)>) -> Seq<(u64, Seq<char>)> {
    list.map_values(|c: (u64, String)| (c.0, c.1@))
}

fn qualified(page: &Vec<PullRequest>, branch: &str, base: &str) -> (r: Vec<(u64, String)>)
    ensures
        comparison_views(r@) == qualifying(pull_views(page@), branch@, base@),
{
    let ghost all = pull_views(page@);
    let ghost keep = merges(branch@, base@);
    let mut out: Vec<(u64, String)> = Vec::new();
    proof {
        model::start_filter(all, keep);
        assert(comparison_views(out@) =~= Seq::<PullData>::empty().map_values(comparison()));
    }
    for i in 0..page.len()
        invariant
            all == pull_views(page@),
            keep == merges(branch@, base@),
            comparison_views(out@) == all.take(i as int).filter(keep).map_values(comparison()),
    {
        let pull = &page[i];
        let ghost before = all.take(i as int).filter(keep);
        proof {
            model::step_filter(all, i as int, keep);
            assert(all[i as int] == pull@);
            assert(before.push(pull@).map_values(comparison()) =~= before.map_values(comparison()).push(
                comparison()(pull@),
            ));
        }
        if text::same(&pull.state, "MERGED") && !pull.is_cross_repository && text::same(&pull.head_ref_name, branch)
            && text::same(&pull.base_ref_name, base) {
            let item = (pull.number, pull.head_ref_oid.clone());
            let ghost listed = comparison_views(out@);
            out.push(item);
            assert(comparison_views(out@) =~= listed.push((item.0, item.1@)));
        }
    }
    proof {
        model::whole(all);
    }
    out
}

/// The search for the pull request that merged a branch: what is left to compare with, the last
/// one whose commits did not match, and whether older pull requests may still be asked for.
pub struct PullSearch {
    pub left: Vec<(u64, String)>,
    pub position: usize,
    pub matched: Option<u64>,
    pub older: bool,
}

pub ghost struct SearchData {
    pub left: Seq<(u64, Seq<char>)>,
    pub position: nat,
    pub matched: Option<u64>,
    pub older: bool,
}

impl View for PullSearch {
    type V = SearchData;

    open spec fn view(&self) -> SearchData {
        SearchData {
            left: comparison_views(self.left@),
            position: self.position as nat,
            matched: self.matched,
            older: self.older,
        }
    }
}

/// What the search needs next, or what it came to.
pub enum SearchStep {
    /// Whether the worktree's commit is part of this head.
    Compare { number: u64, head: String },
    /// The merged pull requests of the branch alone, however old.
    Older,
    /// The branch was not merged through a pull request.
    Unmerged,
    /// A pull request of the branch was merged, but without the worktree's commits.
    Ahead { number: u64 },
}

pub ghost enum StepData {
    Compare { number: u64, head: Seq<char> },
    Older,
    Unmerged,
    Ahead { number: u64 },
}

impl View for SearchStep {
    type V = StepData;

    open spec fn view(&self) -> StepData {
        match self {
            SearchStep::Compare { number, head } => StepData::Compare { number: *number, head: head@ },
            SearchStep::Older => StepData::Older,
            SearchStep::Unmerged => StepData::Unmerged,
            SearchStep::Ahead { number } => StepData::Ahead { number: *number },
        }
    }
}

/// A full page of recent pull requests is no proof that an older branch was not merged.
pub open spec fn search_start(page: Seq<PullData>, branch: Seq<char>, base: Seq<char>) -> SearchData {
    SearchData { left: qualifying(page, branch, base), position: 0, matched: None, older: page.len() == 100 }
}

pub open spec fn search_step(search: SearchData) -> StepData {
    if search.position < search.left.len() {
        StepData::Compare {
            number: search.left[search.position as int].0,
            head: search.left[search.position as int].1,
        }
    } else if search.older {
        StepData::Older
    } else {
        match search.matched {
            Some(number) => StepData::Ahead { number },
            None => StepData::Unmerged,
        }
    }
}

/// The search after a comparison that failed.
pub open spec fn search_past(search: SearchData) -> SearchData {
    SearchData {
        position: search.position + 1,
        matched: Some(search.left[search.position as int].0),
        ..search
    }
}

/// The search with the older pull requests.
pub open spec fn search_older(search: SearchData, page: Seq<PullData>, branch: Seq<char>, base: Seq<char>) -> SearchData {
    SearchData { left: qualifying(page, branch, base), position: 0, older: false, ..search }
}

impl PullSearch {
    pub fn start(page: &Vec<PullRequest>, branch: &str, base: &str) -> (r: PullSearch)
        ensures
            r@ == search_start(pull_views(page@), branch@, base@),
    {
        PullSearch { left: qualified(page, branch, base), position: 0, matched: None, older: page.len() == 100 }
    }

    pub fn next(&self) -> (r: SearchStep)
        ensures
            r@ == search_step(self@),
    {
        if self.position < self.left.len() {
            SearchStep::Compare {
                number: self.left[self.position].0,
                head: self.left[self.position].1.clone(),
            }
        } else if self.older {
            SearchStep::Older
        } else {
            match self.matched {
                Some(number) => SearchStep::Ahead { number },
                None => SearchStep::Unmerged,
            }
        }
    }

    /// Goes on after a head that does not hold the worktree's commit.
    pub fn pass(&mut self)
        requires
            search_step(old(self)@) is Compare,
        ensures
            final(self)@ == search_past(old(self)@),
    {
        let count: usize = self.left.len();
        assert(self.position < count);
        self.matched = Some(self.left[self.position].0);
        self.position += 1;
    }

    /// Goes on with the merged pull requests of the branch alone.
    pub fn widen(&mut self, page: &Vec<PullRequest>, branch: &str, base: &str)
        requires
            search_step(old(self)@) is Older,
        ensures
            final(self)@ == search_older(old(self)@, pull_views(page@), branch@, base@),
    {
        self.left = qualified(page, branch, base);
        self.position = 0;
        self.older = false;
    }
}

/// What the end of a search means for a worktree.
pub open spec fn search_verdict(step: StepData) -> Result<Option<u64>, Seq<char>> {
    match step {
        StepData::Ahead { number } => Err(
            "PR #"@ + text::decimal(number as nat) + " is merged; local commits are not included in its merged head"@,
        ),
        _ => Ok(None),
    }
}

pub fn verdict(step: &SearchStep) -> (r: Result<Option<u64>, String>)
    ensures
        model::outcome(r) == search_verdict(step@),
{
    match step {
        SearchStep::Ahead { number } => Err(
            text::concat3(
                "PR #",
                &text::to_decimal(*number),
                " is merged; local commits are not included in its merged head",
            ),
        ),
        _ => Ok(None),
    }
}

/// A pull request whose head holds the worktree's commit.
pub open spec fn holding(included: spec_fn(Seq<char>) -> bool) -> spec_fn((u64, Seq<char>)) -> Option<u64> {
    |c: (u64, Seq<char>)|
        if included(c.1) {
            Some(c.0)
        } else {
            None
        }
}

/// What a search comes to where `included` answers every comparison, and GitHub lists `older` as
/// the merged pull requests of the branch alone.
pub open spec fn search_result(
    search: SearchData,
    older: Seq<PullData>,
    branch: Seq<char>,
    base: Seq<char>,
    included: spec_fn(Seq<char>) -> bool,
) -> Result<Option<u64>, Seq<char>>
    decreases
            (if search.older {
                1int
            } else {
                0int
            }),
            search.left.len() - search.position,
{
    match search_step(search) {
        StepData::Compare { number, head } => if included(head) {
            Ok(Some(number))
        } else {
            search_result(search_past(search), older, branch, base, included)
        },
        StepData::Older => search_result(search_older(search, older, branch, base), older, branch, base, included),
        step => search_verdict(step),
    }
}

/// What a search comes to that has these pull requests left to compare with, none of which may
/// hold the worktree's commit.
pub open spec fn expected_result(
    left: Seq<(u64, Seq<char>)>,
    matched: Option<u64>,
    included: spec_fn(Seq<char>) -> bool,
) -> Result<Option<u64>, Seq<char>> {
    match model::first_some(left, holding(included)) {
        Some(number) => Ok(Some(number)),
        None => if left.len() > 0 {
            search_verdict(StepData::Ahead { number: left.last().0 })
        } else {
            match matched {
                Some(number) => search_verdict(StepData::Ahead { number }),
                None => Ok(None),
            }
        },
    }
}

proof fn lemma_search(
    search: SearchData,
    older: Seq<PullData>,
    branch: Seq<char>,
    base: Seq<char>,
    included: spec_fn(Seq<char>) -> bool,
)
    requires
        search.position <= search.left.len(),
    ensures
        search_result(search, older, branch, base, included) == expected_result(
            search.left.skip(search.position as int) + if search.older {
                qualifying(older, branch, base)
            } else {
                Seq::empty()
            },
            search.matched,
            included,
        ),
    decreases
            (if search.older {
                1int
            } else {
                0int
            }),
            search.left.len() - search.position,
{
    let more = if search.older {
        qualifying(older, branch, base)
    } else {
        Seq::empty()
    };
    let rest = search.left.skip(search.position as int);
    let all = rest + more;
    if search.position < search.left.len() {
        let first = search.left[search.position as int];
        assert(all[0] == first);
        if !included(first.1) {
            let past = search_past(search);
            lemma_search(past, older, branch, base, included);
            let fewer = past.left.skip(past.position as int) + more;
            assert(all.drop_first() =~= fewer);
            if fewer.len() > 0 {
                assert(fewer.last() == all.last());
            } else {
                assert(all.last() == first);
            }
        }
    } else if search.older {
        let wider = search_older(search, older, branch, base);
        lemma_search(wider, older, branch, base, included);
        assert(wider.left.skip(0) + Seq::<(u64, Seq<char>)>::empty() =~= all);
    } else {
        assert(all =~= Seq::empty());
    }
}

/// A search comes to the first pull request listed that merged the branch and holds the worktree's
/// commit: among the recent ones, then, where those fill a page, among those of the branch alone.
/// Where none holds it, the last one compared with is named in an error, and where none merged the
/// branch, there is none.
pub proof fn searches_find_the_first_included(
    page: Seq<PullData>,
    older: Seq<PullData>,
    branch: Seq<char>,
    base: Seq<char>,
    included: spec_fn(Seq<char>) -> bool,
)
    ensures
        ({
            let all = qualifying(page, branch, base) + if page.len() == 100 {
                qualifying(older, branch, base)
            } else {
                Seq::empty()
            };
            let result = search_result(search_start(page, branch, base), older, branch, base, included);
            &&& result == match model::first_some(all, holding(included)) {
                Some(number) => Ok(Some(number)),
                None => if all.len() > 0 {
                    search_verdict(StepData::Ahead { number: all.last().0 })
                } else {
                    Ok(None)
                },
            }
            &&& result == Ok::<Option<u64>, Seq<char>>(None) <==> all.len() == 0
        }),
{
    let start = search_start(page, branch, base);
    lemma_search(start, older, branch, base, included);
    assert(start.left.skip(0) =~= start.left);
}

// ---------------------------------------------------------------------------
// Asking GitHub and Git
// ---------------------------------------------------------------------------

/// The arguments of `gh` that list merged pull requests into a base, of one branch where it is
/// given.
pub open spec fn list_arguments(repository: Seq<char>, base: Seq<char>, branch: Option<Seq<char>>) -> Seq<Seq<char>> {
    seq![
        "pr"@,
        "list"@,
        "--repo"@,
        repository,
        "--state"@,
        "merged"@,
        "--base"@,
        base,
        "--limit"@,
        "100"@,
        "--json"@,
        "number,state,headRefName,headRefOid,baseRefName,isCrossRepository"@,
    ] + match branch {
        Some(branch) => seq!["--head"@, branch],
        None => Seq::empty(),
    }
}

pub fn query_merged_pull_requests(repository: &str, base: &str, branch: Option<&str>) -> (r: Vec<String>)
    ensures
        model::views(r@) == list_arguments(repository@, base@, model::opt_str(branch)),
{
    let mut arguments: Vec<String> = Vec::new();
    arguments.push("pr".to_owned());
    arguments.push("list".to_owned());
    arguments.push("--repo".to_owned());
    arguments.push(repository.to_owned());
    arguments.push("--state".to_owned());
    arguments.push("merged".to_owned());
    arguments.push("--base".to_owned());
    arguments.push(base.to_owned());
    arguments.push("--limit".to_owned());
    arguments.push("100".to_owned());
    arguments.push("--json".to_owned());
    arguments.push("number,state,headRefName,headRefOid,baseRefName,isCrossRepository".to_owned());
    match branch {
        Some(branch) => {
            arguments.push("--head".to_owned());
            arguments.push(branch.to_owned());
        },
        None => {},
    }
    assert(model::views(arguments@) =~= list_arguments(repository@, base@, model::opt_str(branch)));
    arguments
}

/// How to find out whether a merged head holds the worktree's commit: equal commits need no
/// question, a commit known here is compared here, any other on GitHub.
pub enum Comparison {
    Same,
    Local,
    Remote,
}

pub fn compare_heads(head: &str, merged: &str, known: bool) -> (r: Comparison)
    ensures
        r is Same <==> head@ == merged@,
        r is Local <==> head@ != merged@ && known,
        r is Remote <==> head@ != merged@ && !known,
{
    if text::same(head, merged) {
        Comparison::Same
    } else if known {
        Comparison::Local
    } else {
        Comparison::Remote
    }
}

/// What `git merge-base --is-ancestor` says of the worktree's commit and a merged head.
pub open spec fn included_here(output: Output) -> Result<bool, Seq<char>> {
    match output.code {
        Some(code) => if code == 0 {
            Ok(true)
        } else if code == 1 {
            Ok(false)
        } else {
            Err("cannot compare local commits with merged PR"@)
        },
        None => Err("cannot compare local commits with merged PR"@),
    }
}

pub fn included_locally(output: &Output) -> (r: Result<bool, String>)
    ensures
        model::outcome(r) == included_here(*output),
{
    match output.code {
        Some(code) => {
            if code == 0 {
                return Ok(true);
            }
            if code == 1 {
                return Ok(false);
            }
        },
        None => {},
    }
    Err("cannot compare local commits with merged PR".to_owned())
}

/// What GitHub's comparison says of the worktree's commit and a merged head.
pub open spec fn included_there(output: Output) -> Result<bool, Seq<char>> {
    if !output.success() {
        Err(
            "PR is merged, but cannot verify whether it includes local commits: command failed: "@
                + output.complaint(),
        )
    } else {
        let answer = text::trimmed(text::lossy_text(output.stdout@));
        if answer == "ahead"@ || answer == "identical"@ {
            Ok(true)
        } else if answer == "behind"@ || answer == "diverged"@ {
            Ok(false)
        } else {
            Err("PR is merged, but GitHub returned an unknown commit comparison"@)
        }
    }
}

pub fn included_remotely(output: &Output) -> (r: Result<bool, String>)
    ensures
        model::outcome(r) == included_there(*output),
{
    if !output.succeeded() {
        return Err(
            text::concat(
                "PR is merged, but cannot verify whether it includes local commits: command failed: ",
                &output.complaint_text(),
            ),
        );
    }
    let answer = text::trim(&text::from_utf8_lossy(&output.stdout));
    if text::same(&answer, "ahead") || text::same(&answer, "identical") {
        Ok(true)
    } else if text::same(&answer, "behind") || text::same(&answer, "diverged") {
        Ok(false)
    } else {
        Err("PR is merged, but GitHub returned an unknown commit comparison".to_owned())
    }
}

/// A merged head holds the worktree's commit exactly where Git calls the commit its ancestor, or
/// where GitHub calls the head ahead of it or identical to it; any other answer is no proof either
/// way.
pub proof fn heads_hold_what_git_says(output: Output, answer: Seq<char>)
    requires
        answer == text::trimmed(text::lossy_text(output.stdout@)),
    ensures
        included_here(output) == Ok::<bool, Seq<char>>(true) <==> output.code == Some(0i32),
        included_here(output) == Ok::<bool, Seq<char>>(false) <==> output.code == Some(1i32),
        included_there(output) == Ok::<bool, Seq<char>>(true) <==> output.code == Some(0i32) && (answer == "ahead"@
            || answer == "identical"@),
        included_there(output) == Ok::<bool, Seq<char>>(false) <==> output.code == Some(0i32) && (answer == "behind"@
            || answer == "diverged"@),
{
    reveal_strlit("ahead");
    reveal_strlit("identical");
    reveal_strlit("behind");
    reveal_strlit("diverged");
    assert("ahead"@.len() == 5 && "identical"@.len() == 9 && "behind"@.len() == 6 && "diverged"@.len() == 8);
}

} // verus!
