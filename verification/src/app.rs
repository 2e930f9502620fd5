//! Adding and listing worktrees: references, names, plans and what is printed.

use vstd::prelude::*;

use crate::clean;
use crate::config;
use crate::config::Config;
use crate::model;
use crate::paths;
use crate::process;
use crate::process::Output;
use crate::project_laws;
use crate::state;
use crate::state::{Record, RecordData, Store};
use crate::text;
use crate::ui;
use crate::ui::{Row, Screen};

verus! {

broadcast use crate::model::lemma_views_push;

// ---------------------------------------------------------------------------
// Repositories and references
// ---------------------------------------------------------------------------

/// What follows the place of GitHub in the address of a remote.
pub open spec fn github_path(remote: Seq<char>) -> Option<Seq<char>> {
    match text::after_prefix(remote, "https://github.com/"@) {
        Some(path) => Some(path),
        None => match text::after_prefix(remote, "git@github.com:"@) {
            Some(path) => Some(path),
            None => text::after_prefix(remote, "ssh://git@github.com/"@),
        },
    }
}

/// The owner and the name of a repository in lower case, from the address of its remote.
pub open spec fn slug_of(remote: Seq<char>) -> Result<Seq<char>, Seq<char>> {
    match github_path(remote) {
        None => Err("origin must point to a GitHub.com repository"@),
        Some(path) => {
            let path = text::trimmed_end_of(path, "/"@);
            let slug = match text::before_suffix(path, ".git"@) {
                Some(slug) => slug,
                None => path,
            };
            let parts = text::split(slug, '/');
            if parts.len() == 2 && parts[0].len() > 0 && parts[1].len() > 0 {
                Ok(text::lower_text(parts[0] + "/"@ + parts[1]))
            } else {
                Err("origin must contain a GitHub owner and repository"@)
            }
        },
    }
}

pub fn github_slug(remote: &str) -> (r: Result<String, String>)
    ensures
        model::outcome(r) == slug_of(remote@),
{
    let path = match text::strip_prefix(remote, "https://github.com/") {
        Some(path) => path,
        None => match text::strip_prefix(remote, "git@github.com:") {
            Some(path) => path,
            None => match text::strip_prefix(remote, "ssh://git@github.com/") {
                Some(path) => path,
                None => {
                    return Err("origin must point to a GitHub.com repository".to_owned());
                },
            },
        },
    };
    let path = text::trim_end_matches(&path, "/");
    let slug = match text::strip_suffix(&path, ".git") {
        Some(slug) => slug,
        None => path,
    };
    let parts = text::split_text(&slug, '/');
    let ghost all = text::split(slug@, '/');
    if parts.len() == 2 {
        assert(all[0] == parts@[0]@ && all[1] == parts@[1]@);
        if !parts[0].as_str().is_empty() && !parts[1].as_str().is_empty() {
            return Ok(text::to_ascii_lowercase(&text::concat3(&parts[0], "/", &parts[1])));
        }
    }
    Err("origin must contain a GitHub owner and repository".to_owned())
}

/// The repository of a checkout, from what Git says of its remote.
pub fn repository_slug(output: &Output) -> (r: Result<String, String>)
    ensures
        model::outcome(r) == if !output.success() {
            Err("read origin remote: command failed: "@ + output.complaint())
        } else {
            match process::decoded(output.stdout@) {
                Ok(remote) => slug_of(text::trimmed(remote)),
                Err(message) => Err(message),
            }
        },
{
    if !output.succeeded() {
        return Err(text::concat("read origin remote: command failed: ", &output.complaint_text()));
    }
    match process::decode(&output.stdout) {
        Ok(remote) => github_slug(&text::trim(&remote)),
        Err(message) => Err(message),
    }
}

/// What a reference should have been.
pub open spec fn expected(slug: Seq<char>) -> Seq<char> {
    "expected a number or a https://github.com/"@ + slug + "/issues/<number> or /pull/<number> URL"@
}

/// What follows a repository and `part` in a path of GitHub, where the path has that form.
pub open spec fn number_in(path: Seq<char>, slug: Seq<char>, part: Seq<char>) -> Option<Seq<char>> {
    match text::cut_last(path, part) {
        Some((repository, number)) => if text::same_ignoring_case(repository, slug) {
            Some(number)
        } else {
            None
        },
        None => None,
    }
}

/// The number of an issue or a pull request: a number, or the address of one of the repository.
pub open spec fn number_of(reference: Seq<char>, slug: Seq<char>) -> Result<u64, Seq<char>> {
    match text::number_upto(reference, u64::MAX as nat) {
        Some(number) => Ok(number as u64),
        None => match text::after_prefix(reference, "https://github.com/"@) {
            None => Err(expected(slug)),
            Some(path) => {
                let number = match number_in(path, slug, "/issues/"@) {
                    Some(number) => Some(number),
                    None => number_in(path, slug, "/pull/"@),
                };
                match number {
                    None => Err(expected(slug)),
                    Some(number) => match text::number_upto(number, u64::MAX as nat) {
                        Some(number) => Ok(number as u64),
                        None => Err("parse issue number from URL"@),
                    },
                }
            },
        },
    }
}

fn expected_text(slug: &str) -> (r: String)
    ensures
        r@ == expected(slug@),
{
    text::concat3("expected a number or a https://github.com/", slug, "/issues/<number> or /pull/<number> URL")
}

fn number_behind(path: &str, slug: &str, part: &str) -> (r: Option<String>)
    requires
        part@.len() > 0,
    ensures
        model::opt(r) == number_in(path@, slug@, part@),
{
    match text::rsplit_once(path, part) {
        Some((repository, number)) => {
            if text::eq_ignore_ascii_case(&repository, slug) {
                Some(number)
            } else {
                None
            }
        },
        None => None,
    }
}

pub fn issue_number(reference: &str, slug: &str) -> (r: Result<u64, String>)
    ensures
        model::outcome(r) == number_of(reference@, slug@),
{
    match text::parse_u64(reference) {
        Some(number) => {
            return Ok(number);
        },
        None => {},
    }
    let path = match text::strip_prefix(reference, "https://github.com/") {
        Some(path) => path,
        None => {
            return Err(expected_text(slug));
        },
    };
    proof {
        reveal_strlit("/issues/");
        reveal_strlit("/pull/");
    }
    let number = match number_behind(&path, slug, "/issues/") {
        Some(number) => Some(number),
        None => number_behind(&path, slug, "/pull/"),
    };
    match number {
        None => Err(expected_text(slug)),
        Some(number) => match text::parse_u64(&number) {
            Some(number) => Ok(number),
            None => Err("parse issue number from URL".to_owned()),
        },
    }
}

proof fn lemma_address_cut(spelled: Seq<char>, part: Seq<char>, digits: Seq<char>)
    requires
        part == "/issues/"@ || part == "/pull/"@,
        text::all_digits(digits),
        digits.len() > 0,
    ensures
        text::cut_last(spelled + part + digits, part) == Some((spelled, digits)),
{
    reveal_strlit("/issues/");
    reveal_strlit("/pull/");
    let path = spelled + part + digits;
    let n = spelled.len() as int;
    assert(part[part.len() - 1] == '/');
    assert forall|k: int| n < k implies !text::occurs_at(path, part, k) by {
        if text::occurs_at(path, part, k) {
            let end = k + part.len() - 1;
            assert(path.subrange(k, k + part.len())[part.len() - 1] == path[end]);
            assert(path[end] == digits[end - n - part.len()]);
            assert(text::is_ascii_digit(path[end]));
        }
    }
    text::texts_are_cut_at_the_last_separator(spelled, part, digits);
}

/// A number means itself, and the address of an issue or a pull request means its number, for every
/// repository, however the letters of its name are spelled there.
pub proof fn addresses_mean_their_numbers(slug: Seq<char>, spelled: Seq<char>, number: u64)
    requires
        text::same_ignoring_case(spelled, slug),
    ensures
        number_of(text::decimal(number as nat), slug) == Ok::<u64, Seq<char>>(number),
        number_of("https://github.com/"@ + spelled + "/issues/"@ + text::decimal(number as nat), slug) == Ok::<
            u64,
            Seq<char>,
        >(number),
        number_of("https://github.com/"@ + spelled + "/pull/"@ + text::decimal(number as nat), slug) == Ok::<
            u64,
            Seq<char>,
        >(number),
{
    let digits = text::decimal(number as nat);
    text::lemma_decimal(number as nat);
    assert(text::is_ascii_digit(digits[0]));
    assert(text::unsigned(digits) == digits);
    reveal_strlit("https://github.com/");
    reveal_strlit("/issues/");
    reveal_strlit("/pull/");
    let host = "https://github.com/"@;
    let issues = spelled + "/issues/"@ + digits;
    let pull = spelled + "/pull/"@ + digits;
    lemma_address_cut(spelled, "/issues/"@, digits);
    lemma_address_cut(spelled, "/pull/"@, digits);
    assert(host + spelled + "/issues/"@ + digits =~= host + issues);
    assert(host + spelled + "/pull/"@ + digits =~= host + pull);
    lemma_address(host, issues);
    lemma_address(host, pull);
    assert(number_in(pull, slug, "/issues/"@) is None) by {
        text::lemma_last_at(pull, "/issues/"@);
        match text::last_at(pull, "/issues/"@) {
            Some(at) => {
                let repository = pull.take(at);
                if text::same_ignoring_case(repository, slug) {
                    assert(text::lower_text(repository).len() == repository.len());
                    assert(text::lower_text(spelled).len() == spelled.len());
                    assert(pull.subrange(at, at + 8)[1] == 'i');
                    assert(pull[at + 1] == 'p');
                }
            },
            None => {},
        }
    }
}

/// What starts with the address of GitHub is no number.
proof fn lemma_address(host: Seq<char>, path: Seq<char>)
    requires
        host == "https://github.com/"@,
    ensures
        text::number_upto(host + path, u64::MAX as nat) is None,
        text::after_prefix(host + path, host) == Some(path),
{
    reveal_strlit("https://github.com/");
    let whole = host + path;
    assert(whole[0] == 'h');
    assert(text::unsigned(whole) == whole);
    assert(!text::is_ascii_digit(whole[0]));
    assert(whole.subrange(0, host.len() as int) =~= host);
    assert(whole.skip(host.len() as int) =~= path);
}

/// What a worktree is added for.
pub enum AddTarget {
    Issue(u64),
    Branch(String),
}

pub ghost enum Target {
    Issue(u64),
    Branch(Seq<char>),
}

impl View for AddTarget {
    type V = Target;

    open spec fn view(&self) -> Target {
        match self {
            AddTarget::Issue(number) => Target::Issue(*number),
            AddTarget::Branch(branch) => Target::Branch(branch@),
        }
    }
}

/// Whether a reference means an issue or a pull request, and not a branch.
pub open spec fn means_issue(reference: Seq<char>) -> bool {
    text::number_upto(reference, u64::MAX as nat) is Some || "https://github.com/"@.is_prefix_of(reference)
}

pub fn is_issue_reference(reference: &str) -> (r: bool)
    ensures
        r == means_issue(reference@),
{
    text::parse_u64(reference).is_some() || text::starts_with(reference, "https://github.com/")
}

/// Numbers and addresses of GitHub select issues; every other name that Git accepts for a branch
/// selects that branch.
pub open spec fn target_of(reference: Seq<char>, repository: Seq<char>, check: Output) -> Result<Target, Seq<char>> {
    if means_issue(reference) {
        match number_of(reference, repository) {
            Ok(number) => Ok(Target::Issue(number)),
            Err(message) => Err(message),
        }
    } else if !check.success() {
        Err("invalid branch name: "@ + reference)
    } else {
        match process::decoded(check.stdout@) {
            Err(message) => Err(message),
            Ok(name) => if text::trimmed(name) == reference {
                Ok(Target::Branch(reference))
            } else {
                Err("invalid branch name: "@ + reference)
            },
        }
    }
}

/// What a reference selects; `check` is what `git check-ref-format --branch` said of it, and does
/// not matter for issues.
pub fn add_target(reference: &str, repository: &str, check: &Output) -> (r: Result<AddTarget, String>)
    ensures
        model::outcome(r) == target_of(reference@, repository@, *check),
{
    if is_issue_reference(reference) {
        return match issue_number(reference, repository) {
            Ok(number) => Ok(AddTarget::Issue(number)),
            Err(message) => Err(message),
        };
    }
    if check.succeeded() {
        match process::decode(&check.stdout) {
            Err(message) => {
                return Err(message);
            },
            Ok(name) => {
                if text::same(&text::trim(&name), reference) {
                    return Ok(AddTarget::Branch(reference.to_owned()));
                }
            },
        }
    }
    Err(text::concat("invalid branch name: ", reference))
}

/// What a target is called.
pub open spec fn key_of(target: Target) -> Seq<char> {
    match target {
        Target::Issue(number) => text::decimal(number as nat),
        Target::Branch(branch) => branch,
    }
}

pub fn target_key(target: &AddTarget) -> (r: String)
    ensures
        r@ == key_of(target@),
{
    match target {
        AddTarget::Issue(number) => text::to_decimal(*number),
        AddTarget::Branch(branch) => branch.clone(),
    }
}

/// The record of a target.
pub fn find_record(store: &Store, repository: &str, target: &AddTarget) -> (r: Result<Option<Record>, String>)
    ensures
        state::outcome_record(r) == match target@ {
            Target::Issue(number) => state::record_under(store.files(), state::issue_name(repository@, number)),
            Target::Branch(branch) => state::branch_record(store.files(), repository@, branch),
        },
{
    match target {
        AddTarget::Issue(number) => store.find_issue(repository, *number),
        AddTarget::Branch(branch) => store.find_branch(repository, branch),
    }
}

/// The last part of a repository's name.
pub open spec fn short_name(repository: Seq<char>) -> Seq<char> {
    text::split(repository, '/').last()
}

pub fn repository_name(repository: &str) -> (r: String)
    ensures
        r@ == short_name(repository@),
{
    proof {
        text::lemma_split_nonempty(repository@, '/');
    }
    let parts = text::split_text(repository, '/');
    let last: usize = parts.len() - 1;
    assert(text::split(repository@, '/').last() == parts@[last as int]@);
    parts[last].clone()
}

// ---------------------------------------------------------------------------
// Names
// ---------------------------------------------------------------------------

/// The lower-case form of a character outside ASCII.
pub uninterp spec fn unicode_lower(c: char) -> Seq<char>;

/// The lower-case form of a character: one character in ASCII, perhaps several beyond it.
pub open spec fn lowered(c: char) -> Seq<char> {
    if (c as u32) < 128 {
        seq![text::ascii_lower(c)]
    } else {
        unicode_lower(c)
    }
}

/// Whether a text holds no upper-case letter of ASCII.
pub open spec fn is_lower(s: Seq<char>) -> bool {
    forall|i: int| 0 <= i < s.len() ==> !('A' <= #[trigger] s[i] && s[i] <= 'Z')
}

/// Calls `char::to_lowercase`. In ASCII it turns upper-case letters into lower-case ones and keeps
/// everything else; its result for other characters is named, not listed, but holds no upper-case
/// letter of ASCII: it is a lower-case form, or the character itself.
#[verifier::external_body]
fn to_lowercase(c: char) -> (r: Vec<char>)
    ensures
        (c as u32) < 128 ==> r@ == seq![text::ascii_lower(c)],
        (c as u32) >= 128 ==> r@ == unicode_lower(c),
        is_lower(r@),
{
    c.to_lowercase().collect()
}

/// A text in lower case.
pub open spec fn lowered_text(s: Seq<char>) -> Seq<char>
    decreases s.len(),
{
    if s.len() == 0 {
        Seq::empty()
    } else {
        lowered_text(s.drop_last()) + lowered(s.last())
    }
}

fn lowercase(s: &str) -> (r: Vec<char>)
    ensures
        r@ == lowered_text(s@),
        is_lower(r@),
{
    let source = text::chars(s);
    let mut out: Vec<char> = Vec::new();
    assert(s@.take(0) =~= Seq::<char>::empty());
    for i in 0..source.len()
        invariant
            source@ == s@,
            out@ == lowered_text(s@.take(i as int)),
            is_lower(out@),
    {
        proof {
            model::step(s@, i as int);
        }
        let ghost before = out@;
        let mut more = to_lowercase(source[i]);
        let ghost added = more@;
        out.append(&mut more);
        assert forall|k: int| 0 <= k < out@.len() implies !('A' <= #[trigger] out@[k] && out@[k] <= 'Z') by {
            if k < before.len() {
                assert(out@[k] == before[k]);
            } else {
                assert(out@[k] == added[k - before.len()]);
            }
        }
    }
    proof {
        model::whole(s@);
    }
    out
}

/// A slug with one more character: German letters become two, letters and digits stay, and
/// anything else becomes one hyphen between other characters.
pub open spec fn slug_with(slug: Seq<char>, c: char) -> Seq<char> {
    if c == 'ä' {
        slug + "ae"@
    } else if c == 'ö' {
        slug + "oe"@
    } else if c == 'ü' {
        slug + "ue"@
    } else if c == 'ß' {
        slug + "ss"@
    } else if text::is_ascii_alphanumeric(c) {
        slug.push(c)
    } else if slug.len() > 0 && slug.last() != '-' {
        slug.push('-')
    } else {
        slug
    }
}

/// A slug with more characters, until it is long enough.
pub open spec fn slug_from(slug: Seq<char>, rest: Seq<char>) -> Seq<char>
    decreases rest.len(),
{
    if rest.len() == 0 {
        slug
    } else {
        let more = slug_with(slug, rest[0]);
        if more.len() >= 48 {
            more
        } else {
            slug_from(more, rest.drop_first())
        }
    }
}

/// The slug of a title.
pub open spec fn slug_text(title: Seq<char>) -> Seq<char> {
    let slug = text::trimmed_end_of(slug_from(Seq::empty(), lowered_text(title)), "-"@);
    if slug.len() == 0 {
        "issue"@
    } else {
        slug
    }
}

pub fn slugify(title: &str) -> (r: String)
    ensures
        r@ == slug_text(title@),
        is_slug(r@),
        r@.len() <= 49,
{
    let source = lowercase(title);
    let ghost all = lowered_text(title@);
    let mut slug = String::new();
    let mut size: usize = 0;
    let mut i: usize = 0;
    assert(all.skip(0) =~= all);
    while i < source.len()
        invariant_except_break
            source@ == all,
            i <= all.len(),
            size < 48,
            size == slug@.len(),
            slug_from(slug@, all.skip(i as int)) == slug_from(Seq::empty(), all),
        invariant
            is_lower(all),
            is_lower(slug@),
        ensures
            slug@ == slug_from(Seq::empty(), all),
        decreases all.len() - i,
    {
        let c = source[i];
        let ghost before = slug@;
        let ghost rest = all.skip(i as int);
        proof {
            reveal_strlit("ae");
            reveal_strlit("oe");
            reveal_strlit("ue");
            reveal_strlit("ss");
            assert(rest.drop_first() =~= all.skip(i + 1));
        }
        if c == 'ä' {
            slug.append("ae");
            size += 2;
        } else if c == 'ö' {
            slug.append("oe");
            size += 2;
        } else if c == 'ü' {
            slug.append("ue");
            size += 2;
        } else if c == 'ß' {
            slug.append("ss");
            size += 2;
        } else if text::ascii_alphanumeric(c) {
            slug.push(c);
            size += 1;
        } else if size > 0 && !text::ends_with(&slug, "-") {
            proof {
                lemma_ends_with_hyphen(before);
            }
            slug.push('-');
            size += 1;
        } else {
            proof {
                lemma_ends_with_hyphen(before);
            }
        }
        assert(slug@ =~= slug_with(before, c));
        assert(rest[0] == c && all[i as int] == c);
        assert forall|k: int| 0 <= k < slug@.len() implies !('A' <= #[trigger] slug@[k] && slug@[k] <= 'Z') by {
            if k < before.len() {
                assert(slug@[k] == before[k]);
            }
        }
        if size >= 48 {
            break;
        }
        i += 1;
    }
    let ghost full = slug@;
    let slug = text::trim_end_matches(&slug, "-");
    proof {
        reveal_strlit("issue");
        slugs_are_plain(title@);
        lemma_trimmed_end(full, "-"@);
        let result = slug_text(title@);
        assert forall|k: int| 0 <= k < result.len() implies is_slug_char(#[trigger] result[k]) by {
            assert(text::is_ascii_alphanumeric(result[k]) || result[k] == '-');
            if slug@.len() > 0 {
                assert(result[k] == full[k]);
            }
        }
    }
    if slug.as_str().is_empty() {
        "issue".to_owned()
    } else {
        slug
    }
}

proof fn lemma_ends_with_hyphen(s: Seq<char>)
    ensures
        "-"@.is_suffix_of(s) <==> s.len() > 0 && s.last() == '-',
{
    reveal_strlit("-");
    if s.len() > 0 {
        assert(s.subrange(s.len() - 1, s.len() as int)[0] == s.last());
        if s.last() == '-' {
            assert("-"@ =~= s.subrange(s.len() - 1, s.len() as int));
        }
    }
}

/// Whether a text is made of ASCII letters, digits and hyphens.
pub open spec fn is_plain_name(s: Seq<char>) -> bool {
    forall|i: int| 0 <= i < s.len() ==> text::is_ascii_alphanumeric(#[trigger] s[i]) || s[i] == '-'
}

/// Whether a character may stand in a slug: a lower-case letter, a digit or a hyphen.
pub open spec fn is_slug_char(c: char) -> bool {
    ('a' <= c && c <= 'z') || text::is_ascii_digit(c) || c == '-'
}

/// Whether two hyphens stand at a position.
pub open spec fn two_hyphens(s: Seq<char>, at: int) -> bool {
    0 <= at < s.len() - 1 && s[at] == '-' && s[at + 1] == '-'
}

/// Whether no two hyphens of a text stand side by side.
pub open spec fn single_hyphens(s: Seq<char>) -> bool {
    forall|i: int| !#[trigger] two_hyphens(s, i)
}

/// Lower-case letters and digits, with single hyphens between them.
pub open spec fn is_slug(s: Seq<char>) -> bool {
    &&& s.len() > 0
    &&& s[0] != '-'
    &&& s.last() != '-'
    &&& single_hyphens(s)
    &&& forall|i: int| 0 <= i < s.len() ==> is_slug_char(#[trigger] s[i])
}

proof fn lemma_slug_with(slug: Seq<char>, c: char)
    requires
        is_plain_name(slug),
    ensures
        is_plain_name(slug_with(slug, c)),
        single_hyphens(slug) ==> single_hyphens(slug_with(slug, c)),
        slug_with(slug, c).len() <= slug.len() + 2,
        slug.len() > 0 && slug[0] != '-' ==> slug_with(slug, c)[0] != '-',
        slug.len() == 0 && slug_with(slug, c).len() > 0 ==> slug_with(slug, c)[0] != '-',
{
    reveal_strlit("ae");
    reveal_strlit("oe");
    reveal_strlit("ue");
    reveal_strlit("ss");
    let more = slug_with(slug, c);
    assert forall|i: int| 0 <= i < more.len() implies text::is_ascii_alphanumeric(#[trigger] more[i]) || more[i]
        == '-' by {
        if i < slug.len() {
            assert(more[i] == slug[i]);
        }
    }
    if single_hyphens(slug) {
        assert forall|i: int| !#[trigger] two_hyphens(more, i) by {
            assert(!two_hyphens(slug, i));
        }
    }
}

proof fn lemma_slug_from(slug: Seq<char>, rest: Seq<char>)
    requires
        is_plain_name(slug),
        single_hyphens(slug),
        slug.len() < 48,
        slug.len() > 0 ==> slug[0] != '-',
    ensures
        is_plain_name(slug_from(slug, rest)),
        single_hyphens(slug_from(slug, rest)),
        slug_from(slug, rest).len() < 50,
        slug_from(slug, rest).len() > 0 ==> slug_from(slug, rest)[0] != '-',
    decreases rest.len(),
{
    if rest.len() > 0 {
        lemma_slug_with(slug, rest[0]);
        if slug_with(slug, rest[0]).len() < 48 {
            lemma_slug_from(slug_with(slug, rest[0]), rest.drop_first());
        }
    }
}

pub proof fn lemma_trimmed_end(s: Seq<char>, set: Seq<char>)
    ensures
        text::trimmed_end_of(s, set).is_prefix_of(s),
        text::trimmed_end_of(s, set).len() > 0 ==> !set.contains(text::trimmed_end_of(s, set).last()),
    decreases s.len(),
{
    let drop = |c: char| set.contains(c);
    if s.len() > 0 && drop(s.last()) {
        lemma_trimmed_end(s.drop_last(), set);
        let r = text::trimmed_end_of(s.drop_last(), set);
        assert(r =~= s.subrange(0, r.len() as int));
    } else {
        assert(s =~= s.subrange(0, s.len() as int));
    }
}

/// A slug is made of ASCII letters, digits and single hyphens, starts and ends with no hyphen, and
/// is neither empty nor longer than a branch name needs.
pub proof fn slugs_are_plain(title: Seq<char>)
    ensures
        is_plain_name(slug_text(title)),
        single_hyphens(slug_text(title)),
        0 < slug_text(title).len() < 50,
        slug_text(title)[0] != '-',
        slug_text(title).last() != '-',
{
    reveal_strlit("issue");
    reveal_strlit("-");
    let slug = slug_from(Seq::empty(), lowered_text(title));
    assert forall|i: int| !#[trigger] two_hyphens(Seq::empty(), i) by {}
    lemma_slug_from(Seq::empty(), lowered_text(title));
    lemma_trimmed_end(slug, "-"@);
    let cut = text::trimmed_end_of(slug, "-"@);
    if cut.len() > 0 {
        assert(cut[0] == slug[0]);
        assert("-"@[0] == '-');
        assert("-"@.contains('-'));
        assert forall|i: int| 0 <= i < cut.len() implies text::is_ascii_alphanumeric(#[trigger] cut[i]) || cut[i]
            == '-' by {
            assert(cut[i] == slug[i]);
        }
        assert forall|i: int| !#[trigger] two_hyphens(cut, i) by {
            assert(!two_hyphens(slug, i));
        }
    } else {
        assert forall|i: int| !#[trigger] two_hyphens("issue"@, i) by {}
    }
}

/// A text in lower case, character by character where all of it is ASCII.
proof fn lemma_lowered_slug(s: Seq<char>)
    requires
        forall|i: int| 0 <= i < s.len() ==> is_slug_char(#[trigger] s[i]),
    ensures
        lowered_text(s) == s,
    decreases s.len(),
{
    if s.len() > 0 {
        let init = s.drop_last();
        assert forall|i: int| 0 <= i < init.len() implies is_slug_char(#[trigger] init[i]) by {
            assert(init[i] == s[i]);
        }
        lemma_lowered_slug(init);
        assert(is_slug_char(s[s.len() - 1]));
        assert(text::ascii_lower(s.last()) == s.last());
        assert(init + seq![s.last()] =~= s);
    } else {
        assert(s =~= Seq::empty());
    }
}

proof fn lemma_slug_stays(s: Seq<char>, n: int)
    requires
        is_slug(s),
        s.len() <= 48,
        0 <= n <= s.len(),
        n < 48,
    ensures
        slug_from(s.take(n), s.skip(n)) == s,
    decreases s.len() - n,
{
    let rest = s.skip(n);
    let slug = s.take(n);
    if n == s.len() {
        assert(slug =~= s);
    } else {
        let c = s[n];
        assert(rest[0] == c);
        assert(is_slug_char(s[n]));
        let more = slug_with(slug, c);
        assert(more =~= s.take(n + 1)) by {
            if c == '-' {
                assert(!two_hyphens(s, n - 1));
                assert(slug.last() == s[n - 1]);
            }
        }
        assert(rest.drop_first() =~= s.skip(n + 1));
        if n + 1 < 48 {
            lemma_slug_stays(s, n + 1);
        } else {
            assert(s.take(n + 1) =~= s);
        }
    }
}

/// A slug that is no longer than slugs are cut to is its own slug.
pub proof fn a_slug_is_its_own_slug(s: Seq<char>)
    requires
        is_slug(s),
        s.len() <= 48,
    ensures
        slug_text(s) == s,
{
    lemma_lowered_slug(s);
    lemma_slug_stays(s, 0);
    assert(s.take(0) =~= Seq::empty());
    assert(s.skip(0) =~= s);
    reveal_strlit("-");
    let drop = |c: char| "-"@.contains(c);
    assert(!drop(s.last())) by {
        if "-"@.contains(s.last()) {
            let k = choose|k: int| 0 <= k < "-"@.len() && "-"@[k] == s.last();
            assert("-"@[k] == '-');
        }
    }
}

/// The kind of branch that a label asks for.
pub open spec fn kind_of_label(label: Seq<char>) -> Option<Seq<char>> {
    if label == "bug"@ || label == "type: bug"@ || label == "type/bug"@ {
        Some("fix"@)
    } else if label == "feature"@ || label == "enhancement"@ || label == "type: feature"@ {
        Some("feat"@)
    } else if label == "documentation"@ || label == "docs"@ {
        Some("docs"@)
    } else {
        None
    }
}

pub fn branch_kind(label: &str) -> (r: Option<String>)
    ensures
        model::opt(r) == kind_of_label(label@),
{
    if text::same(label, "bug") || text::same(label, "type: bug") || text::same(label, "type/bug") {
        Some("fix".to_owned())
    } else if text::same(label, "feature") || text::same(label, "enhancement") || text::same(label, "type: feature") {
        Some("feat".to_owned())
    } else if text::same(label, "documentation") || text::same(label, "docs") {
        Some("docs".to_owned())
    } else {
        None
    }
}

/// An issue as GitHub describes it.
pub struct Issue {
    pub number: u64,
    pub title: String,
    pub labels: Vec<String>,
    pub url: String,
}

/// The kind of branch that a label asks for, whatever its case.
pub open spec fn kind_of() -> spec_fn(Seq<char>) -> Option<Seq<char>> {
    |label: Seq<char>| kind_of_label(text::lower_text(label))
}

/// The branch for an issue: its kind by the first label that asks for one, its number, its title.
pub open spec fn issue_branch(number: u64, title: Seq<char>, labels: Seq<Seq<char>>) -> Seq<char> {
    (match model::first_some(labels, kind_of()) {
        Some(kind) => kind,
        None => "work"@,
    }) + "/"@ + text::decimal(number as nat) + "-"@ + slug_text(title)
}

pub fn branch_name(issue: &Issue) -> (r: String)
    ensures
        r@ == issue_branch(issue.number, issue.title@, model::views(issue.labels@)),
{
    let mut name = kind_for(&issue.labels);
    name.append("/");
    name.append(&text::to_decimal(issue.number));
    name.append("-");
    name.append(&slugify(&issue.title));
    name
}

fn kind_for(labels: &Vec<String>) -> (r: String)
    ensures
        r@ == match model::first_some(model::views(labels@), kind_of()) {
            Some(kind) => kind,
            None => "work"@,
        },
{
    let ghost all = model::views(labels@);
    for i in 0..labels.len()
        invariant
            all == model::views(labels@),
            forall|k: int| 0 <= k < i ==> kind_of()(#[trigger] all[k]) is None,
    {
        assert(all[i as int] == labels@[i as int]@);
        match branch_kind(&text::to_ascii_lowercase(&labels[i])) {
            Some(kind) => {
                proof {
                    model::found_some(all, kind_of(), i as int);
                }
                return kind;
            },
            None => {},
        }
    }
    proof {
        model::found_none(all, kind_of());
    }
    "work".to_owned()
}

/// A project name with one more character: letters and digits in lower case, one hyphen for
/// anything else.
pub open spec fn project_with(name: Seq<char>, c: char) -> Seq<char> {
    if text::is_ascii_alphanumeric(c) {
        name.push(text::ascii_lower(c))
    } else if name.len() > 0 && name.last() == '-' {
        name
    } else {
        name.push('-')
    }
}

/// A project name with more characters, until it is as long as it may be.
pub open spec fn project_from(name: Seq<char>, rest: Seq<char>) -> Seq<char>
    decreases rest.len(),
{
    if rest.len() == 0 {
        name
    } else {
        let more = project_with(name, rest[0]);
        if more.len() == 63 {
            more
        } else {
            project_from(more, rest.drop_first())
        }
    }
}

/// Whether a project name holds a reference as it is: the number of an issue, or a branch whose
/// name is a slug and leaves room for that of the repository.
pub open spec fn keeps_reference(repository: Seq<char>, reference: Seq<char>) -> bool {
    text::number_upto(reference, u64::MAX as nat) is Some || (is_slug(reference) && reference.len() + repository.len()
        <= 59)
}

/// The Compose project of a worktree. Where the name does not hold the reference as it is, the hash
/// by which the branch is recorded stands before it.
pub open spec fn project_name(repository: Seq<char>, reference: Seq<char>) -> Seq<char> {
    text::trimmed_end_of(
        if keeps_reference(repository, reference) {
            project_from(Seq::empty(), "wt-"@ + reference + "-"@ + repository)
        } else {
            project_from(
                "wt"@ + text::hexadecimal(state::hash_of(vstd::utf8::encode_utf8(reference)) as nat, 16),
                "-"@ + reference + "-"@ + repository,
            )
        },
        "-"@,
    )
}

fn is_slug_text(s: &str) -> (r: bool)
    ensures
        r == is_slug(s@),
{
    let source = text::chars(s);
    if source.len() == 0 || source[0] == '-' || source[source.len() - 1] == '-' {
        return false;
    }
    for i in 0..source.len()
        invariant
            source@ == s@,
            forall|k: int| 0 <= k < i ==> is_slug_char(#[trigger] s@[k]),
            forall|k: int| k < i - 1 ==> !#[trigger] two_hyphens(s@, k),
    {
        let c = source[i];
        if !(('a' <= c && c <= 'z') || ('0' <= c && c <= '9') || c == '-') {
            assert(!is_slug_char(s@[i as int]));
            return false;
        }
        if i > 0 && c == '-' && source[i - 1] == '-' {
            assert(two_hyphens(s@, i - 1));
            return false;
        }
    }
    assert forall|k: int| !#[trigger] two_hyphens(s@, k) by {}
    true
}

fn hold_reference(repository: &str, reference: &str) -> (r: bool)
    ensures
        r == keeps_reference(repository@, reference@),
{
    if text::parse_u64(reference).is_some() {
        return true;
    }
    let size: usize = text::chars(reference).len();
    is_slug_text(reference) && size <= 59 && text::chars(repository).len() <= 59 - size
}

fn extend_project(start: String, length: usize, rest: &str) -> (r: String)
    requires
        start@.len() == length,
        length < 63,
    ensures
        r@ == project_from(start@, rest@),
{
    let source = text::chars(rest);
    let ghost all = rest@;
    let ghost first = start@;
    let mut name = start;
    let mut size: usize = length;
    let mut i: usize = 0;
    assert(all.skip(0) =~= all);
    while i < source.len()
        invariant_except_break
            source@ == all,
            i <= all.len(),
            size < 63,
            size == name@.len(),
            project_from(name@, all.skip(i as int)) == project_from(first, all),
        ensures
            name@ == project_from(first, all),
        decreases all.len() - i,
    {
        let c = source[i];
        let ghost before = name@;
        proof {
            assert(all.skip(i as int).drop_first() =~= all.skip(i + 1));
            lemma_ends_with_hyphen(before);
        }
        if text::ascii_alphanumeric(c) {
            name.push(text::lower(c));
            size += 1;
        } else if !text::ends_with(&name, "-") {
            name.push('-');
            size += 1;
        }
        assert(name@ == project_with(before, c));
        if size == 63 {
            break;
        }
        i += 1;
    }
    name
}

pub fn compose_name(repository: &str, reference: &str) -> (r: String)
    ensures
        r@ == project_name(repository@, reference@),
        is_slug(r@),
        2 <= r@.len() <= 63,
        r@[0] == 'w' && r@[1] == 't',
{
    proof {
        project_laws::project_names_are_valid(repository@, reference@);
    }
    if hold_reference(repository, reference) {
        let mut raw = text::concat3("wt-", reference, "-");
        raw.append(repository);
        return text::trim_end_matches(&extend_project(String::new(), 0, &raw), "-");
    }
    proof {
        reveal_strlit("wt");
        text::lemma_hexadecimal(state::hash_of(vstd::utf8::encode_utf8(reference@)) as nat, 16);
    }
    let start = text::concat("wt", &text::to_hexadecimal(state::branch_key(reference), 16));
    let mut rest = text::concat3("-", reference, "-");
    rest.append(repository);
    text::trim_end_matches(&extend_project(start, 18, &rest), "-")
}

// ---------------------------------------------------------------------------
// Plans
// ---------------------------------------------------------------------------

/// What is about to be added.
pub struct AddPlan {
    pub issue: Option<u64>,
    pub branch: String,
    /// Fetch the branch from origin before checkout, as for the head of a pull request.
    pub fetch: bool,
    pub path: String,
    pub compose_name: String,
    /// The page of the issue or pull request, shown after setup.
    pub url: Option<String>,
}

#[verifier::ext_equal]
pub ghost struct PlanData {
    pub issue: Option<u64>,
    pub branch: Seq<char>,
    pub fetch: bool,
    pub path: Seq<char>,
    pub compose_name: Seq<char>,
    pub url: Option<Seq<char>>,
}

impl View for AddPlan {
    type V = PlanData;

    open spec fn view(&self) -> PlanData {
        PlanData {
            issue: self.issue,
            branch: self.branch@,
            fetch: self.fetch,
            path: self.path@,
            compose_name: self.compose_name@,
            url: model::opt(self.url),
        }
    }
}

/// The plan for a branch, for an issue where there is one.
pub open spec fn plan_of(root: Seq<char>, repository: Seq<char>, issue: Option<u64>, branch: Seq<char>) -> PlanData {
    PlanData {
        issue,
        branch,
        fetch: false,
        path: paths::joined(
            paths::joined(root, short_name(repository)),
            text::replaced(branch, "/"@, "-"@),
        ),
        compose_name: project_name(
            repository,
            match issue {
                Some(number) => text::decimal(number as nat),
                None => branch,
            },
        ),
        url: None,
    }
}

pub fn add_plan(root: &str, repository: &str, issue: Option<u64>, branch: &str) -> (r: AddPlan)
    ensures
        r@ == plan_of(root@, repository@, issue, branch@),
{
    proof {
        reveal_strlit("/");
    }
    let directory = text::replace(branch, "/", "-");
    let reference = match issue {
        Some(number) => text::to_decimal(number),
        None => branch.to_owned(),
    };
    AddPlan {
        issue,
        branch: branch.to_owned(),
        fetch: false,
        path: paths::join(&paths::join(root, &repository_name(repository)), &directory),
        compose_name: compose_name(repository, &reference),
        url: None,
    }
}

/// Whether the page of an issue is that of a pull request: GitHub serves both under one number.
pub fn is_pull_request(issue: &Issue) -> (r: bool)
    ensures
        r == text::has_part(issue.url@, "/pull/"@),
{
    text::contains(&issue.url, "/pull/")
}

pub fn issue_plan(root: &str, repository: &str, issue: &Issue) -> (r: AddPlan)
    ensures
        r@ == (PlanData {
            url: Some(issue.url@),
            ..plan_of(
                root@,
                repository@,
                Some(issue.number),
                issue_branch(issue.number, issue.title@, model::views(issue.labels@)),
            )
        }),
{
    let mut plan = add_plan(root, repository, Some(issue.number), &branch_name(issue));
    plan.url = Some(issue.url.clone());
    plan
}

/// The arguments of `gh` that show an issue.
pub fn issue_arguments(number: u64, slug: &str) -> (r: Vec<String>)
    ensures
        model::views(r@) == seq![
            "issue"@,
            "view"@,
            text::decimal(number as nat),
            "--repo"@,
            slug@,
            "--json"@,
            "number,title,state,labels,url"@,
        ],
{
    let mut out: Vec<String> = Vec::new();
    out.push("issue".to_owned());
    out.push("view".to_owned());
    out.push(text::to_decimal(number));
    out.push("--repo".to_owned());
    out.push(slug.to_owned());
    out.push("--json".to_owned());
    out.push("number,title,state,labels,url".to_owned());
    assert(model::views(out@) =~= seq![
        "issue"@,
        "view"@,
        text::decimal(number as nat),
        "--repo"@,
        slug@,
        "--json"@,
        "number,title,state,labels,url"@,
    ]);
    out
}

/// The arguments of `gh` that show the head of a pull request.
pub fn pull_arguments(number: u64, slug: &str) -> (r: Vec<String>)
    ensures
        model::views(r@) == seq![
            "pr"@,
            "view"@,
            text::decimal(number as nat),
            "--repo"@,
            slug@,
            "--json"@,
            "headRefName,isCrossRepository"@,
        ],
{
    let mut out: Vec<String> = Vec::new();
    out.push("pr".to_owned());
    out.push("view".to_owned());
    out.push(text::to_decimal(number));
    out.push("--repo".to_owned());
    out.push(slug.to_owned());
    out.push("--json".to_owned());
    out.push("headRefName,isCrossRepository".to_owned());
    assert(model::views(out@) =~= seq![
        "pr"@,
        "view"@,
        text::decimal(number as nat),
        "--repo"@,
        slug@,
        "--json"@,
        "headRefName,isCrossRepository"@,
    ]);
    out
}

/// The head of a pull request as GitHub describes it.
pub struct PullHead {
    pub head_ref_name: String,
    pub is_cross_repository: bool,
}

/// A pull request is opened on its head branch, fetched first; one from a fork is refused.
pub open spec fn pull_plan_of(root: Seq<char>, repository: Seq<char>, number: u64, url: Seq<char>, head: PullHead) -> Result<
    PlanData,
    Seq<char>,
> {
    if head.is_cross_repository {
        Err(
            "pull request #"@ + text::decimal(number as nat) + " comes from a fork; check it out with gh pr checkout "@
                + text::decimal(number as nat),
        )
    } else {
        Ok(
            PlanData {
                fetch: true,
                url: Some(url),
                ..plan_of(root, repository, Some(number), head.head_ref_name@)
            },
        )
    }
}

pub fn pull_plan(root: &str, repository: &str, number: u64, url: &str, head: &PullHead) -> (r: Result<AddPlan, String>)
    ensures
        model::outcome(r) == pull_plan_of(root@, repository@, number, url@, *head),
{
    if head.is_cross_repository {
        let mut message = text::concat3(
            "pull request #",
            &text::to_decimal(number),
            " comes from a fork; check it out with gh pr checkout ",
        );
        message.append(&text::to_decimal(number));
        return Err(message);
    }
    let mut plan = add_plan(root, repository, Some(number), &head.head_ref_name);
    plan.fetch = true;
    plan.url = Some(url.to_owned());
    Ok(plan)
}

/// The page of a record's issue; GitHub leads from there to a pull request.
pub fn record_url(record: &Record) -> (r: Option<String>)
    ensures
        model::opt(r) == match record.issue {
            Some(number) => Some(
                "https://github.com/"@ + record.repository@ + "/issues/"@ + text::decimal(number as nat),
            ),
            None => None,
        },
{
    match record.issue {
        Some(number) => {
            let mut url = text::concat3("https://github.com/", &record.repository, "/issues/");
            url.append(&text::to_decimal(number));
            Some(url)
        },
        None => None,
    }
}

/// Whether a record is that of the planned branch, in a directory that exists.
pub open spec fn is_reusable(record: RecordData, exists_: bool, repository: Seq<char>, branch: Seq<char>) -> bool {
    text::same_ignoring_case(record.repository, repository) && record.branch == branch && exists_
}

/// The first record whose worktree already has the planned branch; `existing` says of each record
/// whether its directory exists.
pub fn reusable(records: &Vec<Record>, existing: &Vec<bool>, repository: &str, branch: &str) -> (r: Option<usize>)
    requires
        records@.len() == existing@.len(),
    ensures
        match r {
            Some(at) => at < records@.len() && is_reusable(
                records@[at as int]@,
                existing@[at as int],
                repository@,
                branch@,
            ) && forall|i: int|
                0 <= i < at ==> !is_reusable((#[trigger] records@[i])@, existing@[i], repository@, branch@),
            None => forall|i: int|
                0 <= i < records@.len() ==> !is_reusable(
                    (#[trigger] records@[i])@,
                    existing@[i],
                    repository@,
                    branch@,
                ),
        },
{
    for i in 0..records.len()
        invariant
            records@.len() == existing@.len(),
            forall|k: int|
                0 <= k < i ==> !is_reusable((#[trigger] records@[k])@, existing@[k], repository@, branch@),
    {
        if text::eq_ignore_ascii_case(&records[i].repository, repository) && text::same(&records[i].branch, branch)
            && existing[i] {
            return Some(i);
        }
    }
    None
}

/// The record of a new worktree.
pub fn new_record(
    repository: &str,
    plan: &AddPlan,
    config: &Config,
    ports: Vec<(String, u16)>,
    copied_files: Vec<(String, String)>,
    config_hash: Option<String>,
) -> (r: Record)
    ensures
        r@ == (RecordData {
            repository: repository@,
            issue: plan@.issue,
            branch: plan@.branch,
            path: plan@.path,
            ports: state::port_views(ports@),
            copied_files: model::pairs(copied_files@),
            teardown: config@.teardown,
            disposable: config@.disposable,
            config_hash: model::opt(config_hash),
        }),
{
    Record {
        repository: repository.to_owned(),
        issue: plan.issue,
        branch: plan.branch.clone(),
        path: plan.path.clone(),
        ports,
        copied_files,
        teardown: text::copy_of(&config.teardown),
        disposable: text::copies_of(&config.disposable),
        config_hash,
    }
}

// ---------------------------------------------------------------------------
// Creating the worktree
// ---------------------------------------------------------------------------

/// Where a new branch starts.
pub enum Base {
    Configured(String),
    /// The default branch of the repository.
    Default,
    /// The branch that is checked out.
    Current,
}

/// The configured base; without one, an issue starts at the default branch and a standalone branch
/// at the current one.
pub fn base_branch(config: &Config, issue: Option<u64>) -> (r: Base)
    ensures
        match config@.base {
            Some(base) => r matches Base::Configured(b) && b@ == base,
            None => if issue is Some {
                r is Default
            } else {
                r is Current
            },
        },
{
    match &config.base {
        Some(base) => Base::Configured(base.clone()),
        None => {
            if issue.is_some() {
                Base::Default
            } else {
                Base::Current
            }
        },
    }
}

/// The current branch as a base; there is none on a detached commit.
pub fn current_base(branch: &str) -> (r: Result<String, String>)
    ensures
        model::outcome(r) == if branch@.len() == 0 {
            Err("cannot create a branch from detached HEAD; configure wt.base"@)
        } else {
            Ok(branch@)
        },
{
    if branch.is_empty() {
        Err("cannot create a branch from detached HEAD; configure wt.base".to_owned())
    } else {
        Ok(branch.to_owned())
    }
}

/// The commit that a new branch starts at: the base as it was just fetched, or the local branch
/// where the base is not on origin. A base that is on origin, or may be, has to be fetched.
pub open spec fn start_of(
    base: Seq<char>,
    fetched: Result<(), Seq<char>>,
    listed: Output,
    local: bool,
) -> Result<Seq<char>, Seq<char>> {
    match fetched {
        Ok(()) => Ok("origin/"@ + base),
        Err(message) => if listed.code != Some(2i32) {
            Err(process::in_context("fetch base branch "@ + base + " from origin"@, message))
        } else if local {
            Ok(base)
        } else {
            Err(process::in_context("base branch "@ + base + " is not on origin or local"@, message))
        },
    }
}

/// `listed` is what `git ls-remote --exit-code` said of the base, which matters where it
/// could not be fetched: its exit code is 2 where origin answered and has no such branch.
pub fn starting_point(base: &str, fetched: &Result<(), String>, listed: &Output, local: bool) -> (r: Result<
    String,
    String,
>)
    ensures
        model::outcome(r) == start_of(base@, model::outcome(*fetched), *listed, local),
{
    match fetched {
        Ok(()) => Ok(text::concat("origin/", base)),
        Err(message) => {
            let missing = match listed.code {
                Some(code) => code == 2,
                None => false,
            };
            if !missing {
                Err(process::with_context(&text::concat3("fetch base branch ", base, " from origin"), message))
            } else if local {
                Ok(base.to_owned())
            } else {
                Err(
                    process::with_context(
                        &text::concat3("base branch ", base, " is not on origin or local"),
                        message,
                    ),
                )
            }
        },
    }
}

/// A new branch starts at the local base only where origin answered that it has no such branch.
pub proof fn a_local_base_is_not_on_origin(
    base: Seq<char>,
    fetched: Result<(), Seq<char>>,
    listed: Output,
    local: bool,
)
    requires
        start_of(base, fetched, listed, local) is Ok,
    ensures
        start_of(base, fetched, listed, local) == Ok::<Seq<char>, Seq<char>>("origin/"@ + base) && fetched is Ok
            || start_of(base, fetched, listed, local) == Ok::<Seq<char>, Seq<char>>(base) && local && listed.code
            == Some(2i32),
{
}

/// The arguments of `git` that check out a branch that exists, here or on origin.
pub open spec fn checkout_arguments(plan: PlanData, local: bool, remote: bool) -> Option<Seq<Seq<char>>> {
    if local {
        Some(seq!["worktree"@, "add"@, plan.path, plan.branch])
    } else if remote {
        Some(
            seq![
                "worktree"@,
                "add"@,
                "--track"@,
                "-b"@,
                plan.branch,
                plan.path,
                "origin/"@ + plan.branch,
            ],
        )
    } else {
        None
    }
}

/// How an existing branch is checked out; nothing where it has to be created.
pub fn checkout_existing(plan: &AddPlan, local: bool, remote: bool) -> (r: Option<Vec<String>>)
    ensures
        match checkout_arguments(plan@, local, remote) {
            Some(arguments) => r matches Some(list) && model::views(list@) == arguments,
            None => r is None,
        },
{
    if !local && !remote {
        return None;
    }
    let mut arguments: Vec<String> = Vec::new();
    arguments.push("worktree".to_owned());
    arguments.push("add".to_owned());
    if local {
        arguments.push(plan.path.clone());
        arguments.push(plan.branch.clone());
    } else {
        arguments.push("--track".to_owned());
        arguments.push("-b".to_owned());
        arguments.push(plan.branch.clone());
        arguments.push(plan.path.clone());
        arguments.push(text::concat("origin/", &plan.branch));
    }
    assert(model::views(arguments@) =~= checkout_arguments(plan@, local, remote)->0);
    Some(arguments)
}

/// How a new branch is created.
pub fn create_worktree(plan: &AddPlan, start: &str) -> (r: Vec<String>)
    ensures
        model::views(r@) == seq!["worktree"@, "add"@, "-b"@, plan@.branch, plan@.path, start@],
{
    let mut arguments: Vec<String> = Vec::new();
    arguments.push("worktree".to_owned());
    arguments.push("add".to_owned());
    arguments.push("-b".to_owned());
    arguments.push(plan.branch.clone());
    arguments.push(plan.path.clone());
    arguments.push(start.to_owned());
    assert(model::views(arguments@) =~= seq!["worktree"@, "add"@, "-b"@, plan@.branch, plan@.path, start@]);
    arguments
}

// ---------------------------------------------------------------------------
// Trust
// ---------------------------------------------------------------------------

/// The commands of a configuration, for the user to read.
pub open spec fn commands_shown(bootstrap: Option<Seq<char>>, teardown: Option<Seq<char>>) -> Seq<char> {
    "bootstrap: "@ + shown_or_none(bootstrap) + "\nteardown: "@ + shown_or_none(teardown)
}

pub open spec fn shown_or_none(command: Option<Seq<char>>) -> Seq<char> {
    match command {
        Some(command) => command,
        None => "(none)"@,
    }
}

pub fn commands_text(config: &Config) -> (r: String)
    ensures
        r@ == commands_shown(config@.bootstrap, config@.teardown),
{
    let mut out = "bootstrap: ".to_owned();
    match &config.bootstrap {
        Some(command) => {
            out.append(command);
        },
        None => {
            out.append("(none)");
        },
    }
    out.append("\nteardown: ");
    match &config.teardown {
        Some(command) => {
            out.append(command);
        },
        None => {
            out.append("(none)");
        },
    }
    out
}

/// Whether the commands of a configuration may be used.
pub enum Trust {
    Given,
    /// The user is asked, and the answer is remembered.
    Ask,
    Refused { message: String },
}

/// Whether adding a worktree runs a command now or leaves one to be run at removal.
pub open spec fn uses_commands(settings: config::Settings, no_bootstrap: bool) -> bool {
    !((no_bootstrap || settings.bootstrap is None) && settings.teardown is None)
}

/// Whether the commands of a configuration may be used without asking: where none is used, or
/// where they are trusted.
pub open spec fn trust_given(
    trusted: Seq<(Seq<char>, Seq<char>)>,
    repository: Seq<char>,
    settings: config::Settings,
    hash: Option<Seq<char>>,
    no_bootstrap: bool,
) -> bool {
    !uses_commands(settings, no_bootstrap) || (hash matches Some(hash) && state::trusts(trusted, repository, hash))
}

/// Commands are used only where they are trusted, or where the user can be asked.
pub fn ensure_trusted_commands(
    store: &Store,
    repository: &str,
    config: &Config,
    hash: Option<&str>,
    no_bootstrap: bool,
    terminal: bool,
) -> (r: Trust)
    ensures
        ({
            let given = trust_given(store.trust_files(), repository@, config@, model::opt_str(hash), no_bootstrap);
            &&& r is Given <==> given
            &&& r is Ask <==> !given && hash is Some && terminal
            &&& r matches Trust::Refused { message } ==> message@ == if hash is None {
                "configuration commands require a fingerprint"@
            } else {
                ".wtconfig commands are not trusted; review them and run wt trust --yes"@
            }
        }),
{
    if (no_bootstrap || config.bootstrap.is_none()) && config.teardown.is_none() {
        return Trust::Given;
    }
    match hash {
        None => Trust::Refused { message: "configuration commands require a fingerprint".to_owned() },
        Some(hash) => {
            if store.is_trusted(repository, hash) {
                Trust::Given
            } else if terminal {
                Trust::Ask
            } else {
                Trust::Refused {
                    message: ".wtconfig commands are not trusted; review them and run wt trust --yes".to_owned(),
                }
            }
        },
    }
}

/// The setup command to run, unless it is skipped.
pub fn bootstrap_command(config: &Config, skipped: bool) -> (r: Option<String>)
    ensures
        model::opt(r) == if skipped {
            None
        } else {
            config@.bootstrap
        },
{
    if skipped {
        None
    } else {
        text::copy_of(&config.bootstrap)
    }
}

/// Where trust is given without asking, every command that runs now or at removal is trusted by a
/// fingerprint that no other pair of commands has.
pub proof fn only_trusted_commands_are_used(
    trusted: Seq<(Seq<char>, Seq<char>)>,
    repository: Seq<char>,
    settings: config::Settings,
    no_bootstrap: bool,
    other_bootstrap: Option<Seq<char>>,
    other_teardown: Option<Seq<char>>,
)
    requires
        trust_given(
            trusted,
            repository,
            settings,
            config::fingerprint(settings.bootstrap, settings.teardown),
            no_bootstrap,
        ),
        (!no_bootstrap && settings.bootstrap is Some) || settings.teardown is Some,
    ensures
        config::fingerprint(settings.bootstrap, settings.teardown) matches Some(hash) && state::trusts(
            trusted,
            repository,
            hash,
        ),
        config::fingerprint(other_bootstrap, other_teardown) == config::fingerprint(
            settings.bootstrap,
            settings.teardown,
        ) ==> other_bootstrap == settings.bootstrap && other_teardown == settings.teardown,
{
    config::fingerprints_tell_commands_apart(
        settings.bootstrap,
        settings.teardown,
        other_bootstrap,
        other_teardown,
    );
}

// ---------------------------------------------------------------------------
// Running commands
// ---------------------------------------------------------------------------

/// How the output of a setup or teardown command is treated.
pub enum Hook {
    /// It is shown as it comes; the command is shown first where there is a terminal.
    Stream { echo: bool },
    /// It is kept for the case of failure.
    Capture,
}

pub fn run_hook(verbose: bool, terminal: bool, quiet: bool) -> (r: Hook)
    ensures
        r is Capture <==> !verbose && (terminal || quiet),
        r matches Hook::Stream { echo } ==> echo == terminal,
{
    if verbose || (!terminal && !quiet) {
        Hook::Stream { echo: terminal }
    } else {
        Hook::Capture
    }
}

/// What a captured command is called while it runs, and when it is done.
pub fn hook_labels(name: &str) -> (r: (String, String))
    ensures
        name@ == "bootstrap"@ ==> r.0@ == "Setting up environment"@ && r.1@ == "Environment ready"@,
        name@ != "bootstrap"@ ==> r.0@ == "Running teardown"@ && r.1@ == "Teardown complete"@,
{
    if text::same(name, "bootstrap") {
        ("Setting up environment".to_owned(), "Environment ready".to_owned())
    } else {
        ("Running teardown".to_owned(), "Teardown complete".to_owned())
    }
}

/// Whether a command succeeded; `status` is how it ended.
pub fn hook_result(name: &str, success: bool, status: &str) -> (r: Result<(), String>)
    ensures
        model::outcome(r) == if success {
            Ok(())
        } else {
            Err(name@ + " command failed ("@ + status@ + ")"@)
        },
{
    if success {
        Ok(())
    } else {
        let mut message = text::concat3(name, " command failed (", status);
        message.append(")");
        Err(message)
    }
}

/// The failure of a command in the background, with the command and what it wrote.
pub fn quiet_failure(command: &str, output: &Vec<u8>, message: &str) -> (r: String)
    ensures
        r@ == process::in_context(
            command@ + "\n"@ + text::trim_end_by(text::lossy_text(output@), |c: char| text::white(c)),
            message@,
        ),
{
    let written = text::trim_end(&text::from_utf8_lossy(output));
    process::with_context(&text::concat3(command, "\n", &written), message)
}

// ---------------------------------------------------------------------------
// Listing
// ---------------------------------------------------------------------------

/// Records are listed by repository, issues before standalone branches, by number, by branch.
pub open spec fn listed_before(a: RecordData, b: RecordData) -> bool {
    if a.repository != b.repository {
        text::less(a.repository, b.repository)
    } else if a.issue is Some != b.issue is Some {
        a.issue is Some
    } else if a.issue is Some && a.issue != b.issue {
        a.issue->0 < b.issue->0
    } else {
        text::less(a.branch, b.branch)
    }
}

pub open spec fn list_order() -> spec_fn(RecordData, RecordData) -> bool {
    |a: RecordData, b: RecordData| listed_before(a, b)
}

/// Two texts, and how they compare with a third.
proof fn lemma_texts_compare(a: Seq<char>, b: Seq<char>, c: Seq<char>)
    ensures
        text::less(a, b) ==> !text::less(b, a),
        !text::less(a, b) && !text::less(b, c) ==> !text::less(a, c),
        a != b ==> text::less(a, b) || text::less(b, a),
        !text::less(a, a),
{
    text::text_order_is_total();
    model::lemma_total_is_weak(text::text_order());
    let before = text::text_order();
    assert(before(a, b) == text::less(a, b) && before(b, a) == text::less(b, a));
    assert(before(b, c) == text::less(b, c) && before(a, c) == text::less(a, c));
    assert(before(a, a) == text::less(a, a));
}

/// Records are listed by repository, those of issues before those of branches, in the order of the
/// issues or of the branches; none is lost and none is added.
pub proof fn worktrees_are_listed_in_order(records: Seq<RecordData>)
    ensures
        ({
            let listed = model::sorted(records, list_order());
            &&& listed.to_multiset() == records.to_multiset()
            &&& forall|i: int, j: int|
                0 <= i < j < listed.len() ==> !listed_before(#[trigger] listed[j], #[trigger] listed[i])
        }),
{
    let before = list_order();
    assert forall|a: RecordData, b: RecordData| #[trigger] before(a, b) implies !before(b, a) by {
        lemma_texts_compare(a.repository, b.repository, a.repository);
        lemma_texts_compare(a.branch, b.branch, a.branch);
    }
    assert forall|a: RecordData, b: RecordData, c: RecordData| !#[trigger] before(a, b) && !#[trigger] before(
        b,
        c,
    ) implies !before(a, c) by {
        lemma_texts_compare(a.repository, b.repository, c.repository);
        lemma_texts_compare(b.repository, c.repository, a.repository);
        lemma_texts_compare(a.repository, c.repository, b.repository);
        lemma_texts_compare(a.branch, b.branch, c.branch);
    }
    model::sorting_orders(records, before);
}

fn precedes_in_list(a: &Record, b: &Record) -> (r: bool)
    ensures
        r == listed_before(a@, b@),
{
    if !text::same(&a.repository, &b.repository) {
        return text::precedes(&a.repository, &b.repository);
    }
    match (a.issue, b.issue) {
        (Some(left), Some(right)) => {
            if left != right {
                left < right
            } else {
                text::precedes(&a.branch, &b.branch)
            }
        },
        (Some(_), None) => true,
        (None, Some(_)) => false,
        (None, None) => text::precedes(&a.branch, &b.branch),
    }
}

/// Worktrees are listed by repository; within one, those of issues come first, by their numbers, and
/// then the others, by their branches. Paths do not matter.
pub proof fn the_list_goes_by_repository_issue_and_branch(a: RecordData, b: RecordData)
    ensures
        text::less(a.repository, b.repository) ==> listed_before(a, b) && !listed_before(b, a),
        a.repository == b.repository ==> {
            &&& a.issue is Some && b.issue is None ==> listed_before(a, b) && !listed_before(b, a)
            &&& a.issue matches Some(m) ==> (b.issue matches Some(n) ==> (m < n ==> listed_before(a, b)
                && !listed_before(b, a)))
            &&& a.issue == b.issue ==> (listed_before(a, b) <==> text::less(a.branch, b.branch))
        },
{
    text::text_order_is_total();
    let order = text::text_order();
    assert(order(a.repository, b.repository) == text::less(a.repository, b.repository));
    assert(order(b.repository, a.repository) == text::less(b.repository, a.repository));
    if text::less(a.repository, b.repository) {
        assert(!order(a.repository, a.repository));
        if order(b.repository, a.repository) {
            assert(order(a.repository, a.repository));
        }
    }
}

/// The records in the order of the list.
pub fn sort_records(records: &Vec<Record>) -> (r: Vec<Record>)
    ensures
        state::record_views(r@) == model::sorted(state::record_views(records@), list_order()),
{
    let ghost all = state::record_views(records@);
    let ghost before_fn = list_order();
    let mut out: Vec<Record> = Vec::new();
    assert(state::record_views(out@) =~= model::sorted(all.take(0), before_fn));
    for i in 0..records.len()
        invariant
            all == state::record_views(records@),
            before_fn == list_order(),
            state::record_views(out@) == model::sorted(all.take(i as int), before_fn),
    {
        let ghost done = state::record_views(out@);
        let mut at: usize = out.len();
        while at > 0 && precedes_in_list(&records[i], &out[at - 1])
            invariant
                i < records@.len(),
                at <= out@.len(),
                before_fn == list_order(),
                done == state::record_views(out@),
                forall|k: int| at <= k < out@.len() ==> #[trigger] before_fn(records@[i as int]@, done[k]),
            decreases at,
        {
            at -= 1;
        }
        let item = records[i].clone();
        proof {
            model::step(all, i as int);
            if at > 0 {
                assert(done[at - 1] == out@[at - 1]@);
            }
            model::lemma_inserted(done, item@, before_fn, at as int);
        }
        out.insert(at, item);
        assert(state::record_views(out@) =~= done.insert(at as int, item@));
    }
    proof {
        model::whole(all);
    }
    out
}

/// A line of stable output: the issue, the recorded branch, the path.
pub open spec fn porcelain_line() -> spec_fn(RecordData) -> Seq<char> {
    |r: RecordData|
        (match r.issue {
            Some(number) => text::decimal(number as nat),
            None => "-"@,
        }) + "\t"@ + r.branch + "\t"@ + r.path
}

pub fn porcelain(records: &Vec<Record>) -> (r: Vec<String>)
    ensures
        model::views(r@) == state::record_views(records@).map_values(porcelain_line()),
{
    let ghost all = state::record_views(records@).map_values(porcelain_line());
    let mut out: Vec<String> = Vec::new();
    for i in 0..records.len()
        invariant
            all == state::record_views(records@).map_values(porcelain_line()),
            model::views(out@) == all.take(i as int),
    {
        let mut line = match records[i].issue {
            Some(number) => text::to_decimal(number),
            None => "-".to_owned(),
        };
        line.append("\t");
        line.append(&records[i].branch);
        line.append("\t");
        line.append(&records[i].path);
        proof {
            model::step(all, i as int);
            assert(state::record_views(records@)[i as int] == records@[i as int]@);
        }
        out.push(line);
    }
    proof {
        model::whole(all);
    }
    out
}

/// The branch that a worktree has now: what Git says of it, or why nothing is known.
pub open spec fn current_branch(present: bool, output: Option<Output>) -> Seq<char> {
    if !present {
        "(missing)"@
    } else {
        match output {
            Some(output) => if output.success() {
                let branch = text::trimmed(text::lossy_text(output.stdout@));
                if branch == "HEAD"@ {
                    "(detached)"@
                } else {
                    branch
                }
            } else {
                "(unavailable)"@
            },
            None => "(unavailable)"@,
        }
    }
}

/// The branch of a worktree as it is listed, with the recorded one where it differs.
pub open spec fn branch_shown(branch: Seq<char>, present: bool, output: Option<Output>) -> Seq<char> {
    let current = current_branch(present, output);
    if current == branch {
        current
    } else {
        current + " (managed: "@ + branch + ")"@
    }
}

/// The branch to show for a record: whether its directory exists, and what Git answered there.
pub fn displayed_branch(record: &Record, present: bool, output: Option<&Output>) -> (r: String)
    ensures
        r@ == branch_shown(
            record@.branch,
            present,
            match output {
                Some(output) => Some(*output),
                None => None,
            },
        ),
{
    let current = if !present {
        "(missing)".to_owned()
    } else {
        match output {
            Some(output) => {
                if output.succeeded() {
                    let branch = text::trim(&text::from_utf8_lossy(&output.stdout));
                    if text::same(&branch, "HEAD") {
                        "(detached)".to_owned()
                    } else {
                        branch
                    }
                } else {
                    "(unavailable)".to_owned()
                }
            },
            None => "(unavailable)".to_owned(),
        }
    };
    if text::same(&current, &record.branch) {
        current
    } else {
        let mut out = text::concat3(&current, " (managed: ", &record.branch);
        out.append(")");
        out
    }
}

/// A worktree to list: its record, and its branch as it is shown.
pub struct Listed {
    pub record: Record,
    pub branch: String,
}

pub open spec fn listed_views(list: Seq<Listed>) -> Seq<(RecordData, Seq<char>)> {
    list.map_values(|l: Listed| (l.record@, l.branch@))
}

/// The row of a worktree.
pub open spec fn listed_row(home: Option<Seq<char>>) -> spec_fn((RecordData, Seq<char>)) -> (
    Option<u64>,
    Seq<char>,
    Seq<char>,
) {
    |l: (RecordData, Seq<char>)| (l.0.issue, l.1, ui::shown_path(l.0.path, home))
}

pub open spec fn in_repository(repository: Seq<char>) -> spec_fn((RecordData, Seq<char>)) -> bool {
    |l: (RecordData, Seq<char>)| l.0.repository == repository
}

/// The repositories of a list, each once, in order.
pub open spec fn repositories(list: Seq<(RecordData, Seq<char>)>) -> Seq<Seq<char>> {
    text::sorted_set(list.map_values(|l: (RecordData, Seq<char>)| l.0.repository))
}

/// The table of one repository, under its name.
pub open spec fn group(screen: Screen, home: Option<Seq<char>>, list: Seq<(RecordData, Seq<char>)>) -> spec_fn(
    Seq<char>,
) -> Seq<Seq<char>> {
    |repository: Seq<char>|
        seq![screen.stdout_styled(repository, 1)] + ui::table(
            screen,
            repository,
            list.filter(in_repository(repository)).map_values(listed_row(home)),
            "PATH"@,
        ) + seq![""@]
}

/// Tables one after the other.
pub open spec fn groups(
    screen: Screen,
    home: Option<Seq<char>>,
    list: Seq<(RecordData, Seq<char>)>,
    names: Seq<Seq<char>>,
) -> Seq<Seq<char>>
    decreases names.len(),
{
    if names.len() == 0 {
        Seq::empty()
    } else {
        groups(screen, home, list, names.drop_last()) + group(screen, home, list)(names.last())
    }
}

fn rows_of(list: &Vec<Listed>, repository: &str, home: Option<&str>) -> (r: Vec<Row>)
    ensures
        ui::row_views(r@) == listed_views(list@).filter(in_repository(repository@)).map_values(
            listed_row(model::opt_str(home)),
        ),
{
    let ghost all = listed_views(list@);
    let ghost keep = in_repository(repository@);
    let ghost row = listed_row(model::opt_str(home));
    let mut out: Vec<Row> = Vec::new();
    proof {
        model::start_filter(all, keep);
        assert(ui::row_views(out@) =~= Seq::<(RecordData, Seq<char>)>::empty().map_values(row));
    }
    for i in 0..list.len()
        invariant
            all == listed_views(list@),
            keep == in_repository(repository@),
            row == listed_row(model::opt_str(home)),
            ui::row_views(out@) == all.take(i as int).filter(keep).map_values(row),
    {
        let ghost before = all.take(i as int).filter(keep);
        proof {
            model::step_filter(all, i as int, keep);
            assert(all[i as int] == (list@[i as int].record@, list@[i as int].branch@));
            assert(before.push(all[i as int]).map_values(row) =~= before.map_values(row).push(row(all[i as int])));
        }
        if text::same(&list[i].record.repository, repository) {
            let item = (
                list[i].record.issue,
                list[i].branch.clone(),
                ui::display_path(&list[i].record.path, home),
            );
            let ghost shown = ui::row_views(out@);
            out.push(item);
            assert(ui::row_views(out@) =~= shown.push((item.0, item.1@, item.2@)));
        }
    }
    proof {
        model::whole(all);
    }
    out
}

fn repository_names(list: &Vec<Listed>) -> (r: Vec<String>)
    ensures
        model::views(r@) == listed_views(list@).map_values(|l: (RecordData, Seq<char>)| l.0.repository),
{
    let ghost all = listed_views(list@).map_values(|l: (RecordData, Seq<char>)| l.0.repository);
    let mut out: Vec<String> = Vec::new();
    for i in 0..list.len()
        invariant
            all == listed_views(list@).map_values(|l: (RecordData, Seq<char>)| l.0.repository),
            model::views(out@) == all.take(i as int),
    {
        proof {
            model::step(all, i as int);
            assert(listed_views(list@)[i as int] == (list@[i as int].record@, list@[i as int].branch@));
        }
        out.push(list[i].record.repository.clone());
    }
    proof {
        model::whole(all);
    }
    out
}

/// The list for people: a table for each repository.
pub fn list(screen: &Screen, home: Option<&str>, worktrees: &Vec<Listed>) -> (r: Vec<String>)
    ensures
        model::views(r@) == if worktrees@.len() == 0 {
            seq!["No managed worktrees."@]
        } else {
            groups(
                *screen,
                model::opt_str(home),
                listed_views(worktrees@),
                repositories(listed_views(worktrees@)),
            )
        },
{
    let mut out: Vec<String> = Vec::new();
    if worktrees.len() == 0 {
        out.push("No managed worktrees.".to_owned());
        assert(model::views(out@) =~= seq!["No managed worktrees."@]);
        return out;
    }
    let names = text::sort_unique(&repository_names(worktrees));
    let ghost all = model::views(names@);
    let ghost list = listed_views(worktrees@);
    let ghost house = model::opt_str(home);
    assert(all.take(0) =~= Seq::empty());
    assert(model::views(out@) =~= Seq::empty());
    for i in 0..names.len()
        invariant
            all == model::views(names@),
            list == listed_views(worktrees@),
            house == model::opt_str(home),
            model::views(out@) == groups(*screen, house, list, all.take(i as int)),
    {
        let ghost before = model::views(out@);
        proof {
            model::step(all, i as int);
            assert(all[i as int] == names@[i as int]@);
        }
        out.push(screen.stdout_style(&names[i], 1));
        let mut table = ui::worktree_table(screen, &names[i], &rows_of(worktrees, &names[i], home), "PATH");
        let ghost lines = model::views(table@);
        let ghost first = screen.stdout_styled(names@[i as int]@, 1);
        out.append(&mut table);
        out.push("".to_owned());
        assert(model::views(out@) =~= before + (seq![first] + lines + seq![""@]));
    }
    proof {
        model::whole(all);
    }
    out
}

/// Every worktree is listed under its own repository, and no other worktree is.
pub proof fn every_worktree_is_listed_under_its_repository(list: Seq<(RecordData, Seq<char>)>, k: int)
    requires
        0 <= k < list.len(),
    ensures
        repositories(list).contains(list[k].0.repository),
        list.filter(in_repository(list[k].0.repository)).contains(list[k]),
        forall|r: Seq<char>, i: int|
            0 <= i < list.filter(in_repository(r)).len() ==> (#[trigger] list.filter(in_repository(r))[i]).0.repository
                == r,
{
    let names = list.map_values(|l: (RecordData, Seq<char>)| l.0.repository);
    let own = list[k].0.repository;
    text::sorted_set_is_the_set(names);
    assert(names[k] == own);
    assert(names.contains(own));
    model::filter_keeps(list, in_repository(own));
    assert(in_repository(own)(list[k]));
    assert forall|r: Seq<char>, i: int|
        0 <= i < list.filter(in_repository(r)).len() implies (#[trigger] list.filter(in_repository(r))[i]).0.repository
        == r by {
        let kept = list.filter(in_repository(r));
        model::filter_keeps(list, in_repository(r));
        assert(kept.contains(kept[i]));
    }
}

/// How many worktrees are listed under these repositories.
pub open spec fn worktrees_in(list: Seq<(RecordData, Seq<char>)>, names: Seq<Seq<char>>) -> nat
    decreases names.len(),
{
    if names.len() == 0 {
        0
    } else {
        worktrees_in(list, names.drop_last()) + list.filter(in_repository(names.last())).len()
    }
}

proof fn lemma_one_more_worktree(
    list: Seq<(RecordData, Seq<char>)>,
    worktree: (RecordData, Seq<char>),
    names: Seq<Seq<char>>,
)
    requires
        names.no_duplicates(),
    ensures
        worktrees_in(list.push(worktree), names) == worktrees_in(list, names) + if names.contains(
            worktree.0.repository,
        ) {
            1nat
        } else {
            0nat
        },
    decreases names.len(),
{
    if names.len() > 0 {
        let init = names.drop_last();
        lemma_one_more_worktree(list, worktree, init);
        let keep = in_repository(names.last());
        list.lemma_filter_push(worktree, keep);
        let own = worktree.0.repository;
        assert(names.last() == names[names.len() - 1]);
        if init.contains(own) {
            let i = choose|i: int| 0 <= i < init.len() && init[i] == own;
            assert(names[i] == own);
        } else if names.contains(own) {
            let i = choose|i: int| 0 <= i < names.len() && names[i] == own;
            assert(i == names.len() - 1) by {
                if i < names.len() - 1 {
                    assert(init[i] == own);
                }
            }
        }
    }
}

proof fn lemma_no_worktrees(list: Seq<(RecordData, Seq<char>)>, names: Seq<Seq<char>>)
    requires
        list.len() == 0,
    ensures
        worktrees_in(list, names) == 0,
    decreases names.len(),
{
    if names.len() > 0 {
        lemma_no_worktrees(list, names.drop_last());
        model::filter_keeps(list, in_repository(names.last()));
    }
}

proof fn lemma_worktrees_in(list: Seq<(RecordData, Seq<char>)>, names: Seq<Seq<char>>)
    requires
        names.no_duplicates(),
        forall|i: int| 0 <= i < list.len() ==> names.contains((#[trigger] list[i]).0.repository),
    ensures
        worktrees_in(list, names) == list.len(),
    decreases list.len(),
{
    if list.len() == 0 {
        lemma_no_worktrees(list, names);
    } else {
        let init = list.drop_last();
        assert(list =~= init.push(list.last()));
        assert(list.last() == list[list.len() - 1]);
        assert forall|i: int| 0 <= i < init.len() implies names.contains((#[trigger] init[i]).0.repository) by {
            assert(init[i] == list[i]);
        }
        lemma_worktrees_in(init, names);
        lemma_one_more_worktree(init, list.last(), names);
    }
}

/// Grouping by repository loses no worktree and lists none twice: the groups hold as many worktrees
/// as there are.
pub proof fn grouping_keeps_every_worktree(list: Seq<(RecordData, Seq<char>)>)
    ensures
        repositories(list).no_duplicates(),
        worktrees_in(list, repositories(list)) == list.len(),
{
    let names = repositories(list);
    let all = list.map_values(|l: (RecordData, Seq<char>)| l.0.repository);
    text::sorted_set_is_the_set(all);
    text::text_order_is_total();
    assert forall|i: int, j: int| 0 <= i < names.len() && 0 <= j < names.len() && i != j implies names[i] != names[j] by {
        if i < j {
            assert(text::text_order()(names[i], names[j]));
        } else {
            assert(text::text_order()(names[j], names[i]));
        }
    }
    assert forall|i: int| 0 <= i < list.len() implies names.contains((#[trigger] list[i]).0.repository) by {
        assert(all[i] == list[i].0.repository);
        assert(all.contains(all[i]));
    }
    lemma_worktrees_in(list, names);
}

proof fn lemma_group_lines(
    screen: Screen,
    home: Option<Seq<char>>,
    list: Seq<(RecordData, Seq<char>)>,
    names: Seq<Seq<char>>,
)
    ensures
        groups(screen, home, list, names).len() == worktrees_in(list, names) + 4 * names.len(),
    decreases names.len(),
{
    if names.len() > 0 {
        lemma_group_lines(screen, home, list, names.drop_last());
    }
}

proof fn lemma_group_shown(
    screen: Screen,
    home: Option<Seq<char>>,
    list: Seq<(RecordData, Seq<char>)>,
    names: Seq<Seq<char>>,
    name: Seq<char>,
    line: Seq<char>,
)
    requires
        names.contains(name),
        group(screen, home, list)(name).contains(line),
    ensures
        groups(screen, home, list, names).contains(line),
    decreases names.len(),
{
    let before = groups(screen, home, list, names.drop_last());
    let last = group(screen, home, list)(names.last());
    let all = groups(screen, home, list, names);
    if name == names.last() {
        let i = choose|i: int| 0 <= i < last.len() && last[i] == line;
        assert(all[before.len() + i] == line);
    } else {
        let k = choose|k: int| 0 <= k < names.len() && names[k] == name;
        assert(names.drop_last()[k] == name);
        lemma_group_shown(screen, home, list, names.drop_last(), name, line);
        let i = choose|i: int| 0 <= i < before.len() && before[i] == line;
        assert(all[i] == line);
    }
}

/// The list has one line for each worktree, with its own issue, branch and path, and four more for
/// each repository: its name, the two lines of the heading and an empty line.
pub proof fn every_worktree_has_a_line(
    screen: Screen,
    home: Option<Seq<char>>,
    list: Seq<(RecordData, Seq<char>)>,
    k: int,
)
    requires
        0 <= k < list.len(),
    ensures
        groups(screen, home, list, repositories(list)).len() == list.len() + 4 * repositories(list).len(),
        groups(screen, home, list, repositories(list)).contains(screen.stdout_styled(list[k].0.repository, 1)),
        exists|columns: ui::Columns, links: bool|
            groups(screen, home, list, repositories(list)).contains(
                #[trigger] ui::row_line(screen, list[k].0.repository, "PATH"@, columns, links)(
                    (list[k].0.issue, list[k].1, ui::shown_path(list[k].0.path, home)),
                ),
            ),
{
    let names = repositories(list);
    let own = list[k].0.repository;
    grouping_keeps_every_worktree(list);
    lemma_group_lines(screen, home, list, names);
    every_worktree_is_listed_under_its_repository(list, k);
    let kept = list.filter(in_repository(own));
    let rows = kept.map_values(listed_row(home));
    let i = choose|i: int| 0 <= i < kept.len() && kept[i] == list[k];
    assert(rows[i] == (list[k].0.issue, list[k].1, ui::shown_path(list[k].0.path, home)));
    let c = ui::columns(rows, "PATH"@, screen.width as nat);
    let links = screen.stdout && !screen.dumb && ui::linkable(own);
    let line = ui::row_line(screen, own, "PATH"@, c, links)(rows[i]);
    let lines = group(screen, home, list)(own);
    assert(ui::table(screen, own, rows, "PATH"@)[i + 2] == line);
    assert(lines[0] == screen.stdout_styled(own, 1));
    assert(lines[i + 3] == line);
    lemma_group_shown(screen, home, list, names, own, lines[0]);
    lemma_group_shown(screen, home, list, names, own, line);
}

// ---------------------------------------------------------------------------
// Removing
// ---------------------------------------------------------------------------

/// The step that removing a worktree is at.
#[derive(PartialEq, Eq, Structural)]
pub enum Removing {
    /// Find its record, and see whether its directory exists.
    Lookup,
    /// Drop Git's entry of a directory that is gone.
    Prune,
    /// Look for changes that would be lost.
    Check,
    /// Run its teardown command.
    Teardown,
    /// Remove the worktree.
    Discard,
    /// Drop its record.
    Forget,
    Done,
}

/// What a step of removing a worktree came to.
pub enum Answer {
    /// The record, and whether its directory exists.
    Record(Result<Option<Record>, String>, bool),
    /// The changes that would be lost.
    Changes(Result<Vec<String>, String>),
    Finished(Result<(), String>),
}

pub open spec fn suits(step: Removing, answer: Answer) -> bool {
    match step {
        Removing::Lookup => answer is Record,
        Removing::Check => answer is Changes,
        Removing::Done => false,
        _ => answer is Finished,
    }
}

/// Where an answer leads: without force a worktree with changes is kept, and a directory that is
/// gone has nothing left to check, tear down or lose.
pub open spec fn removing_after(step: Removing, reference: Seq<char>, force: bool, skip_teardown: bool, answer: Answer) -> Result<
    Removing,
    Seq<char>,
> {
    let after_check = if skip_teardown {
        Removing::Discard
    } else {
        Removing::Teardown
    };
    match (step, answer) {
        (Removing::Lookup, Answer::Record(found, present)) => match state::outcome_record(found) {
            Err(message) => Err(message),
            Ok(None) => Err("no managed worktree for "@ + reference),
            Ok(Some(_)) => if !present {
                Ok(Removing::Prune)
            } else if !force {
                Ok(Removing::Check)
            } else {
                Ok(after_check)
            },
        },
        (Removing::Check, Answer::Changes(changes)) => match model::outcome_list(changes) {
            Err(message) => Err(message),
            Ok(changes) => if changes.len() > 0 {
                Err(changes[0])
            } else {
                Ok(after_check)
            },
        },
        (_, Answer::Finished(result)) => match model::outcome(result) {
            Err(message) => Err(message),
            Ok(()) => Ok(
                match step {
                    Removing::Prune => Removing::Forget,
                    Removing::Teardown => Removing::Discard,
                    Removing::Discard => Removing::Forget,
                    _ => Removing::Done,
                },
            ),
        },
        _ => Err("unexpected answer"@),
    }
}

/// Goes on with removing a worktree: the next step, or why it is kept.
pub fn remove(step: Removing, reference: &str, force: bool, skip_teardown: bool, answer: Answer) -> (r: Result<
    Removing,
    String,
>)
    requires
        suits(step, answer),
    ensures
        match removing_after(step, reference@, force, skip_teardown, answer) {
            Ok(next) => r == Ok::<Removing, String>(next),
            Err(message) => r matches Err(e) && e@ == message,
        },
{
    let after_check = if skip_teardown {
        Removing::Discard
    } else {
        Removing::Teardown
    };
    match (step, answer) {
        (Removing::Lookup, Answer::Record(found, present)) => match found {
            Err(message) => Err(message),
            Ok(None) => Err(text::concat("no managed worktree for ", reference)),
            Ok(Some(_)) => {
                if !present {
                    Ok(Removing::Prune)
                } else if !force {
                    Ok(Removing::Check)
                } else {
                    Ok(after_check)
                }
            },
        },
        (Removing::Check, Answer::Changes(changes)) => match changes {
            Err(message) => Err(message),
            Ok(changes) => {
                if changes.len() > 0 {
                    assert(model::views(changes@)[0] == changes@[0]@);
                    Err(changes[0].clone())
                } else {
                    Ok(after_check)
                }
            },
        },
        (step, Answer::Finished(result)) => match result {
            Err(message) => Err(message),
            Ok(()) => match step {
                Removing::Prune => Ok(Removing::Forget),
                Removing::Teardown => Ok(Removing::Discard),
                Removing::Discard => Ok(Removing::Forget),
                _ => Ok(Removing::Done),
            },
        },
        _ => Err("unexpected answer".to_owned()),
    }
}

/// Where a sequence of answers leads from the start.
pub open spec fn removing_by(reference: Seq<char>, force: bool, skip_teardown: bool, answers: Seq<Answer>) -> Result<
    Removing,
    Seq<char>,
>
    decreases answers.len(),
{
    if answers.len() == 0 {
        Ok(Removing::Lookup)
    } else {
        match removing_by(reference, force, skip_teardown, answers.drop_last()) {
            Ok(step) => if suits(step, answers.last()) {
                removing_after(step, reference, force, skip_teardown, answers.last())
            } else {
                Err("unexpected answer"@)
            },
            Err(message) => Err(message),
        }
    }
}

/// Whether an answer shows that nothing would be lost.
pub open spec fn shows_no_changes(answer: Answer) -> bool {
    answer matches Answer::Changes(Ok(changes)) && changes@.len() == 0
}

/// Whether an answer shows a record whose directory exists.
pub open spec fn shows_present(answer: Answer) -> bool {
    answer matches Answer::Record(Ok(Some(_)), true)
}

/// Without force, a worktree is torn down or removed only after it was shown that nothing would be
/// lost; and only a directory that exists is torn down or removed.
pub proof fn removal_without_force_loses_nothing(
    reference: Seq<char>,
    force: bool,
    skip_teardown: bool,
    answers: Seq<Answer>,
)
    ensures
        removing_by(reference, force, skip_teardown, answers) == Ok::<Removing, Seq<char>>(Removing::Discard)
            || removing_by(reference, force, skip_teardown, answers) == Ok::<Removing, Seq<char>>(Removing::Teardown)
            ==> {
            &&& exists|i: int| 0 <= i < answers.len() && shows_present(#[trigger] answers[i])
            &&& !force ==> exists|i: int| 0 <= i < answers.len() && shows_no_changes(#[trigger] answers[i])
        },
{
    lemma_removing(reference, force, skip_teardown, answers);
}

proof fn lemma_removing(reference: Seq<char>, force: bool, skip_teardown: bool, answers: Seq<Answer>)
    ensures
        match removing_by(reference, force, skip_teardown, answers) {
            Ok(Removing::Check) => exists|i: int| 0 <= i < answers.len() && shows_present(#[trigger] answers[i]),
            Ok(Removing::Teardown) => {
                &&& exists|i: int| 0 <= i < answers.len() && shows_present(#[trigger] answers[i])
                &&& !force ==> exists|i: int| 0 <= i < answers.len() && shows_no_changes(#[trigger] answers[i])
            },
            Ok(Removing::Discard) => {
                &&& exists|i: int| 0 <= i < answers.len() && shows_present(#[trigger] answers[i])
                &&& !force ==> exists|i: int| 0 <= i < answers.len() && shows_no_changes(#[trigger] answers[i])
            },
            _ => true,
        },
    decreases answers.len(),
{
    if answers.len() > 0 {
        let before = answers.drop_last();
        lemma_removing(reference, force, skip_teardown, before);
        match (
            removing_by(reference, force, skip_teardown, before),
            removing_by(reference, force, skip_teardown, answers),
        ) {
            (Ok(from), Ok(to)) => {
                if to == Removing::Check || to == Removing::Teardown || to == Removing::Discard {
                    if from == Removing::Lookup {
                        assert(shows_present(answers[answers.len() - 1]));
                    } else {
                        let i = choose|i: int| 0 <= i < before.len() && shows_present(#[trigger] before[i]);
                        assert(shows_present(answers[i]));
                        if from == Removing::Check {
                            assert(shows_no_changes(answers[answers.len() - 1]));
                        } else if !force {
                            let k = choose|k: int| 0 <= k < before.len() && shows_no_changes(#[trigger] before[k]);
                            assert(shows_no_changes(answers[k]));
                        }
                    }
                }
            },
            _ => {},
        }
    }
}

proof fn lemma_removing_step(reference: Seq<char>, force: bool, skip_teardown: bool, answers: Seq<Answer>, i: int)
    requires
        0 <= i < answers.len(),
    ensures
        removing_by(reference, force, skip_teardown, answers.take(i + 1)) == match removing_by(
            reference,
            force,
            skip_teardown,
            answers.take(i),
        ) {
            Ok(step) => if suits(step, answers[i]) {
                removing_after(step, reference, force, skip_teardown, answers[i])
            } else {
                Err("unexpected answer"@)
            },
            Err(message) => Err(message),
        },
{
    model::step(answers, i);
}

/// A worktree without changes is removed: its teardown runs, its directory goes and then its record.
/// With force nobody asks for changes, and skipping the teardown leaves out that step alone.
pub proof fn a_clean_worktree_is_removed(reference: Seq<char>, answers: Seq<Answer>)
    requires
        answers.len() == 5,
        shows_present(answers[0]),
        shows_no_changes(answers[1]),
        answers[2] matches Answer::Finished(Ok(_)),
        answers[3] matches Answer::Finished(Ok(_)),
        answers[4] matches Answer::Finished(Ok(_)),
    ensures
        removing_by(reference, false, false, answers) == Ok::<Removing, Seq<char>>(Removing::Done),
        removing_by(reference, false, false, answers.take(2)) == Ok::<Removing, Seq<char>>(Removing::Teardown),
        removing_by(reference, false, false, answers.take(3)) == Ok::<Removing, Seq<char>>(Removing::Discard),
        removing_by(reference, false, false, answers.take(4)) == Ok::<Removing, Seq<char>>(Removing::Forget),
        removing_by(reference, false, true, answers.remove(2)) == Ok::<Removing, Seq<char>>(Removing::Done),
        removing_by(reference, true, false, answers.remove(1)) == Ok::<Removing, Seq<char>>(Removing::Done),
        removing_by(reference, true, true, answers.remove(1).remove(1)) == Ok::<Removing, Seq<char>>(Removing::Done),
{
    let all = answers;
    let quick = answers.remove(2);
    let forced = answers.remove(1);
    let both = forced.remove(1);
    let changes = answers[1]->Changes_0->Ok_0;
    assert(model::views(changes@).len() == 0);
    assert(all.take(0) =~= Seq::empty() && quick.take(0) =~= Seq::empty() && forced.take(0) =~= Seq::empty()
        && both.take(0) =~= Seq::empty());
    assert(quick[0] == all[0] && quick[1] == all[1] && quick[2] == all[3] && quick[3] == all[4]);
    assert(forced[0] == all[0] && forced[1] == all[2] && forced[2] == all[3] && forced[3] == all[4]);
    assert(both[0] == all[0] && both[1] == all[3] && both[2] == all[4]);
    assert(removing_by(reference, false, false, all.take(0)) == Ok::<Removing, Seq<char>>(Removing::Lookup));
    lemma_removing_step(reference, false, false, all, 0);
    lemma_removing_step(reference, false, false, all, 1);
    lemma_removing_step(reference, false, false, all, 2);
    lemma_removing_step(reference, false, false, all, 3);
    lemma_removing_step(reference, false, false, all, 4);
    model::whole(all);
    assert(removing_by(reference, false, true, quick.take(0)) == Ok::<Removing, Seq<char>>(Removing::Lookup));
    lemma_removing_step(reference, false, true, quick, 0);
    lemma_removing_step(reference, false, true, quick, 1);
    lemma_removing_step(reference, false, true, quick, 2);
    lemma_removing_step(reference, false, true, quick, 3);
    model::whole(quick);
    assert(removing_by(reference, true, false, forced.take(0)) == Ok::<Removing, Seq<char>>(Removing::Lookup));
    lemma_removing_step(reference, true, false, forced, 0);
    lemma_removing_step(reference, true, false, forced, 1);
    lemma_removing_step(reference, true, false, forced, 2);
    lemma_removing_step(reference, true, false, forced, 3);
    model::whole(forced);
    assert(removing_by(reference, true, true, both.take(0)) == Ok::<Removing, Seq<char>>(Removing::Lookup));
    lemma_removing_step(reference, true, true, both, 0);
    lemma_removing_step(reference, true, true, both, 1);
    lemma_removing_step(reference, true, true, both, 2);
    model::whole(both);
}

/// A worktree whose directory is gone only has its entries dropped, Git's and its record, with or
/// without force.
pub proof fn a_missing_worktree_is_forgotten(
    reference: Seq<char>,
    force: bool,
    skip_teardown: bool,
    answers: Seq<Answer>,
)
    requires
        answers.len() == 3,
        answers[0] matches Answer::Record(Ok(Some(_)), false),
        answers[1] matches Answer::Finished(Ok(_)),
        answers[2] matches Answer::Finished(Ok(_)),
    ensures
        removing_by(reference, force, skip_teardown, answers.take(1)) == Ok::<Removing, Seq<char>>(Removing::Prune),
        removing_by(reference, force, skip_teardown, answers.take(2)) == Ok::<Removing, Seq<char>>(Removing::Forget),
        removing_by(reference, force, skip_teardown, answers) == Ok::<Removing, Seq<char>>(Removing::Done),
{
    assert(answers.take(0) =~= Seq::empty());
    assert(removing_by(reference, force, skip_teardown, answers.take(0)) == Ok::<Removing, Seq<char>>(
        Removing::Lookup,
    ));
    lemma_removing_step(reference, force, skip_teardown, answers, 0);
    lemma_removing_step(reference, force, skip_teardown, answers, 1);
    lemma_removing_step(reference, force, skip_teardown, answers, 2);
    model::whole(answers);
}

/// What is refused, and why: a reference without a record, a change that would be lost, and whatever
/// a step itself failed for.
pub proof fn refused_removals_say_why(
    step: Removing,
    reference: Seq<char>,
    force: bool,
    skip_teardown: bool,
    answer: Answer,
)
    requires
        suits(step, answer),
    ensures
        answer matches Answer::Record(Ok(None), _) ==> removing_after(step, reference, force, skip_teardown, answer)
            == Err::<Removing, Seq<char>>("no managed worktree for "@ + reference),
        answer matches Answer::Record(Err(message), _) ==> removing_after(
            step,
            reference,
            force,
            skip_teardown,
            answer,
        ) == Err::<Removing, Seq<char>>(message@),
        answer matches Answer::Changes(Err(message)) ==> removing_after(step, reference, force, skip_teardown, answer)
            == Err::<Removing, Seq<char>>(message@),
        answer matches Answer::Changes(Ok(changes)) ==> (changes@.len() > 0 ==> removing_after(
            step,
            reference,
            force,
            skip_teardown,
            answer,
        ) == Err::<Removing, Seq<char>>(changes@[0]@)),
        answer matches Answer::Finished(Err(message)) ==> removing_after(
            step,
            reference,
            force,
            skip_teardown,
            answer,
        ) == Err::<Removing, Seq<char>>(message@),
{
    match answer {
        Answer::Changes(Ok(changes)) => {
            if changes@.len() > 0 {
                assert(model::views(changes@)[0] == changes@[0]@);
            }
        },
        _ => {},
    }
}

/// The arguments of `git` that remove a worktree.
pub fn remove_arguments(path: &str, force: bool) -> (r: Vec<String>)
    ensures
        model::views(r@) == if force {
            seq!["worktree"@, "remove"@, "--force"@, path@]
        } else {
            seq!["worktree"@, "remove"@, path@]
        },
{
    let mut arguments: Vec<String> = Vec::new();
    arguments.push("worktree".to_owned());
    arguments.push("remove".to_owned());
    if force {
        arguments.push("--force".to_owned());
    }
    arguments.push(path.to_owned());
    assert(model::views(arguments@) =~= if force {
        seq!["worktree"@, "remove"@, "--force"@, path@]
    } else {
        seq!["worktree"@, "remove"@, path@]
    });
    arguments
}

/// The record that a reference selects for removal: by number, else by branch.
pub fn find_removable(store: &Store, repository: &str, reference: &str) -> (r: Result<Option<Record>, String>)
    ensures
        state::outcome_record(r) == match text::number_upto(reference@, u64::MAX as nat) {
            Some(number) => state::record_under(store.files(), state::issue_name(repository@, number as u64)),
            None => state::branch_record(store.files(), repository@, reference@),
        },
{
    match text::parse_u64(reference) {
        Some(number) => store.find_issue(repository, number),
        None => store.find_branch(repository, reference),
    }
}

// ---------------------------------------------------------------------------
// Spellings and names
// ---------------------------------------------------------------------------

proof fn lemma_after(start: Seq<char>, rest: Seq<char>)
    ensures
        text::after_prefix(start + rest, start) == Some(rest),
{
    assert((start + rest).subrange(0, start.len() as int) =~= start);
    assert((start + rest).skip(start.len() as int) =~= rest);
}

proof fn lemma_two_pieces(owner: Seq<char>, name: Seq<char>)
    requires
        !owner.contains('/'),
        !name.contains('/'),
    ensures
        text::split(owner + "/"@ + name, '/') == seq![owner, name],
{
    reveal_strlit("/");
    let list = seq![owner, name];
    assert("/"@ =~= seq!['/']);
    assert(text::joined(list, seq!['/']) == owner + seq!['/'] + name) by {
        reveal_with_fuel(text::joined, 3);
        assert(list.drop_last() =~= seq![owner]);
    }
    crate::environment_laws::joined_pieces_are_split_again(list, '/');
}

proof fn lemma_slug(path: Seq<char>, owner: Seq<char>, name: Seq<char>, remote: Seq<char>)
    requires
        owner.len() > 0,
        name.len() > 0,
        !owner.contains('/'),
        !name.contains('/'),
        !".git"@.is_suffix_of(name),
        path == owner + "/"@ + name || path == owner + "/"@ + name + ".git"@ || path == owner + "/"@ + name + "/"@,
        github_path(remote) == Some(path),
    ensures
        slug_of(remote) == Ok::<Seq<char>, Seq<char>>(text::lower_text(owner + "/"@ + name)),
{
    reveal_strlit("/");
    reveal_strlit(".git");
    let slug = owner + "/"@ + name;
    let set = "/"@;
    let none = Seq::<char>::empty();
    assert(set[0] == '/' && set.len() == 1);
    assert(slug.last() == name.last());
    assert(name.contains(name.last()));
    lemma_two_pieces(owner, name);
    assert(!set.contains(name.last()));
    text::trimming_the_end_leaves_the_start(slug, none, set);
    assert(slug + none =~= slug);
    assert(set.contains(set[0]));
    text::trimming_the_end_leaves_the_start(slug, set, set);
    let ended = slug + ".git"@;
    assert(ended.last() == 't');
    assert(!set.contains('t'));
    text::trimming_the_end_leaves_the_start(ended, none, set);
    assert(ended + none =~= ended);
    assert(ended.subrange(slug.len() as int, ended.len() as int) =~= ".git"@);
    assert(ended.take(slug.len() as int) =~= slug);
    assert(!".git"@.is_suffix_of(slug)) by {
        if ".git"@.is_suffix_of(slug) {
            let tail = slug.subrange(slug.len() - 4, slug.len() as int);
            if name.len() >= 4 {
                assert(name.subrange(name.len() - 4, name.len() as int) =~= tail);
            } else {
                assert(tail[3 - name.len()] == '/');
            }
        }
    }
}

/// A GitHub repository is the same one over HTTPS and SSH, with or without `.git` or a slash at the
/// end, and in large or small letters.
pub proof fn every_remote_names_its_repository(owner: Seq<char>, name: Seq<char>)
    requires
        owner.len() > 0,
        name.len() > 0,
        !owner.contains('/'),
        !name.contains('/'),
        !".git"@.is_suffix_of(name),
    ensures
        ({
            let slug = owner + "/"@ + name;
            let named = Ok::<Seq<char>, Seq<char>>(text::lower_text(slug));
            &&& slug_of("https://github.com/"@ + slug) == named
            &&& slug_of("https://github.com/"@ + (slug + ".git"@)) == named
            &&& slug_of("https://github.com/"@ + (slug + "/"@)) == named
            &&& slug_of("git@github.com:"@ + slug) == named
            &&& slug_of("git@github.com:"@ + (slug + ".git"@)) == named
            &&& slug_of("ssh://git@github.com/"@ + slug) == named
            &&& slug_of("ssh://git@github.com/"@ + (slug + ".git"@)) == named
        }),
{
    let slug = owner + "/"@ + name;
    lemma_remotes(slug);
    lemma_remotes(slug + ".git"@);
    lemma_remotes(slug + "/"@);
    lemma_slug(slug, owner, name, "https://github.com/"@ + slug);
    lemma_slug(slug + ".git"@, owner, name, "https://github.com/"@ + (slug + ".git"@));
    lemma_slug(slug + "/"@, owner, name, "https://github.com/"@ + (slug + "/"@));
    lemma_slug(slug, owner, name, "git@github.com:"@ + slug);
    lemma_slug(slug + ".git"@, owner, name, "git@github.com:"@ + (slug + ".git"@));
    lemma_slug(slug, owner, name, "ssh://git@github.com/"@ + slug);
    lemma_slug(slug + ".git"@, owner, name, "ssh://git@github.com/"@ + (slug + ".git"@));
}

proof fn lemma_remotes(path: Seq<char>)
    ensures
        github_path("https://github.com/"@ + path) == Some(path),
        github_path("git@github.com:"@ + path) == Some(path),
        github_path("ssh://git@github.com/"@ + path) == Some(path),
{
    let https = "https://github.com/"@;
    let git = "git@github.com:"@;
    let ssh = "ssh://git@github.com/"@;
    reveal_strlit("https://github.com/");
    reveal_strlit("git@github.com:");
    reveal_strlit("ssh://git@github.com/");
    lemma_after(https, path);
    lemma_after(git, path);
    lemma_after(ssh, path);
    assert(https[0] == 'h' && git[0] == 'g' && ssh[0] == 's');
    if https.is_prefix_of(git + path) {
        assert((git + path).subrange(0, https.len() as int)[0] == 'g');
    }
    if https.is_prefix_of(ssh + path) {
        assert((ssh + path).subrange(0, https.len() as int)[0] == 's');
    }
    if git.is_prefix_of(ssh + path) {
        assert((ssh + path).subrange(0, git.len() as int)[0] == 's');
    }
}

/// A remote that is not on GitHub, or that names anything but an owner and a repository, has no
/// repository.
pub proof fn other_remotes_name_none(remote: Seq<char>)
    ensures
        !"https://github.com/"@.is_prefix_of(remote) && !"git@github.com:"@.is_prefix_of(remote)
            && !"ssh://git@github.com/"@.is_prefix_of(remote) ==> slug_of(remote) is Err,
        slug_of(remote) matches Ok(slug) ==> exists|owner: Seq<char>, name: Seq<char>|
            owner.len() > 0 && name.len() > 0 && !owner.contains('/') && !name.contains('/') && slug
                == text::lower_text(#[trigger] (owner + "/"@ + name)),
{
    if slug_of(remote) is Ok {
        let path = text::trimmed_end_of(github_path(remote)->0, "/"@);
        let slug = match text::before_suffix(path, ".git"@) {
            Some(slug) => slug,
            None => path,
        };
        let parts = text::split(slug, '/');
        text::split_then_join(slug, '/');
        assert(!parts[0].contains('/') && !parts[1].contains('/'));
        let owner = parts[0];
        let name = parts[1];
        assert(slug_of(remote)->Ok_0 == text::lower_text(owner + "/"@ + name));
    }
}

/// The first label that tells a kind decides how the branch of an issue begins, whatever labels come
/// after it and however it is written; without one it begins with `work`. The issue's number and the
/// slug of its title follow.
pub proof fn the_first_telling_label_decides(number: u64, title: Seq<char>, labels: Seq<Seq<char>>, k: int)
    ensures
        ({
            let rest = "/"@ + text::decimal(number as nat) + "-"@ + slug_text(title);
            &&& 0 <= k < labels.len() && (forall|i: int|
                0 <= i < k ==> kind_of_label(text::lower_text(#[trigger] labels[i])) is None) ==> {
                let label = text::lower_text(labels[k]);
                &&& label == "bug"@ || label == "type: bug"@ || label == "type/bug"@ ==> issue_branch(
                    number,
                    title,
                    labels,
                ) == "fix"@ + rest
                &&& label == "feature"@ || label == "enhancement"@ || label == "type: feature"@ ==> issue_branch(
                    number,
                    title,
                    labels,
                ) == "feat"@ + rest
                &&& label == "documentation"@ || label == "docs"@ ==> issue_branch(number, title, labels) == "docs"@
                    + rest
            }
            &&& (forall|i: int| 0 <= i < labels.len() ==> kind_of_label(text::lower_text(#[trigger] labels[i])) is None)
                ==> issue_branch(number, title, labels) == "work"@ + rest
        }),
{
    let f = kind_of();
    let rest = "/"@ + text::decimal(number as nat) + "-"@ + slug_text(title);
    if 0 <= k < labels.len() && (forall|i: int|
        0 <= i < k ==> kind_of_label(text::lower_text(#[trigger] labels[i])) is None) {
        assert forall|i: int| 0 <= i < k implies f(#[trigger] labels[i]) is None by {
            assert(kind_of_label(text::lower_text(labels[i])) is None);
        }
        lemma_labels_differ();
        if f(labels[k]) is Some {
            model::found_some(labels, f, k);
            let kind = f(labels[k])->0;
            assert(kind + "/"@ + text::decimal(number as nat) + "-"@ + slug_text(title) =~= kind + rest);
        }
    }
    if forall|i: int| 0 <= i < labels.len() ==> kind_of_label(text::lower_text(#[trigger] labels[i])) is None {
        assert forall|i: int| 0 <= i < labels.len() implies f(#[trigger] labels[i]) is None by {
            assert(kind_of_label(text::lower_text(labels[i])) is None);
        }
        model::found_none(labels, f);
        assert("work"@ + "/"@ + text::decimal(number as nat) + "-"@ + slug_text(title) =~= "work"@ + rest);
    }
}

proof fn lemma_labels_differ()
    ensures
        "feature"@ != "bug"@ && "feature"@ != "type: bug"@ && "feature"@ != "type/bug"@,
        "enhancement"@ != "bug"@ && "enhancement"@ != "type: bug"@ && "enhancement"@ != "type/bug"@,
        "type: feature"@ != "bug"@ && "type: feature"@ != "type: bug"@ && "type: feature"@ != "type/bug"@,
        "documentation"@ != "bug"@ && "documentation"@ != "type: bug"@ && "documentation"@ != "type/bug"@,
        "documentation"@ != "feature"@ && "documentation"@ != "enhancement"@ && "documentation"@ != "type: feature"@,
        "docs"@ != "bug"@ && "docs"@ != "type: bug"@ && "docs"@ != "type/bug"@,
        "docs"@ != "feature"@ && "docs"@ != "enhancement"@ && "docs"@ != "type: feature"@,
{
    reveal_strlit("bug");
    reveal_strlit("type: bug");
    reveal_strlit("type/bug");
    reveal_strlit("feature");
    reveal_strlit("enhancement");
    reveal_strlit("type: feature");
    reveal_strlit("documentation");
    reveal_strlit("docs");
    assert("bug"@.len() == 3 && "type: bug"@.len() == 9 && "type/bug"@.len() == 8);
    assert("feature"@.len() == 7 && "enhancement"@.len() == 11 && "docs"@.len() == 4);
    assert("documentation"@.len() == 13 && "type: feature"@.len() == 13);
    assert("documentation"@[0] == 'd' && "type: feature"@[0] == 't');
}

/// The short name of a repository is what stands behind its owner.
pub proof fn repositories_are_called_by_their_names(owner: Seq<char>, name: Seq<char>)
    requires
        !owner.contains('/'),
        !name.contains('/'),
    ensures
        short_name(owner + "/"@ + name) == name,
{
    lemma_two_pieces(owner, name);
}

/// A branch target is taken as Git spells it: a reference that is no number and no address is a
/// branch exactly where Git accepts it and prints it back unchanged.
pub proof fn branches_are_what_git_accepts(reference: Seq<char>, repository: Seq<char>, check: Output)
    requires
        text::number_upto(reference, u64::MAX as nat) is None,
        !"https://github.com/"@.is_prefix_of(reference),
    ensures
        target_of(reference, repository, check) is Ok <==> check.code == Some(0i32) && vstd::utf8::valid_utf8(
            check.stdout@,
        ) && text::trimmed(vstd::utf8::decode_utf8(check.stdout@)) == reference,
        target_of(reference, repository, check) matches Ok(target) ==> target == Target::Branch(reference),
{
}

/// A line for scripts holds the issue, or a hyphen where there is none, the branch and the path,
/// apart by tabs.
pub proof fn lines_for_scripts_hold_three_fields(record: RecordData)
    requires
        !record.branch.contains('\t'),
        !record.path.contains('\t'),
    ensures
        text::split(porcelain_line()(record), '\t') == seq![
            match record.issue {
                Some(number) => text::decimal(number as nat),
                None => "-"@,
            },
            record.branch,
            record.path,
        ],
{
    reveal_strlit("\t");
    reveal_strlit("-");
    let first = match record.issue {
        Some(number) => text::decimal(number as nat),
        None => "-"@,
    };
    assert(!first.contains('\t')) by {
        if first.contains('\t') {
            let i = choose|i: int| 0 <= i < first.len() && first[i] == '\t';
            match record.issue {
                Some(number) => {
                    text::lemma_decimal(number as nat);
                    assert(text::is_ascii_digit(first[i]));
                },
                None => {},
            }
        }
    }
    let list = seq![first, record.branch, record.path];
    assert("\t"@ =~= seq!['\t']);
    assert(text::joined(list, seq!['\t']) == porcelain_line()(record)) by {
        reveal_with_fuel(text::joined, 4);
        assert(list.drop_last() =~= seq![first, record.branch]);
        assert(list.drop_last().drop_last() =~= seq![first]);
    }
    crate::environment_laws::joined_pieces_are_split_again(list, '\t');
}

/// The list shows the branch that is checked out, and the managed one beside it where they differ:
/// only a worktree whose directory exists and whose HEAD is readable shows a branch of its own.
pub proof fn the_branch_shown_is_the_one_checked_out(branch: Seq<char>, present: bool, output: Output, current: Seq<char>)
    requires
        current == text::trimmed(text::lossy_text(output.stdout@)),
    ensures
        present && output.code == Some(0i32) && current != "HEAD"@ && current == branch ==> branch_shown(
            branch,
            present,
            Some(output),
        ) == branch,
        present && output.code == Some(0i32) && current != "HEAD"@ && current != branch ==> branch_shown(
            branch,
            present,
            Some(output),
        ) == current + " (managed: "@ + branch + ")"@,
        present && output.code == Some(0i32) && current == "HEAD"@ && branch != "(detached)"@ ==> branch_shown(
            branch,
            present,
            Some(output),
        ) == "(detached) (managed: "@ + branch + ")"@,
        !present && branch != "(missing)"@ ==> branch_shown(branch, present, Some(output)) == "(missing) (managed: "@
            + branch + ")"@,
        present && output.code != Some(0i32) && branch != "(unavailable)"@ ==> branch_shown(
            branch,
            present,
            Some(output),
        ) == "(unavailable) (managed: "@ + branch + ")"@,
{
    reveal_strlit("(detached)");
    reveal_strlit("(missing)");
    reveal_strlit("(unavailable)");
    reveal_strlit(" (managed: ");
    reveal_strlit("(detached) (managed: ");
    reveal_strlit("(missing) (managed: ");
    reveal_strlit("(unavailable) (managed: ");
    assert("(detached)"@ + " (managed: "@ =~= "(detached) (managed: "@);
    assert("(missing)"@ + " (managed: "@ =~= "(missing) (managed: "@);
    assert("(unavailable)"@ + " (managed: "@ =~= "(unavailable) (managed: "@);
}

/// A new branch starts from the remote's base wherever that could be fetched; where the remote does
/// not have it, from the local one; otherwise nothing is started.
pub proof fn a_fetched_base_is_used(base: Seq<char>, fetched: Result<(), Seq<char>>, listed: Output, local: bool)
    ensures
        fetched is Ok ==> start_of(base, fetched, listed, local) == Ok::<Seq<char>, Seq<char>>("origin/"@ + base),
        fetched is Err && listed.code == Some(2i32) && local ==> start_of(base, fetched, listed, local) == Ok::<
            Seq<char>,
            Seq<char>,
        >(base),
        fetched is Err && (listed.code != Some(2i32) || !local) ==> start_of(base, fetched, listed, local) is Err,
{
}

/// Commands that are not used need no trust: without a teardown, a setup command that is skipped or
/// missing is no reason to ask.
pub proof fn unused_commands_need_no_trust(
    trusted: Seq<(Seq<char>, Seq<char>)>,
    repository: Seq<char>,
    settings: config::Settings,
    hash: Option<Seq<char>>,
    no_bootstrap: bool,
)
    requires
        settings.teardown is None,
        settings.bootstrap is None || no_bootstrap,
    ensures
        trust_given(trusted, repository, settings, hash, no_bootstrap),
{
}

/// Trusted commands may be used, by the fingerprint that was trusted in the repository.
pub proof fn trusted_commands_may_be_used(
    trusted: Seq<(Seq<char>, Seq<char>)>,
    repository: Seq<char>,
    settings: config::Settings,
    hash: Seq<char>,
    no_bootstrap: bool,
)
    requires
        state::trusts(trusted, repository, hash),
    ensures
        trust_given(trusted, repository, settings, Some(hash), no_bootstrap),
{
}

/// A branch that exists here is checked out as it is, one that only the remote has is tracked, and
/// otherwise nothing is checked out.
pub proof fn existing_branches_are_checked_out(plan: PlanData, local: bool, remote: bool)
    ensures
        checkout_arguments(plan, local, remote) is None <==> !local && !remote,
        checkout_arguments(plan, local, remote) matches Some(arguments) ==> {
            &&& arguments[0] == "worktree"@ && arguments[1] == "add"@
            &&& arguments.contains(plan.path)
            &&& arguments.contains(plan.branch)
            &&& !local ==> arguments.contains("--track"@) && arguments.last() == "origin/"@ + plan.branch
            &&& local ==> arguments.len() == 4
        },
{
    if local {
        let arguments = checkout_arguments(plan, local, remote)->0;
        assert(arguments[2] == plan.path && arguments[3] == plan.branch);
    } else if remote {
        let arguments = checkout_arguments(plan, local, remote)->0;
        assert(arguments[2] == "--track"@ && arguments[4] == plan.branch && arguments[5] == plan.path);
    }
}

/// Umlauts and the sharp s are spelled out in a slug; letters and digits stay; whatever else stands
/// between them becomes one hyphen, and none stands at the start.
pub proof fn slugs_spell_characters_out(slug: Seq<char>, c: char)
    ensures
        slug_with(slug, 'ä') == slug + "ae"@,
        slug_with(slug, 'ö') == slug + "oe"@,
        slug_with(slug, 'ü') == slug + "ue"@,
        slug_with(slug, 'ß') == slug + "ss"@,
        ('a' <= c && c <= 'z') || ('A' <= c && c <= 'Z') || ('0' <= c && c <= '9') ==> slug_with(slug, c) == slug.push(c),
        !(('a' <= c && c <= 'z') || ('A' <= c && c <= 'Z') || ('0' <= c && c <= '9')) && c != 'ä' && c != 'ö' && c
            != 'ü' && c != 'ß' ==> slug_with(slug, c) == if slug.len() == 0 || slug.last() == '-' {
            slug
        } else {
            slug.push('-')
        },
{
}

/// A slug takes up the characters of the title in order until it is long enough, and is not cut in
/// the middle of one.
pub proof fn slugs_grow_until_they_are_long_enough(slug: Seq<char>, c: char, rest: Seq<char>)
    ensures
        slug_with(slug, c).len() < 48 ==> slug_from(slug, seq![c] + rest) == slug_from(slug_with(slug, c), rest),
        slug_with(slug, c).len() >= 48 ==> slug_from(slug, seq![c] + rest) == slug_with(slug, c),
        slug_from(slug, Seq::empty()) == slug,
{
    let all = seq![c] + rest;
    assert(all.drop_first() =~= rest);
    assert(all[0] == c);
}

/// A worktree's directory stands below the root, in the directory of its repository, and is called
/// after its branch, with hyphens in place of slashes.
pub proof fn worktrees_stand_below_the_root(
    root: Seq<char>,
    owner: Seq<char>,
    name: Seq<char>,
    issue: Option<u64>,
    branch: Seq<char>,
)
    requires
        !owner.contains('/'),
        name.len() > 0,
        !name.contains('/'),
        paths::is_normal(name),
        branch.len() > 0,
        branch != paths::current(),
        branch != paths::up(),
    ensures
        ({
            let plan = plan_of(root, owner + "/"@ + name, issue, branch);
            let flat = branch.map_values(
                |c: char|
                    if c == '/' {
                        '-'
                    } else {
                        c
                    },
            );
            &&& plan.branch == branch
            &&& plan.issue == issue
            &&& paths::components(plan.path) == paths::components(root).push(name).push(flat)
            &&& paths::lies_in(plan.path, root)
        }),
{
    reveal_strlit("/");
    reveal_strlit("-");
    repositories_are_called_by_their_names(owner, name);
    let plan = plan_of(root, owner + "/"@ + name, issue, branch);
    let flat = branch.map_values(
        |c: char|
            if c == '/' {
                '-'
            } else {
                c
            },
    );
    assert("/"@ =~= seq!['/']);
    assert("-"@ =~= seq!['-']);
    text::characters_are_replaced_in_place(branch, '/', '-');
    assert(text::replaced(branch, "/"@, "-"@) =~= flat);
    assert(!flat.contains('/')) by {
        if flat.contains('/') {
            let i = choose|i: int| 0 <= i < flat.len() && flat[i] == '/';
            assert(flat[i] != '/');
        }
    }
    assert(paths::is_normal(flat)) by {
        if flat == paths::root() {
            assert(flat[0] == '/');
            assert(flat.contains(flat[0]));
        }
        if flat == paths::current() {
            assert(flat[0] == '.');
            assert(branch =~= paths::current());
        }
        if flat == paths::up() {
            assert(flat[0] == '.' && flat[1] == '.');
            assert(branch =~= paths::up());
        }
    }
    paths::a_joined_name_lies_in_its_directory(root, name);
    let directory = paths::joined(root, name);
    paths::a_joined_name_lies_in_its_directory(directory, flat);
    let all = paths::components(plan.path);
    assert(paths::components(root) =~= all.subrange(0, paths::components(root).len() as int));
}

/// A worktree may be reused exactly where its directory exists and its record is of the branch, in
/// the repository however its name is written; its issue and its path do not matter.
pub proof fn worktrees_are_reused_by_branch(
    record: RecordData,
    other: RecordData,
    present: bool,
    repository: Seq<char>,
    branch: Seq<char>,
)
    requires
        text::lower_text(record.repository) == text::lower_text(repository),
        other.repository == record.repository,
        other.branch == record.branch,
    ensures
        is_reusable(record, present, repository, record.branch) == present,
        is_reusable(record, present, repository, branch) == is_reusable(other, present, repository, branch),
        branch != record.branch ==> !is_reusable(record, present, repository, branch),
{
}

} // verus!
