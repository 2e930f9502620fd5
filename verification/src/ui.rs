//! What is shown on the terminal: tables, progress lines and prompts, as text.

use vstd::prelude::*;

use crate::model;
use crate::paths;
use crate::text;

verus! {

broadcast use crate::model::lemma_views_push;

/// What is known of the terminal: whether each stream is one, whether it is a dumb one, whether
/// colors are unwanted, and how wide it is.
pub struct Screen {
    pub stdout: bool,
    pub stderr: bool,
    pub dumb: bool,
    pub no_color: bool,
    pub width: usize,
}

impl Screen {
    pub open spec fn is_interactive(&self) -> bool {
        self.stderr && !self.dumb
    }

    /// Text in a style, where styles are shown.
    pub open spec fn styled(&self, s: Seq<char>, code: u8) -> Seq<char> {
        if !self.is_interactive() || self.no_color {
            s
        } else {
            "\x1b["@ + text::decimal(code as nat) + "m"@ + s + "\x1b[0m"@
        }
    }

    /// Text in a style on standard output.
    pub open spec fn stdout_styled(&self, s: Seq<char>, code: u8) -> Seq<char> {
        if self.stdout {
            self.styled(s, code)
        } else {
            s
        }
    }

    pub fn interactive(&self) -> (r: bool)
        ensures
            r == self.is_interactive(),
    {
        self.stderr && !self.dumb
    }

    pub fn style(&self, s: &str, code: u8) -> (r: String)
        ensures
            r@ == self.styled(s@, code),
    {
        if !self.interactive() || self.no_color {
            return s.to_owned();
        }
        let mut out = text::concat3("\x1b[", &text::to_decimal(code as u64), "m");
        out.append(s);
        out.append("\x1b[0m");
        out
    }

    pub fn stdout_style(&self, s: &str, code: u8) -> (r: String)
        ensures
            r@ == self.stdout_styled(s@, code),
    {
        if self.stdout {
            self.style(s, code)
        } else {
            s.to_owned()
        }
    }
}

/// The width of a terminal: its own, else the one that `COLUMNS` asks for, else 140.
pub open spec fn width_of(terminal: Option<u16>, columns: Option<Seq<char>>) -> usize {
    match terminal {
        Some(width) => width as usize,
        None => match columns {
            Some(columns) => match text::number_upto(columns, usize::MAX as nat) {
                Some(width) => width as usize,
                None => 140,
            },
            None => 140,
        },
    }
}

pub fn terminal_width(terminal: Option<u16>, columns: Option<&str>) -> (r: usize)
    ensures
        r == width_of(terminal, model::opt_str(columns)),
{
    match terminal {
        Some(width) => width as usize,
        None => match columns {
            Some(columns) => match text::parse_u64(columns) {
                Some(width) => {
                    if width <= usize::MAX as u64 {
                        width as usize
                    } else {
                        140
                    }
                },
                None => 140,
            },
            None => 140,
        },
    }
}

// ---------------------------------------------------------------------------
// Widths
// ---------------------------------------------------------------------------

/// The number of terminal columns that a text takes, by `console::measure_text_width`.
pub uninterp spec fn text_width(s: Seq<char>) -> nat;

/// Whether a text consists of printable ASCII characters and ellipses, which take one column each.
pub open spec fn simple(s: Seq<char>) -> bool {
    forall|i: int| 0 <= i < s.len() ==> (' ' <= #[trigger] s[i] && s[i] <= '~') || s[i] == '…'
}

/// Measures a text with `console::measure_text_width`. The width is named; stated of it is only
/// that a text of printable ASCII characters and ellipses is as wide as it is long. How escape
/// sequences and wide characters count is left unsaid.
#[verifier::external_body]
fn measure_text_width(s: &str) -> (r: usize)
    ensures
        r == text_width(s@),
        simple(s@) ==> r == s@.len(),
{
    console::measure_text_width(s)
}

/// A text shortened to a number of terminal columns, by `console::truncate_str`.
pub uninterp spec fn shortened(s: Seq<char>, width: nat, tail: Seq<char>) -> Seq<char>;

/// Shortens a text with `console::truncate_str`. The result is named; stated of it is that a text
/// that is not too wide stays as it is, and that a wider one of printable ASCII characters and
/// ellipses is cut so that the tail, which follows it, fits into the width, or nothing is left of
/// it. Where a text with escape sequences or wide characters is cut is left unsaid.
#[verifier::external_body]
fn truncate_str(s: &str, width: usize, tail: &str) -> (r: String)
    ensures
        r@ == shortened(s@, width as nat, tail@),
        text_width(s@) <= width ==> r@ == s@,
        simple(s@) && s@.len() <= width ==> r@ == s@,
        simple(s@) && simple(tail@) && s@.len() > width ==> r@ == s@.take(
            less_by(width as nat, tail@.len()) as int,
        ) + tail@,
{
    console::truncate_str(s, width, tail).into_owned()
}

/// A character repeated.
pub open spec fn repeated(c: char, n: nat) -> Seq<char> {
    Seq::new(n, |i: int| c)
}

pub fn repeat(c: char, n: usize) -> (r: String)
    ensures
        r@ == repeated(c, n as nat),
{
    let mut out = String::new();
    for i in 0..n
        invariant
            out@ == repeated(c, i as nat),
    {
        out.push(c);
        assert(out@ =~= repeated(c, (i + 1) as nat));
    }
    out
}

/// A number less another one, zero where it would be less.
pub open spec fn less_by(a: nat, b: nat) -> nat {
    if a >= b {
        (a - b) as nat
    } else {
        0
    }
}

/// The greater of two numbers.
pub open spec fn at_least(a: nat, b: nat) -> nat {
    if a >= b {
        a
    } else {
        b
    }
}

/// The smaller of two numbers.
pub open spec fn at_most(a: nat, b: nat) -> nat {
    if a <= b {
        a
    } else {
        b
    }
}

// ---------------------------------------------------------------------------
// Tables
// ---------------------------------------------------------------------------

/// A row of a table: the issue, the branch, and a detail.
pub type Row = (Option<u64>, String, String);

pub open spec fn row_views(rows: Seq<Row>) -> Seq<(Option<u64>, Seq<char>, Seq<char>)> {
    rows.map_values(|r: Row| (r.0, r.1@, r.2@))
}

/// How an issue is shown.
pub open spec fn issue_label(issue: Option<u64>) -> Seq<char> {
    match issue {
        Some(number) => "#"@ + text::decimal(number as nat),
        None => "-"@,
    }
}

fn label_of(issue: Option<u64>) -> (r: String)
    ensures
        r@ == issue_label(issue),
{
    match issue {
        Some(number) => text::concat("#", &text::to_decimal(number)),
        None => "-".to_owned(),
    }
}

/// A text on one line.
pub open spec fn flattened(s: Seq<char>) -> Seq<char> {
    s.map_values(|c: char|
        if c == '\n' || c == '\r' || c == '\t' {
            ' '
        } else {
            c
        })
}

fn flatten(s: &str) -> (r: String)
    ensures
        r@ == flattened(s@),
{
    let source = text::chars(s);
    let mut out = String::new();
    for i in 0..source.len()
        invariant
            source@ == s@,
            out@ == flattened(s@).take(i as int),
    {
        let c = source[i];
        proof {
            model::step(flattened(s@), i as int);
        }
        if c == '\n' || c == '\r' || c == '\t' {
            out.push(' ');
        } else {
            out.push(c);
        }
    }
    proof {
        model::whole(flattened(s@));
    }
    out
}

/// A value in a column: on one line, shortened to the width, and filled up with spaces.
pub open spec fn cell(value: Seq<char>, width: nat) -> Seq<char> {
    let shown = shortened(flattened(value), width, "…"@);
    shown + repeated(' ', less_by(width, text_width(shown)))
}

fn cell_of(value: &str, width: usize) -> (r: String)
    ensures
        r@ == cell(value@, width as nat),
        simple(value@) ==> r@ == padded(plain_cut(value@, width as nat), width as nat),
{
    proof {
        reveal_strlit("…");
        if simple(value@) {
            lemma_simple_flat(value@);
            lemma_simple_cut(value@, width as nat);
        }
    }
    let shown = truncate_str(&flatten(value), width, "…");
    let taken: usize = measure_text_width(&shown);
    let fill: usize = if width >= taken {
        width - taken
    } else {
        0
    };
    text::concat(&shown, &repeat(' ', fill))
}

/// The widest of the issue labels, with room for the heading.
pub open spec fn issue_width(rows: Seq<(Option<u64>, Seq<char>, Seq<char>)>) -> nat
    decreases rows.len(),
{
    if rows.len() == 0 {
        5
    } else {
        at_least(issue_width(rows.drop_last()), issue_label(rows.last().0).len())
    }
}

/// The widest of the branches, with room for the heading.
pub open spec fn branch_need(rows: Seq<(Option<u64>, Seq<char>, Seq<char>)>) -> nat
    decreases rows.len(),
{
    if rows.len() == 0 {
        6
    } else {
        at_least(branch_need(rows.drop_last()), text_width(rows.last().1))
    }
}

/// The widest of the details, with room for the heading.
pub open spec fn detail_need(rows: Seq<(Option<u64>, Seq<char>, Seq<char>)>, heading: Seq<char>) -> nat
    decreases rows.len(),
{
    if rows.len() == 0 {
        vstd::utf8::encode_utf8(heading).len()
    } else {
        at_least(detail_need(rows.drop_last(), heading), text_width(rows.last().2))
    }
}

/// The widths of the three columns.
pub ghost struct Columns {
    pub issue: nat,
    pub branch: nat,
    pub detail: nat,
}

/// The columns share the width of the terminal: the branches get at most half of what the issues
/// and the dividers leave, the details the rest.
pub open spec fn columns(rows: Seq<(Option<u64>, Seq<char>, Seq<char>)>, heading: Seq<char>, width: nat) -> Columns {
    let issue = issue_width(rows);
    let available = less_by(width, issue + 6);
    let branch = at_most(branch_need(rows), available / 2);
    Columns { issue, branch, detail: at_most(detail_need(rows, heading), less_by(available, branch)) }
}

/// The three columns and the dividers between them fit into the terminal, where it is wide enough
/// for the issues and the dividers.
pub proof fn columns_fit(rows: Seq<(Option<u64>, Seq<char>, Seq<char>)>, heading: Seq<char>, width: nat)
    requires
        issue_width(rows) + 6 <= width,
    ensures
        ({
            let c = columns(rows, heading, width);
            c.issue + 3 + c.branch + 3 + c.detail <= width
        }),
{
}

/// Whether every character of the branches and the details takes one column.
pub open spec fn plain_rows(rows: Seq<(Option<u64>, Seq<char>, Seq<char>)>) -> bool {
    forall|i: int| 0 <= i < rows.len() ==> simple((#[trigger] rows[i]).1) && simple(rows[i].2)
}

/// The longest of the branches, with room for the heading.
pub open spec fn longest_branch(rows: Seq<(Option<u64>, Seq<char>, Seq<char>)>) -> nat
    decreases rows.len(),
{
    if rows.len() == 0 {
        6
    } else {
        at_least(longest_branch(rows.drop_last()), rows.last().1.len())
    }
}

/// The longest of the details, with room for the heading.
pub open spec fn longest_detail(rows: Seq<(Option<u64>, Seq<char>, Seq<char>)>, heading: Seq<char>) -> nat
    decreases rows.len(),
{
    if rows.len() == 0 {
        vstd::utf8::encode_utf8(heading).len()
    } else {
        at_least(longest_detail(rows.drop_last(), heading), rows.last().2.len())
    }
}

/// The widths of the columns where every character takes one.
pub open spec fn plain_columns(rows: Seq<(Option<u64>, Seq<char>, Seq<char>)>, heading: Seq<char>, width: nat) -> Columns {
    let issue = issue_width(rows);
    let available = less_by(width, issue + 6);
    let branch = at_most(longest_branch(rows), available / 2);
    Columns { issue, branch, detail: at_most(longest_detail(rows, heading), less_by(available, branch)) }
}

/// A value filled up with spaces.
pub open spec fn padded(value: Seq<char>, width: nat) -> Seq<char> {
    value + repeated(' ', less_by(width, value.len()))
}

/// A value cut to a width, with an ellipsis in the place of what is missing.
pub open spec fn plain_cut(value: Seq<char>, width: nat) -> Seq<char> {
    if value.len() <= width {
        value
    } else {
        value.take(less_by(width, 1) as int) + "…"@
    }
}

/// A detail in the last column; a path that is too long is shown without its parent.
pub open spec fn plain_detail(detail: Seq<char>, heading: Seq<char>, width: nat) -> Seq<char> {
    plain_cut(
        if heading == "PATH"@ && detail.len() > width {
            match text::cut_last(detail, "/"@) {
                Some((_, name)) => "…/"@ + name,
                None => detail,
            }
        } else {
            detail
        },
        width,
    )
}

/// What follows the issue in a row.
pub open spec fn plain_rest(row: (Option<u64>, Seq<char>, Seq<char>), heading: Seq<char>, c: Columns) -> Seq<char> {
    " | "@ + padded(plain_cut(row.1, c.branch), c.branch) + " | "@ + plain_detail(row.2, heading, c.detail)
}

/// A row without links.
pub open spec fn plain_row(row: (Option<u64>, Seq<char>, Seq<char>), heading: Seq<char>, c: Columns) -> Seq<char> {
    padded(issue_label(row.0), c.issue) + plain_rest(row, heading, c)
}

/// The line of the headings, without colours.
pub open spec fn plain_heading(heading: Seq<char>, c: Columns) -> Seq<char> {
    padded("ISSUE"@, c.issue) + " | "@ + padded(plain_cut("BRANCH"@, c.branch), c.branch) + " | "@ + heading
}

/// The lines of a table fit into the terminal, and their dividers stand below each other, where it
/// is wide enough for the issues, the dividers and one character of each other column; the line of
/// the headings does where its last one fits into its column.
pub proof fn plain_rows_fit_and_align(
    rows: Seq<(Option<u64>, Seq<char>, Seq<char>)>,
    heading: Seq<char>,
    width: nat,
    i: int,
)
    requires
        0 <= i < rows.len(),
        issue_width(rows) + 8 <= width,
        heading.len() > 0,
    ensures
        ({
            let c = plain_columns(rows, heading, width);
            let line = plain_row(rows[i], heading, c);
            let head = plain_heading(heading, c);
            let first = c.issue as int;
            let second = c.issue as int + 3 + c.branch;
            &&& line.len() <= width
            &&& line.subrange(first, first + 3) == " | "@
            &&& line.subrange(second, second + 3) == " | "@
            &&& head.subrange(first, first + 3) == " | "@
            &&& head.subrange(second, second + 3) == " | "@
            &&& heading.len() <= c.detail ==> head.len() <= width
        }),
{
    let c = plain_columns(rows, heading, width);
    let line = plain_row(rows[i], heading, c);
    let head = plain_heading(heading, c);
    let first = c.issue as int;
    let second = c.issue as int + 3 + c.branch;
    reveal_strlit(" | ");
    reveal_strlit("…");
    reveal_strlit("ISSUE");
    reveal_strlit("BRANCH");
    lemma_label_fits(rows, i);
    lemma_issue_width(rows);
    lemma_needs(rows, heading);
    assert(padded(issue_label(rows[i].0), c.issue).len() == c.issue);
    assert(padded(plain_cut(rows[i].1, c.branch), c.branch).len() == c.branch);
    assert(padded("ISSUE"@, c.issue).len() == c.issue);
    assert(padded(plain_cut("BRANCH"@, c.branch), c.branch).len() == c.branch);
    assert(plain_detail(rows[i].2, heading, c.detail).len() <= c.detail);
    assert(line.subrange(first, first + 3) =~= " | "@);
    assert(line.subrange(second, second + 3) =~= " | "@);
    assert(head.subrange(first, first + 3) =~= " | "@);
    assert(head.subrange(second, second + 3) =~= " | "@);
}

proof fn lemma_issue_width(rows: Seq<(Option<u64>, Seq<char>, Seq<char>)>)
    ensures
        issue_width(rows) >= 5,
    decreases rows.len(),
{
    if rows.len() > 0 {
        lemma_issue_width(rows.drop_last());
    }
}

/// The columns of branches and details are not empty.
proof fn lemma_needs(rows: Seq<(Option<u64>, Seq<char>, Seq<char>)>, heading: Seq<char>)
    requires
        heading.len() > 0,
    ensures
        longest_branch(rows) >= 6,
        longest_detail(rows, heading) >= 1,
    decreases rows.len(),
{
    if rows.len() > 0 {
        lemma_needs(rows.drop_last(), heading);
    } else {
        let bytes = vstd::utf8::encode_utf8(heading);
        if bytes.len() == 0 {
            vstd::utf8::encode_utf8_decode_utf8(heading);
            vstd::utf8::encode_utf8_decode_utf8(Seq::<char>::empty());
            assert(bytes =~= vstd::utf8::encode_utf8(Seq::<char>::empty()));
        }
    }
}

proof fn lemma_label_fits(rows: Seq<(Option<u64>, Seq<char>, Seq<char>)>, i: int)
    requires
        0 <= i < rows.len(),
    ensures
        issue_label(rows[i].0).len() <= issue_width(rows),
    decreases rows.len(),
{
    if i < rows.len() - 1 {
        lemma_label_fits(rows.drop_last(), i);
        assert(rows.drop_last()[i] == rows[i]);
    }
}

/// A text of such characters is on one line already.
proof fn lemma_simple_flat(s: Seq<char>)
    requires
        simple(s),
    ensures
        flattened(s) == s,
{
    assert forall|i: int| 0 <= i < s.len() implies flattened(s)[i] == s[i] by {
        assert((' ' <= s[i] && s[i] <= '~') || s[i] == '…');
    }
    assert(flattened(s) =~= s);
}

/// Cutting such a text leaves one.
proof fn lemma_simple_cut(s: Seq<char>, width: nat)
    requires
        simple(s),
    ensures
        simple(plain_cut(s, width)),
        simple("…"@),
        "…"@.len() == 1,
{
    reveal_strlit("…");
    let cut = plain_cut(s, width);
    assert forall|i: int| 0 <= i < cut.len() implies (' ' <= #[trigger] cut[i] && cut[i] <= '~') || cut[i]
        == '…' by {
        if cut.len() != s.len() || cut != s {
            let n = less_by(width, 1);
            if s.len() > width && i < n {
                assert(cut[i] == s[i]);
            } else if s.len() <= width {
                assert(cut[i] == s[i]);
            }
        } else {
            assert(cut[i] == s[i]);
        }
    }
}

/// Whether a repository may stand in a link.
pub open spec fn linkable(repository: Seq<char>) -> bool {
    forall|i: int|
        0 <= i < repository.len() ==> text::is_ascii_alphanumeric(#[trigger] repository[i]) || repository[i] == '/'
            || repository[i] == '-' || repository[i] == '_' || repository[i] == '.'
}

fn is_linkable(repository: &str) -> (r: bool)
    ensures
        r == linkable(repository@),
{
    let source = text::chars(repository);
    for i in 0..source.len()
        invariant
            source@ == repository@,
            forall|k: int|
                0 <= k < i ==> text::is_ascii_alphanumeric(#[trigger] repository@[k]) || repository@[k] == '/'
                    || repository@[k] == '-' || repository@[k] == '_' || repository@[k] == '.',
    {
        let c = source[i];
        assert(repository@[i as int] == c);
        if !(text::ascii_alphanumeric(c) || c == '/' || c == '-' || c == '_' || c == '.') {
            return false;
        }
    }
    true
}

/// The first column of a row: the issue, as a link where links are shown.
pub open spec fn issue_cell(screen: Screen, repository: Seq<char>, issue: Option<u64>, width: nat, links: bool) -> Seq<
    char,
> {
    let label = issue_label(issue);
    let padding = repeated(' ', less_by(width, label.len()));
    match issue {
        Some(number) => if links {
            "\x1b]8;;https://github.com/"@ + repository + "/issues/"@ + text::decimal(number as nat) + "\x1b\\"@
                + screen.stdout_styled(screen.stdout_styled(label, 34), 4) + "\x1b]8;;\x1b\\"@ + padding
        } else {
            label + padding
        },
        None => label + padding,
    }
}

fn issue_cell_of(screen: &Screen, repository: &str, issue: Option<u64>, width: usize, links: bool) -> (r: String)
    ensures
        r@ == issue_cell(*screen, repository@, issue, width as nat, links),
{
    let label = label_of(issue);
    let length: usize = text::chars(&label).len();
    let padding = repeat(
        ' ',
        if width >= length {
            width - length
        } else {
            0
        },
    );
    match issue {
        Some(number) => {
            if links {
                let mut out = text::concat3("\x1b]8;;https://github.com/", repository, "/issues/");
                out.append(&text::to_decimal(number));
                out.append("\x1b\\");
                out.append(&screen.stdout_style(&screen.stdout_style(&label, 34), 4));
                out.append("\x1b]8;;\x1b\\");
                out.append(&padding);
                out
            } else {
                text::concat(&label, &padding)
            }
        },
        None => text::concat(&label, &padding),
    }
}

/// The last column of a row; a path that is too wide is shown without its parent.
pub open spec fn detail_cell(detail: Seq<char>, heading: Seq<char>, width: nat) -> Seq<char> {
    let shown = if heading == "PATH"@ && text_width(detail) > width {
        match text::cut_last(detail, "/"@) {
            Some((_, name)) => "…/"@ + name,
            None => detail,
        }
    } else {
        detail
    };
    shortened(flattened(shown), width, "…"@)
}

fn detail_cell_of(detail: &str, heading: &str, width: usize) -> (r: String)
    ensures
        r@ == detail_cell(detail@, heading@, width as nat),
        simple(detail@) ==> r@ == plain_detail(detail@, heading@, width as nat),
{
    proof {
        reveal_strlit("/");
        reveal_strlit("…");
        reveal_strlit("…/");
    }
    let shown = if text::same(heading, "PATH") && measure_text_width(detail) > width {
        match text::rsplit_once(detail, "/") {
            Some((_, name)) => text::concat("…/", &name),
            None => detail.to_owned(),
        }
    } else {
        detail.to_owned()
    };
    proof {
        if simple(detail@) {
            assert forall|i: int| 0 <= i < shown@.len() implies (' ' <= #[trigger] shown@[i] && shown@[i] <= '~')
                || shown@[i] == '…' by {
                if shown@ != detail@ {
                    text::lemma_last_at(detail@, "/"@);
                    let at = text::last_at(detail@, "/"@)->0;
                    if i >= 2 {
                        assert(shown@[i] == detail@[at + 1 + i - 2]);
                    }
                } else {
                    assert(shown@[i] == detail@[i]);
                }
            }
            lemma_simple_flat(shown@);
            lemma_simple_cut(shown@, width as nat);
        }
    }
    truncate_str(&flatten(&shown), width, "…")
}

/// A row of the table.
pub open spec fn row_line(
    screen: Screen,
    repository: Seq<char>,
    heading: Seq<char>,
    c: Columns,
    links: bool,
) -> spec_fn((Option<u64>, Seq<char>, Seq<char>)) -> Seq<char> {
    |row: (Option<u64>, Seq<char>, Seq<char>)|
        issue_cell(screen, repository, row.0, c.issue, links) + " | "@ + cell(row.1, c.branch) + " | "@ + detail_cell(
            row.2,
            heading,
            c.detail,
        )
}

/// A table of worktrees: the headings, a rule, and a line for each row.
pub open spec fn table(
    screen: Screen,
    repository: Seq<char>,
    rows: Seq<(Option<u64>, Seq<char>, Seq<char>)>,
    heading: Seq<char>,
) -> Seq<Seq<char>> {
    let c = columns(rows, heading, screen.width as nat);
    let links = screen.stdout && !screen.dumb && linkable(repository);
    seq![
        screen.stdout_styled(
            cell("ISSUE"@, c.issue) + " | "@ + cell("BRANCH"@, c.branch) + " | "@ + heading,
            1,
        ),
        screen.stdout_styled(
            repeated('-', c.issue) + "-+-"@ + repeated('-', c.branch) + "-+-"@ + repeated('-', c.detail),
            2,
        ),
    ] + rows.map_values(row_line(screen, repository, heading, c, links))
}

proof fn lemma_decimal_short(n: u64)
    ensures
        text::decimal(n as nat).len() <= 20,
{
    reveal_with_fuel(pow10, 21);
    lemma_decimal_len(n as nat, 20);
}

proof fn lemma_decimal_len(n: nat, digits: nat)
    requires
        digits > 0,
        n < pow10(digits),
    ensures
        text::decimal(n).len() <= digits,
    decreases digits,
{
    if n >= 10 {
        if digits == 1 {
            assert(pow10(0) == 1);
        } else {
            assert(pow10(digits) == 10 * pow10((digits - 1) as nat));
            assert(n / 10 < pow10((digits - 1) as nat));
            lemma_decimal_len(n / 10, (digits - 1) as nat);
        }
    }
}

spec fn pow10(n: nat) -> nat
    decreases n,
{
    if n == 0 {
        1
    } else {
        10 * pow10((n - 1) as nat)
    }
}

pub fn worktree_table(screen: &Screen, repository: &str, rows: &Vec<Row>, heading: &str) -> (r: Vec<String>)
    ensures
        model::views(r@) == table(*screen, repository@, row_views(rows@), heading@),
        plain_rows(row_views(rows@)) ==> columns(row_views(rows@), heading@, screen.width as nat) == plain_columns(
            row_views(rows@),
            heading@,
            screen.width as nat,
        ),
        plain_rows(row_views(rows@)) ==> forall|i: int|
            #![trigger rows@[i]]
            0 <= i < rows@.len() ==> ({
                let c = plain_columns(row_views(rows@), heading@, screen.width as nat);
                &&& r@[i + 2]@ == issue_cell(
                    *screen,
                    repository@,
                    rows@[i].0,
                    c.issue,
                    screen.stdout && !screen.dumb && linkable(repository@),
                ) + plain_rest(row_views(rows@)[i], heading@, c)
                &&& !screen.stdout ==> r@[i + 2]@ == plain_row(row_views(rows@)[i], heading@, c)
            }),
        !screen.stdout && plain_rows(row_views(rows@)) ==> r@[0]@ == plain_heading(
            heading@,
            plain_columns(row_views(rows@), heading@, screen.width as nat),
        ),
{
    let ghost all = row_views(rows@);
    let links = screen.stdout && !screen.dumb && is_linkable(repository);
    let mut issue: usize = 5;
    let mut branch: usize = 6;
    let mut detail: usize = heading.as_bytes().len();
    assert(all.take(0) =~= Seq::empty());
    for i in 0..rows.len()
        invariant
            all == row_views(rows@),
            issue == issue_width(all.take(i as int)),
            issue <= 21,
            branch == branch_need(all.take(i as int)),
            detail == detail_need(all.take(i as int), heading@),
            plain_rows(all) ==> branch == longest_branch(all.take(i as int)) && detail == longest_detail(
                all.take(i as int),
                heading@,
            ),
    {
        proof {
            model::step(all, i as int);
            assert(all[i as int] == (rows@[i as int].0, rows@[i as int].1@, rows@[i as int].2@));
        }
        let label: usize = text::chars(&label_of(rows[i].0)).len();
        proof {
            match rows@[i as int].0 {
                Some(number) => {
                    reveal_strlit("#");
                    lemma_decimal_short(number);
                },
                None => {
                    reveal_strlit("-");
                },
            }
        }
        if label > issue {
            issue = label;
        }
        let wide: usize = measure_text_width(&rows[i].1);
        if wide > branch {
            branch = wide;
        }
        let wide: usize = measure_text_width(&rows[i].2);
        if wide > detail {
            detail = wide;
        }
    }
    proof {
        model::whole(all);
    }
    let available: usize = if screen.width >= issue + 6 {
        screen.width - (issue + 6)
    } else {
        0
    };
    if branch > available / 2 {
        branch = available / 2;
    }
    let rest: usize = if available >= branch {
        available - branch
    } else {
        0
    };
    if detail > rest {
        detail = rest;
    }
    let ghost c = columns(all, heading@, screen.width as nat);
    assert(c.issue == issue && c.branch == branch && c.detail == detail);
    let mut out: Vec<String> = Vec::new();
    let mut line = text::concat3(&cell_of("ISSUE", issue), " | ", &cell_of("BRANCH", branch));
    line.append(" | ");
    line.append(heading);
    proof {
        reveal_strlit("ISSUE");
        reveal_strlit("BRANCH");
        lemma_issue_width(all);
        assert(simple("ISSUE"@) && simple("BRANCH"@));
        assert(line@ == plain_heading(heading@, c));
    }
    let ghost headings = line@;
    out.push(screen.stdout_style(&line, 1));
    let mut line = text::concat3(&repeat('-', issue), "-+-", &repeat('-', branch));
    line.append("-+-");
    line.append(&repeat('-', detail));
    out.push(screen.stdout_style(&line, 2));
    let ghost head = model::views(out@);
    assert(!screen.stdout ==> head[0] == headings);
    let ghost each = row_line(*screen, repository@, heading@, c, links);
    let ghost lines = all.map_values(each);
    proof {
        assert(head =~= table(*screen, repository@, all, heading@).take(2));
        assert(head + lines.take(0) =~= head);
    }
    for i in 0..rows.len()
        invariant
            all == row_views(rows@),
            c.issue == issue && c.branch == branch && c.detail == detail,
            each == row_line(*screen, repository@, heading@, c, links),
            lines == all.map_values(each),
            model::views(out@) == head + lines.take(i as int),
            links ==> screen.stdout,
            plain_rows(all) ==> forall|k: int|
                0 <= k < i ==> lines[k] == issue_cell(*screen, repository@, (#[trigger] all[k]).0, c.issue, links)
                    + plain_rest(all[k], heading@, c),
    {
        proof {
            model::step(lines, i as int);
            assert(all[i as int] == (rows@[i as int].0, rows@[i as int].1@, rows@[i as int].2@));
        }
        let mut line = text::concat3(
            &issue_cell_of(screen, repository, rows[i].0, issue, links),
            " | ",
            &cell_of(&rows[i].1, branch),
        );
        line.append(" | ");
        line.append(&detail_cell_of(&rows[i].2, heading, detail));
        assert(line@ == lines[i as int]);
        proof {
            if plain_rows(all) {
                let row = all[i as int];
                assert(line@ =~= issue_cell(*screen, repository@, row.0, c.issue, links) + plain_rest(row, heading@, c));
            }
        }
        assert(head + lines.take(i + 1) =~= (head + lines.take(i as int)).push(line@));
        out.push(line);
    }
    proof {
        model::whole(lines);
        assert(head + lines =~= table(*screen, repository@, all, heading@));
        assert forall|i: int| 0 <= i < rows@.len() implies out@[i + 2]@ == lines[i] by {
            assert(model::views(out@)[i + 2] == (head + lines)[i + 2]);
        }
        if plain_rows(all) {
            assert forall|i: int|
                #![trigger rows@[i]]
                0 <= i < rows@.len() implies out@[i + 2]@ == issue_cell(
                *screen,
                repository@,
                rows@[i].0,
                c.issue,
                links,
            ) + plain_rest(all[i], heading@, c) && (!screen.stdout ==> out@[i + 2]@ == plain_row(
                all[i],
                heading@,
                c,
            )) by {
                assert(all[i].0 == rows@[i].0);
                assert(!links ==> issue_cell(*screen, repository@, all[i].0, c.issue, links) == padded(
                    issue_label(all[i].0),
                    c.issue,
                ));
            }
            assert(model::views(out@)[0] == head[0]);
        }
    }
    out
}

// ---------------------------------------------------------------------------
// Paths
// ---------------------------------------------------------------------------

/// A path as it is shown: below the home directory it starts with a tilde.
pub open spec fn shown_path(path: Seq<char>, home: Option<Seq<char>>) -> Seq<char> {
    match home {
        Some(home) => if paths::lies_in(path, home) {
            paths::joined("~"@, paths::below(path, paths::components(home).len()))
        } else {
            path
        },
        None => path,
    }
}

pub fn display_path(path: &str, home: Option<&str>) -> (r: String)
    ensures
        r@ == shown_path(path@, model::opt_str(home)),
{
    match home {
        Some(home) => match paths::strip_prefix(path, home) {
            Some(relative) => paths::join("~", &relative),
            None => path.to_owned(),
        },
        None => path.to_owned(),
    }
}

// ---------------------------------------------------------------------------
// Progress
// ---------------------------------------------------------------------------

/// What is shown before anything else, on a terminal.
pub open spec fn heading_text(screen: Screen, repository: Seq<char>, reference: Seq<char>) -> Seq<char> {
    "\n┌ "@ + screen.styled(repository, 1) + "  "@ + screen.styled(reference, 2) + "\n│"@
}

pub fn heading(screen: &Screen, repository: &str, reference: &str) -> (r: Option<String>)
    ensures
        model::opt(r) == if screen.stderr {
            Some(heading_text(*screen, repository@, reference@))
        } else {
            None
        },
{
    if !screen.stderr {
        return None;
    }
    let mut out = text::concat3("\n┌ ", &screen.style(repository, 1), "  ");
    out.append(&screen.style(reference, 2));
    out.append("\n│");
    Some(out)
}

/// What is shown when a worktree is ready: on a terminal how long it took, and the page it is for.
pub open spec fn ready_lines(screen: Screen, elapsed: Seq<char>, skipped: bool, url: Option<Seq<char>>) -> Seq<Seq<char>> {
    (if screen.stderr {
        seq![
            "│\n└ "@ + screen.styled(
                if skipped {
                    "Created · setup skipped"@
                } else {
                    "Ready"@
                },
                32,
            ) + " "@ + screen.styled("in "@ + elapsed + "s"@, 2) + "\n"@,
        ]
    } else {
        Seq::empty()
    }) + match url {
        Some(url) => seq![url],
        None => Seq::empty(),
    }
}

/// The lines for a worktree that is ready, after `elapsed` seconds.
pub fn ready(screen: &Screen, elapsed: &str, skipped: bool, url: Option<&str>) -> (r: Vec<String>)
    ensures
        model::views(r@) == ready_lines(*screen, elapsed@, skipped, model::opt_str(url)),
{
    let mut out: Vec<String> = Vec::new();
    if screen.stderr {
        let label = if skipped {
            "Created · setup skipped"
        } else {
            "Ready"
        };
        let mut line = text::concat3("│\n└ ", &screen.style(label, 32), " ");
        line.append(&screen.style(&text::concat3("in ", elapsed, "s"), 2));
        line.append("\n");
        out.push(line);
    }
    match url {
        Some(url) => {
            out.push(url.to_owned());
        },
        None => {},
    }
    assert(model::views(out@) =~= ready_lines(*screen, elapsed@, skipped, model::opt_str(url)));
    out
}

/// A line of progress: a mark, a label that keeps the timings aligned, and the time so far.
pub open spec fn progress_line(screen: Screen, mark: Seq<char>, label: Seq<char>, elapsed: Seq<char>, color: u8) -> Seq<
    char,
> {
    "│ "@ + screen.styled(mark, color) + " "@ + label + repeated(' ', less_by(24, label.len())) + " "@ + screen.styled(
        elapsed + "s"@,
        2,
    )
}

pub fn line(screen: &Screen, mark: &str, label: &str, elapsed: &str, color: u8) -> (r: String)
    ensures
        r@ == progress_line(*screen, mark@, label@, elapsed@, color),
{
    let length: usize = text::chars(label).len();
    let fill: usize = if 24 >= length {
        24 - length
    } else {
        0
    };
    let mut out = text::concat3("│ ", &screen.style(mark, color), " ");
    out.append(label);
    out.append(&repeat(' ', fill));
    out.append(" ");
    out.append(&screen.style(&text::concat(elapsed, "s"), 2));
    out
}

/// How progress is shown.
pub enum Display {
    Hidden,
    Plain,
    Animated,
}

/// Progress is hidden without a terminal and in the background, and animated only where lines can
/// be redrawn.
pub fn display(screen: &Screen, quiet: bool) -> (r: Display)
    ensures
        r is Hidden <==> !screen.stderr || quiet,
        r is Animated <==> screen.is_interactive() && !quiet,
{
    if !screen.stderr || quiet {
        Display::Hidden
    } else if screen.interactive() {
        Display::Animated
    } else {
        Display::Plain
    }
}

/// The last line of a step: done, or failed.
pub open spec fn outcome_line(screen: Screen, done: bool, running: Seq<char>, complete: Seq<char>, elapsed: Seq<char>) -> Seq<
    char,
> {
    if done {
        progress_line(screen, "◇"@, complete, elapsed, 32)
    } else {
        progress_line(screen, "×"@, running, elapsed, 31)
    }
}

pub fn progress(screen: &Screen, done: bool, running: &str, complete: &str, elapsed: &str) -> (r: String)
    ensures
        r@ == outcome_line(*screen, done, running@, complete@, elapsed@),
{
    if done {
        line(screen, "◇", complete, elapsed, 32)
    } else {
        line(screen, "×", running, elapsed, 31)
    }
}

/// A frame of the animation.
pub open spec fn frame_mark(index: nat) -> Seq<char> {
    if index % 4 == 0 {
        "◒"@
    } else if index % 4 == 1 {
        "◐"@
    } else if index % 4 == 2 {
        "◓"@
    } else {
        "◑"@
    }
}

/// The line that is redrawn while a step runs.
pub fn spinner(screen: &Screen, index: u64, running: &str, elapsed: &str) -> (r: String)
    ensures
        r@ == progress_line(*screen, frame_mark(index as nat), running@, elapsed@, 36),
{
    let frame: u64 = index % 4;
    let mark = if frame == 0 {
        "◒"
    } else if frame == 1 {
        "◐"
    } else if frame == 2 {
        "◓"
    } else {
        "◑"
    };
    line(screen, mark, running, elapsed, 36)
}

// ---------------------------------------------------------------------------
// Prompts
// ---------------------------------------------------------------------------

/// The state that a prompt is in.
pub enum Prompt {
    Active,
    Submitted,
    Cancelled,
    Failed(String),
}

pub open spec fn symbol(screen: Screen, prompt: Prompt) -> Seq<char> {
    match prompt {
        Prompt::Active => screen.styled("?"@, 36),
        Prompt::Submitted => screen.styled("◇"@, 32),
        Prompt::Cancelled => screen.styled("×"@, 31),
        Prompt::Failed(_) => screen.styled("!"@, 33),
    }
}

pub fn state_symbol(screen: &Screen, prompt: &Prompt) -> (r: String)
    ensures
        r@ == symbol(*screen, *prompt),
{
    match prompt {
        Prompt::Active => screen.style("?", 36),
        Prompt::Submitted => screen.style("◇", 32),
        Prompt::Cancelled => screen.style("×", 31),
        Prompt::Failed(_) => screen.style("!", 33),
    }
}

pub fn format_intro(screen: &Screen, title: &str) -> (r: String)
    ensures
        r@ == "\n┌ "@ + screen.styled(text::trimmed(title@), 1) + "\n│\n"@,
{
    text::concat3("\n┌ ", &screen.style(&text::trim(title), 1), "\n│\n")
}

pub fn format_outro(screen: &Screen, message: &str) -> (r: String)
    ensures
        r@ == "└ "@ + screen.styled("◇"@, 32) + " "@ + message@ + "\n"@,
{
    let mut out = text::concat3("└ ", &screen.style("◇", 32), " ");
    out.append(message);
    out.append("\n");
    out
}

pub fn format_header(screen: &Screen, prompt: &Prompt, question: &str) -> (r: String)
    ensures
        r@ == "│ "@ + symbol(*screen, *prompt) + " "@ + text::replaced(question@, "\n"@, "\n│   "@) + "\n"@,
{
    proof {
        reveal_strlit("\n");
    }
    let mut out = text::concat3("│ ", &state_symbol(screen, prompt), " ");
    out.append(&text::replace(question, "\n", "\n│   "));
    out.append("\n");
    out
}

/// What stands below a prompt: that it was cancelled, what is wrong, or a message.
pub open spec fn footer(screen: Screen, prompt: Prompt, message: Seq<char>) -> Seq<char> {
    match prompt {
        Prompt::Cancelled => "│ "@ + screen.styled("×"@, 31) + " Cancelled\n"@,
        Prompt::Failed(error) => "│   "@ + screen.styled(error@, 33) + "\n"@,
        _ => if message.len() > 0 {
            "│   "@ + message + "\n"@
        } else {
            Seq::empty()
        },
    }
}

pub fn format_footer(screen: &Screen, prompt: &Prompt, message: &str) -> (r: String)
    ensures
        r@ == footer(*screen, *prompt, message@),
{
    match prompt {
        Prompt::Cancelled => text::concat3("│ ", &screen.style("×", 31), " Cancelled\n"),
        Prompt::Failed(error) => text::concat3("│   ", &screen.style(error, 33), "\n"),
        _ => {
            if message.is_empty() {
                String::new()
            } else {
                text::concat3("│   ", message, "\n")
            }
        },
    }
}

/// What stands between the two choices of a confirmation.
pub fn divider(prompt: &Prompt) -> (r: String)
    ensures
        r@ == match *prompt {
            Prompt::Active => " / "@,
            Prompt::Failed(_) => " / "@,
            _ => ""@,
        },
{
    match prompt {
        Prompt::Active => " / ".to_owned(),
        Prompt::Failed(_) => " / ".to_owned(),
        _ => "".to_owned(),
    }
}

/// Lines behind the rail.
pub open spec fn railed(lines: Seq<Seq<char>>) -> Seq<char>
    decreases lines.len(),
{
    if lines.len() == 0 {
        Seq::empty()
    } else {
        railed(lines.drop_last()) + "│   "@ + lines.last() + "\n"@
    }
}

pub fn indented(s: &str) -> (r: String)
    ensures
        r@ == railed(text::lines(s@)),
{
    let lines = text::lines_of(s);
    let ghost all = text::lines(s@);
    let mut out = String::new();
    assert(all.take(0) =~= Seq::empty());
    for i in 0..lines.len()
        invariant
            all == model::views(lines@),
            out@ == railed(all.take(i as int)),
    {
        proof {
            model::step(all, i as int);
        }
        out.append("│   ");
        out.append(&lines[i]);
        out.append("\n");
    }
    proof {
        model::whole(all);
    }
    out
}

// ---------------------------------------------------------------------------
// What is shown
// ---------------------------------------------------------------------------

/// A cell keeps to its line: line breaks and tabs become spaces, every other character stays in its
/// place.
pub proof fn cells_keep_to_their_line(s: Seq<char>)
    ensures
        flattened(s).len() == s.len(),
        forall|i: int|
            0 <= i < s.len() ==> #[trigger] flattened(s)[i] == if s[i] == '\n' || s[i] == '\r' || s[i] == '\t' {
                ' '
            } else {
                s[i]
            },
        !flattened(s).contains('\n') && !flattened(s).contains('\r') && !flattened(s).contains('\t'),
{
    let flat = flattened(s);
    assert forall|c: char| c == '\n' || c == '\r' || c == '\t' implies !#[trigger] flat.contains(c) by {
        if flat.contains(c) {
            let i = choose|i: int| 0 <= i < flat.len() && flat[i] == c;
            assert(flat[i] != '\n' && flat[i] != '\r' && flat[i] != '\t');
        }
    }
}

/// A table has a heading of two lines and then one line for each row, in their order.
pub proof fn tables_have_a_line_for_each_row(
    screen: Screen,
    repository: Seq<char>,
    rows: Seq<(Option<u64>, Seq<char>, Seq<char>)>,
    heading: Seq<char>,
    k: int,
)
    ensures
        table(screen, repository, rows, heading).len() == rows.len() + 2,
        0 <= k < rows.len() ==> {
            let c = columns(rows, heading, screen.width as nat);
            table(screen, repository, rows, heading)[k + 2] == issue_cell(
                screen,
                repository,
                rows[k].0,
                c.issue,
                screen.stdout && !screen.dumb && linkable(repository),
            ) + " | "@ + cell(rows[k].1, c.branch) + " | "@ + detail_cell(rows[k].2, heading, c.detail)
        },
{
}

/// The column of issues is wide enough for every issue of the table and for its heading, and no wider
/// than one of them.
pub proof fn every_issue_fits_its_column(rows: Seq<(Option<u64>, Seq<char>, Seq<char>)>, k: int)
    ensures
        issue_width(rows) >= 5,
        0 <= k < rows.len() ==> issue_label(rows[k].0).len() <= issue_width(rows),
        issue_width(rows) == 5 || exists|i: int|
            0 <= i < rows.len() && issue_label((#[trigger] rows[i]).0).len() == issue_width(rows),
    decreases rows.len(),
{
    if rows.len() > 0 {
        let init = rows.drop_last();
        every_issue_fits_its_column(init, k);
        assert(rows.last() == rows[rows.len() - 1]);
        if 0 <= k < init.len() {
            assert(init[k] == rows[k]);
        }
        if issue_width(rows) != 5 {
            if issue_width(init) == issue_width(rows) {
                let i = choose|i: int|
                    0 <= i < init.len() && issue_label((#[trigger] init[i]).0).len() == issue_width(init);
                assert(rows[i] == init[i]);
            } else {
                assert(issue_label(rows[rows.len() - 1].0).len() == issue_width(rows));
            }
        }
    }
}

/// The column of branches asks for the room of its widest branch, and of its heading at least.
pub proof fn every_branch_asks_for_its_room(rows: Seq<(Option<u64>, Seq<char>, Seq<char>)>, heading: Seq<char>, k: int)
    ensures
        branch_need(rows) >= 6,
        0 <= k < rows.len() ==> text_width(rows[k].1) <= branch_need(rows),
        branch_need(rows) == 6 || exists|i: int|
            0 <= i < rows.len() && text_width((#[trigger] rows[i]).1) == branch_need(rows),
        0 <= k < rows.len() ==> text_width(rows[k].2) <= detail_need(rows, heading),
        vstd::utf8::encode_utf8(heading).len() <= detail_need(rows, heading),
        detail_need(rows, heading) == vstd::utf8::encode_utf8(heading).len() || exists|i: int|
            0 <= i < rows.len() && text_width((#[trigger] rows[i]).2) == detail_need(rows, heading),
    decreases rows.len(),
{
    if rows.len() > 0 {
        let init = rows.drop_last();
        every_branch_asks_for_its_room(init, heading, k);
        assert(rows.last() == rows[rows.len() - 1]);
        if 0 <= k < init.len() {
            assert(init[k] == rows[k]);
        }
        if branch_need(rows) != 6 {
            if branch_need(init) == branch_need(rows) {
                let i = choose|i: int| 0 <= i < init.len() && text_width((#[trigger] init[i]).1) == branch_need(init);
                assert(rows[i] == init[i]);
            } else {
                assert(text_width(rows[rows.len() - 1].1) == branch_need(rows));
            }
        }
        if detail_need(rows, heading) != vstd::utf8::encode_utf8(heading).len() {
            if detail_need(init, heading) == detail_need(rows, heading) {
                let i = choose|i: int|
                    0 <= i < init.len() && text_width((#[trigger] init[i]).2) == detail_need(init, heading);
                assert(rows[i] == init[i]);
            } else {
                assert(text_width(rows[rows.len() - 1].2) == detail_need(rows, heading));
            }
        }
    }
}

/// An issue links to its page exactly where links can be shown; otherwise its number stands alone.
pub proof fn issues_link_to_their_pages(
    screen: Screen,
    repository: Seq<char>,
    number: u64,
    width: nat,
)
    ensures
        ("#"@ + text::decimal(number as nat)).is_prefix_of(issue_cell(screen, repository, Some(number), width, false)),
        ("\x1b]8;;https://github.com/"@ + repository + "/issues/"@ + text::decimal(number as nat)
            + "\x1b\\"@).is_prefix_of(issue_cell(screen, repository, Some(number), width, true)),
        "-"@.is_prefix_of(issue_cell(screen, repository, None, width, true)),
        issue_cell(screen, repository, None, width, true) == issue_cell(screen, repository, None, width, false),
        issue_cell(screen, repository, Some(number), width, false).len() >= width,
        issue_cell(screen, repository, None, width, false).len() >= width,
{
    let label = "#"@ + text::decimal(number as nat);
    let plain = issue_cell(screen, repository, Some(number), width, false);
    assert(plain.subrange(0, label.len() as int) =~= label);
    let start = "\x1b]8;;https://github.com/"@ + repository + "/issues/"@ + text::decimal(number as nat) + "\x1b\\"@;
    let linked = issue_cell(screen, repository, Some(number), width, true);
    assert(linked.subrange(0, start.len() as int) =~= start);
    let none = issue_cell(screen, repository, None, width, true);
    assert(none.subrange(0, "-"@.len() as int) =~= "-"@);
}

/// A repository can be linked to exactly where its name holds nothing but letters, digits, slashes,
/// hyphens, underscores and dots.
pub proof fn plain_repositories_can_be_linked(repository: Seq<char>)
    ensures
        linkable(repository) <==> forall|i: int|
            0 <= i < repository.len() ==> ('a' <= #[trigger] repository[i] && repository[i] <= 'z') || ('A'
                <= repository[i] && repository[i] <= 'Z') || ('0' <= repository[i] && repository[i] <= '9')
                || repository[i] == '/' || repository[i] == '-' || repository[i] == '_' || repository[i] == '.',
{
}

/// A path in the home directory is shown behind a tilde, with everything below; any other path is
/// shown as it is.
pub proof fn home_is_shown_as_a_tilde(path: Seq<char>, home: Seq<char>)
    ensures
        !paths::lies_in(path, home) ==> shown_path(path, Some(home)) == path,
        shown_path(path, None) == path,
        paths::lies_in(path, home) ==> {
            let rest = paths::below(path, paths::components(home).len());
            &&& shown_path(path, Some(home)) == paths::joined("~"@, rest)
            &&& paths::components(rest) == paths::components(path).skip(paths::components(home).len() as int)
        },
{
    if paths::lies_in(path, home) {
        paths::what_is_below_has_the_other_components(path, paths::components(home).len());
    }
}

/// Text on a rail keeps every line, in order, each behind the rail.
pub proof fn every_line_stands_behind_the_rail(lines: Seq<Seq<char>>, more: Seq<Seq<char>>, line: Seq<char>)
    ensures
        railed(lines + more) == railed(lines) + railed(more),
        railed(seq![line]) == "│   "@ + line + "\n"@,
    decreases more.len(),
{
    let one = seq![line];
    assert(one.drop_last() =~= Seq::<Seq<char>>::empty());
    assert(railed(one.drop_last()) == Seq::<char>::empty());
    assert(railed(one) =~= "│   "@ + line + "\n"@);
    if more.len() == 0 {
        assert(lines + more =~= lines);
        assert(railed(lines) + railed(more) =~= railed(lines));
    } else {
        every_line_stands_behind_the_rail(lines, more.drop_last(), line);
        assert((lines + more).drop_last() =~= lines + more.drop_last());
        assert(railed(lines + more) =~= railed(lines) + railed(more));
    }
}

/// Styles change nothing of a text but what stands around it, and nothing at all where there is no
/// terminal or no colour is wanted.
pub proof fn styles_stand_around_the_text(screen: Screen, s: Seq<char>, code: u8)
    ensures
        !screen.stderr || screen.dumb || screen.no_color ==> screen.styled(s, code) == s,
        screen.stderr && !screen.dumb && !screen.no_color ==> screen.styled(s, code) == "\x1b["@ + text::decimal(
            code as nat,
        ) + "m"@ + s + "\x1b[0m"@,
        !screen.stdout ==> screen.stdout_styled(s, code) == s,
        screen.stdout ==> screen.stdout_styled(s, code) == screen.styled(s, code),
{
}

/// The width of the terminal comes from the terminal, then from what was set for it, and is wide
/// enough for most tables otherwise.
pub proof fn the_terminal_knows_its_width(width: u16, columns: Option<Seq<char>>, n: nat)
    ensures
        width_of(Some(width), columns) == width as usize,
        n <= usize::MAX ==> width_of(None, Some(text::decimal(n))) == n as usize,
        width_of(None, None) == 140,
{
    text::decimal_reads_back(n);
}

/// The spinner turns: four marks come one after the other, and then again.
pub proof fn the_spinner_turns(index: nat)
    ensures
        frame_mark(index + 4) == frame_mark(index),
        frame_mark(index + 1) != frame_mark(index),
        frame_mark(index + 2) != frame_mark(index),
{
    reveal_strlit("◒");
    reveal_strlit("◐");
    reveal_strlit("◓");
    reveal_strlit("◑");
    assert("◒"@[0] == '◒' && "◐"@[0] == '◐' && "◓"@[0] == '◓' && "◑"@[0] == '◑');
}

} // verus!
