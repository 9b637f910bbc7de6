//! Rendering analysis results as a text report, a Markdown report or a
//! JSON document.

use vstd::prelude::*;
use colored::Colorize;
use crate::analyzer::{issue_views, stat_views, AnalysisResult, Category, FileStats, Issue, IssueView, Severity};
use crate::text::{contains, byte_len, decimal, push_decimal, push_str, lemma_byte_len_prefix, lemma_byte_len_push, push_char, str_byte_len, to_chars};

verus! {

broadcast use vstd::string::group_string_axioms;

/// Output formats.
#[derive(Debug, Clone, Copy, PartialEq, Eq, Structural)]
pub enum Output {
    Text,
    Json,
    Markdown,
}

/// Byte offset `b` falls between two characters of `s`.
pub open spec fn char_boundary(s: Seq<char>, b: int) -> bool {
    exists|k: int| 0 <= k <= s.len() && #[trigger] byte_len(s.take(k)) == b
}

/// `s` shortened to its last `max - 4` bytes behind "...", where longer
/// than `max` bytes.
pub open spec fn truncated(s: Seq<char>, max: nat) -> Seq<char> {
    if byte_len(s) <= max {
        s
    } else {
        let k = choose|k: int| 0 <= k <= s.len() && #[trigger] byte_len(s.take(k)) == byte_len(s) - max + 4;
        "..."@ + s.skip(k)
    }
}

proof fn lemma_byte_len_take_strict(s: Seq<char>, j: int, k: int)
    requires
        0 <= j < k <= s.len(),
    ensures
        byte_len(s.take(j)) < byte_len(s.take(k)),
    decreases k - j,
{
    assert(s.take(k) =~= s.take(k - 1).push(s[k - 1]));
    lemma_byte_len_push(s.take(k - 1), s[k - 1]);
    if j < k - 1 {
        lemma_byte_len_take_strict(s, j, k - 1);
    }
}

/// Shortens a path to at most `max_len` bytes, keeping its end.
pub fn truncate(s: &str, max_len: usize) -> (r: String)
    requires
        byte_len(s@) > max_len ==> max_len >= 4 && char_boundary(s@, byte_len(s@) - max_len + 4),
    ensures
        r@ == truncated(s@, max_len as nat),
        byte_len(s@) > max_len ==> byte_len(r@) < max_len,
{
    let total = str_byte_len(s);
    if total <= max_len {
        return String::from_str(s);
    }
    let start = total - max_len + 4;
    let chars = to_chars(s);
    let n = chars.len();
    let ghost target = choose|k: int| 0 <= k <= s@.len() && #[trigger] byte_len(s@.take(k)) == start;
    let mut acc: usize = 0;
    let mut k: usize = 0;
    while acc < start
        invariant
            chars@ == s@,
            n == chars@.len(),
            total == byte_len(s@),
            start <= total,
            0 <= target <= s@.len(),
            byte_len(s@.take(target)) == start,
            k <= target,
            acc == byte_len(s@.take(k as int)),
        decreases target - k,
    {
        assert((k as int) < target);
        proof {
            assert(s@.take(k + 1) =~= s@.take(k as int).push(s@[k as int]));
            lemma_byte_len_push(s@.take(k as int), s@[k as int]);
            lemma_byte_len_prefix(s@, k + 1);
        }
        acc = acc + crate::text::utf8_width(chars[k]);
        k = k + 1;
        proof {
            if k as int > target {
                lemma_byte_len_take_strict(s@, target, k as int);
            }
        }
    }
    proof {
        if (k as int) < target {
            lemma_byte_len_take_strict(s@, k as int, target);
        }
    }
    assert(k == target);
    let mut r = String::from_str("...");
    let mut j = k;
    while j < chars.len()
        invariant
            chars@ == s@,
            k <= j <= chars@.len(),
            r@ == "..."@ + s@.subrange(k as int, j as int),
        decreases chars@.len() - j,
    {
        push_char(&mut r, chars[j]);
        assert(s@.subrange(k as int, j + 1) =~= s@.subrange(k as int, j as int).push(s@[j as int]));
        j = j + 1;
    }
    proof {
        assert(s@.subrange(k as int, j as int) =~= s@.skip(k as int));
        reveal_strlit("...");
        crate::text::lemma_byte_len_concat("..."@, s@.skip(k as int));
        crate::text::lemma_byte_len_concat(s@.take(k as int), s@.skip(k as int));
        assert(s@.take(k as int) + s@.skip(k as int) =~= s@);
        assert(byte_len("..."@) == 3) by {
            crate::text::lemma_byte_len_ascii3("..."@);
        }
    }
    r
}


/// `s` wrapped in the terminal escape that starts with `code`, or `s`
/// itself where colors are off.
pub open spec fn painted(s: Seq<char>, code: Seq<char>, shown: Seq<char>) -> bool {
    shown == s || shown == code + s + "\u{1b}[0m"@
}

/// Holds no escape character.
pub open spec fn escape_free(s: Seq<char>) -> bool {
    forall|i: int| 0 <= i < s.len() ==> s[i] != '\u{1b}'
}

/// colored: `s.red().bold()`, displayed.  Whether colors are on depends on
/// the environment and the terminal, so either `s` comes back unchanged or
/// wrapped in the bold-red escape and the reset; with no escape inside `s`,
/// colored does not rewrite `s` itself.
#[verifier::external_body]
fn paint_red_bold(s: &str) -> (r: String)
    requires
        escape_free(s@),
    ensures
        painted(s@, "\u{1b}[1;31m"@, r@),
{
    s.red().bold().to_string()
}

/// colored: `s.yellow()`, displayed; as for `paint_red_bold`, with the
/// yellow escape.
#[verifier::external_body]
fn paint_yellow(s: &str) -> (r: String)
    requires
        escape_free(s@),
    ensures
        painted(s@, "\u{1b}[33m"@, r@),
{
    s.yellow().to_string()
}

/// colored: `s.cyan()`, displayed; as for `paint_red_bold`, with the cyan
/// escape.
#[verifier::external_body]
fn paint_cyan(s: &str) -> (r: String)
    requires
        escape_free(s@),
    ensures
        painted(s@, "\u{1b}[36m"@, r@),
{
    s.cyan().to_string()
}

/// Decimal digits hold no escape character.
proof fn lemma_decimal_escape_free(n: nat)
    ensures
        escape_free(decimal(n)),
    decreases n,
{
    if n >= 10 {
        lemma_decimal_escape_free(n / 10);
    }
}

/// The decimal representation of `n` as a string.
pub fn decimal_string(n: u64) -> (r: String)
    ensures
        r@ == decimal(n as nat),
{
    let mut r = String::new();
    push_decimal(&mut r, n);
    assert(r@ =~= decimal(n as nat));
    r
}

/// Position in a table sorted by line count, descending, at which an entry
/// with `v` lines goes after every entry with at least as many.
pub open spec fn first_smaller(s: Seq<(Seq<char>, FileStats)>, v: u64, i: int) -> int
    decreases s.len() - i,
{
    if i < 0 || i >= s.len() {
        s.len() as int
    } else if s[i].1.lines < v {
        i
    } else {
        first_smaller(s, v, i + 1)
    }
}

/// Inserts `x` behind the entries with at least as many lines.
pub open spec fn insert_desc(s: Seq<(Seq<char>, FileStats)>, x: (Seq<char>, FileStats)) -> Seq<(Seq<char>, FileStats)> {
    let p = first_smaller(s, x.1.lines, 0);
    s.take(p).push(x) + s.skip(p)
}

/// The table sorted by line count, descending; entries with equal counts
/// keep their order (a stable sort).
pub open spec fn sort_by_lines_desc(s: Seq<(Seq<char>, FileStats)>) -> Seq<(Seq<char>, FileStats)>
    decreases s.len(),
{
    if s.len() == 0 {
        s
    } else {
        insert_desc(sort_by_lines_desc(s.drop_last()), s.last())
    }
}

/// The entries of `fs` at the positions listed in `order`.
pub open spec fn pick(fs: Seq<(Seq<char>, FileStats)>, order: Seq<usize>) -> Seq<(Seq<char>, FileStats)> {
    order.map_values(|i: usize| fs[i as int])
}

proof fn lemma_first_smaller_bounds(s: Seq<(Seq<char>, FileStats)>, v: u64, i: int)
    requires
        0 <= i <= s.len(),
    ensures
        i <= first_smaller(s, v, i) <= s.len(),
    decreases s.len() - i,
{
    if i < s.len() && !(s[i].1.lines < v) {
        lemma_first_smaller_bounds(s, v, i + 1);
    }
}

/// Positions of the table's entries in the order of `sort_by_lines_desc`.
fn sorted_order(table: &Vec<(String, FileStats)>) -> (order: Vec<usize>)
    ensures
        order@.len() == table@.len(),
        forall|j: int| 0 <= j < order@.len() ==> order@[j] < table@.len(),
        pick(stat_views(table@), order@) == sort_by_lines_desc(stat_views(table@)),
{
    let ghost fs = stat_views(table@);
    let mut order: Vec<usize> = Vec::new();
    let n = table.len();
    let mut k: usize = 0;
    assert(fs.take(0) =~= Seq::<(Seq<char>, FileStats)>::empty());
    assert(pick(fs, order@) =~= Seq::<(Seq<char>, FileStats)>::empty());
    while k < n
        invariant
            n == table@.len(),
            fs == stat_views(table@),
            k <= n,
            order@.len() == k,
            forall|j: int| 0 <= j < order@.len() ==> order@[j] < k,
            pick(fs, order@) == sort_by_lines_desc(fs.take(k as int)),
        decreases n - k,
    {
        let v = table[k].1.lines;
        let ghost sorted = pick(fs, order@);
        assert(fs[k as int] == (table@[k as int].0@, table@[k as int].1));
        let mut p: usize = 0;
        while p < order.len() && table[order[p]].1.lines >= v
            invariant
                n == table@.len(),
                fs == stat_views(table@),
                k < n,
                p <= order@.len(),
                forall|j: int| 0 <= j < order@.len() ==> order@[j] < k,
                sorted == pick(fs, order@),
                first_smaller(sorted, v, p as int) == first_smaller(sorted, v, 0),
            decreases order@.len() - p,
        {
            assert(sorted[p as int] == fs[order@[p as int] as int]);
            p = p + 1;
        }
        proof {
            if p < order@.len() {
                assert(sorted[p as int] == fs[order@[p as int] as int]);
            }
            assert(fs.take(k + 1).drop_last() =~= fs.take(k as int));
            assert(fs.take(k + 1).last() == fs[k as int]);
        }
        order.insert(p, k);
        assert(pick(fs, order@) =~= sorted.take(p as int).push(fs[k as int]) + sorted.skip(p as int));
        k = k + 1;
    }
    assert(fs.take(n as int) =~= fs);
    order
}


/// Issues of one category, in order.
pub open spec fn issues_in(iv: Seq<IssueView>, cat: Category) -> Seq<IssueView>
    decreases iv.len(),
{
    if iv.len() == 0 {
        iv
    } else if iv.last().category == cat {
        issues_in(iv.drop_last(), cat).push(iv.last())
    } else {
        issues_in(iv.drop_last(), cat)
    }
}

/// Positions of the issues of one category, in order.
fn category_indices(issues: &Vec<Issue>, cat: Category) -> (r: Vec<usize>)
    ensures
        forall|j: int| 0 <= j < r@.len() ==> r@[j] < issues@.len(),
        r@.map_values(|i: usize| issue_views(issues@)[i as int]) == issues_in(issue_views(issues@), cat),
{
    let ghost iv = issue_views(issues@);
    let mut r: Vec<usize> = Vec::new();
    let mut k: usize = 0;
    assert(r@.map_values(|i: usize| iv[i as int]) =~= issues_in(iv.take(0), cat));
    while k < issues.len()
        invariant
            iv == issue_views(issues@),
            k <= issues@.len(),
            forall|j: int| 0 <= j < r@.len() ==> r@[j] < k,
            r@.map_values(|i: usize| iv[i as int]) == issues_in(iv.take(k as int), cat),
        decreases issues@.len() - k,
    {
        assert(iv.take(k + 1).drop_last() =~= iv.take(k as int));
        assert(iv.take(k + 1).last() == issues@[k as int]@);
        let ghost before = r@;
        if issues[k].category == cat {
            r.push(k);
            assert(r@.map_values(|i: usize| iv[i as int]) =~= before.map_values(|i: usize| iv[i as int]).push(iv[k as int]));
        }
        k = k + 1;
    }
    assert(iv.take(k as int) =~= iv);
    r
}

/// " (line N)" after an issue's message, where it names a line.
pub open spec fn line_suffix(line: Option<usize>) -> Seq<char> {
    match line {
        Some(n) => " (line "@ + decimal(n as nat) + ")"@,
        None => Seq::empty(),
    }
}

/// One issue in the text report's list.
pub open spec fn text_issue_line(i: IssueView) -> Seq<char> {
    "    - "@ + i.message + line_suffix(i.line) + "\n"@
}

/// The text report's list of issues.
pub open spec fn text_issue_lines(g: Seq<IssueView>) -> Seq<char>
    decreases g.len(),
{
    if g.len() == 0 {
        Seq::empty()
    } else {
        text_issue_lines(g.drop_last()) + text_issue_line(g.last())
    }
}

/// One issue in the text report's list of test issues.
pub open spec fn test_issue_line(i: IssueView) -> Seq<char> {
    "    - "@ + i.message + "\n"@
}

/// The text report's list of test issues.
pub open spec fn test_issue_lines(g: Seq<IssueView>) -> Seq<char>
    decreases g.len(),
{
    if g.len() == 0 {
        Seq::empty()
    } else {
        test_issue_lines(g.drop_last()) + test_issue_line(g.last())
    }
}

/// A group of the text report: its title with the count, at most five issues.
pub open spec fn text_group(title: Seq<char>, g: Seq<IssueView>) -> Seq<char> {
    if g.len() == 0 {
        Seq::empty()
    } else {
        title + decimal(g.len()) + ")\n"@ + text_issue_lines(g.take(if g.len() < 5 { g.len() as int } else { 5 }))
            + "\n"@
    }
}

/// The text report's group of test issues, all of them listed.
pub open spec fn tests_group(g: Seq<IssueView>) -> Seq<char> {
    if g.len() == 0 {
        Seq::empty()
    } else {
        "  🧪 Tests ("@ + decimal(g.len()) + ")\n"@ + test_issue_lines(g) + "\n"@
    }
}

/// The text report's part on issues.
pub open spec fn text_issue_section(iv: Seq<IssueView>, total: usize) -> Seq<char> {
    if total == 0 {
        "  ✅ No issues found! Great code health!\n\n"@
    } else {
        text_group("  📊 Complexity ("@, issues_in(iv, Category::Complexity)) + text_group(
            "  📏 Length ("@,
            issues_in(iv, Category::Length),
        ) + tests_group(issues_in(iv, Category::TestCoverage))
    }
}

fn push_text_group(out: &mut String, title: &str, issues: &Vec<Issue>, idx: &Vec<usize>)
    requires
        forall|j: int| 0 <= j < idx@.len() ==> idx@[j] < issues@.len(),
    ensures
        final(out)@ == old(out)@ + text_group(title@, idx@.map_values(|i: usize| issue_views(issues@)[i as int])),
{
    let ghost iv = issue_views(issues@);
    let ghost g = idx@.map_values(|i: usize| iv[i as int]);
    if idx.len() == 0 {
        assert(old(out)@ + text_group(title@, g) =~= old(out)@);
        return;
    }
    let ghost start = out@;
    push_str(out, title);
    push_decimal(out, idx.len() as u64);
    push_str(out, ")\n");
    let shown = if idx.len() < 5 { idx.len() } else { 5 };
    let ghost head = out@;
    let mut j: usize = 0;
    assert(g.take(0) =~= Seq::<IssueView>::empty());
    while j < shown
        invariant
            shown <= idx@.len(),
            j <= shown,
            iv == issue_views(issues@),
            g == idx@.map_values(|i: usize| iv[i as int]),
            forall|j: int| 0 <= j < idx@.len() ==> idx@[j] < issues@.len(),
            out@ == head + text_issue_lines(g.take(j as int)),
        decreases shown - j,
    {
        let issue = &issues[idx[j]];
        assert(g[j as int] == issue@);
        assert(g.take(j + 1).drop_last() =~= g.take(j as int));
        push_str(out, "    - ");
        push_str(out, issue.message.as_str());
        match issue.line {
            Some(l) => {
                push_str(out, " (line ");
                push_decimal(out, l as u64);
                push_str(out, ")");
            },
            None => {},
        }
        push_str(out, "\n");
        assert(out@ =~= head + text_issue_lines(g.take(j + 1)));
        j = j + 1;
    }
    push_str(out, "\n");
    assert(out@ =~= start + text_group(title@, g));
}

fn push_tests_group(out: &mut String, issues: &Vec<Issue>, idx: &Vec<usize>)
    requires
        forall|j: int| 0 <= j < idx@.len() ==> idx@[j] < issues@.len(),
    ensures
        final(out)@ == old(out)@ + tests_group(idx@.map_values(|i: usize| issue_views(issues@)[i as int])),
{
    let ghost iv = issue_views(issues@);
    let ghost g = idx@.map_values(|i: usize| iv[i as int]);
    if idx.len() == 0 {
        assert(old(out)@ + tests_group(g) =~= old(out)@);
        return;
    }
    let ghost start = out@;
    push_str(out, "  🧪 Tests (");
    push_decimal(out, idx.len() as u64);
    push_str(out, ")\n");
    let ghost head = out@;
    let mut j: usize = 0;
    assert(g.take(0) =~= Seq::<IssueView>::empty());
    while j < idx.len()
        invariant
            j <= idx@.len(),
            iv == issue_views(issues@),
            g == idx@.map_values(|i: usize| iv[i as int]),
            forall|j: int| 0 <= j < idx@.len() ==> idx@[j] < issues@.len(),
            out@ == head + test_issue_lines(g.take(j as int)),
        decreases idx@.len() - j,
    {
        let issue = &issues[idx[j]];
        assert(g[j as int] == issue@);
        assert(g.take(j + 1).drop_last() =~= g.take(j as int));
        push_str(out, "    - ");
        push_str(out, issue.message.as_str());
        push_str(out, "\n");
        assert(out@ =~= head + test_issue_lines(g.take(j + 1)));
        j = j + 1;
    }
    assert(g.take(j as int) =~= g);
    push_str(out, "\n");
    assert(out@ =~= start + tests_group(g));
}


/// `n` copies of `c`.
pub open spec fn fill(c: char, n: nat) -> Seq<char> {
    Seq::new(n, |i: int| c)
}

/// `s` padded with spaces on the right to `w` characters, as `{:<w}` does.
pub open spec fn pad_right(s: Seq<char>, w: nat) -> Seq<char> {
    if s.len() < w {
        s + fill(' ', (w - s.len()) as nat)
    } else {
        s
    }
}

/// `s` padded with spaces on the left to `w` characters, as `{:>w}` does.
pub open spec fn pad_left(s: Seq<char>, w: nat) -> Seq<char> {
    if s.len() < w {
        fill(' ', (w - s.len()) as nat) + s
    } else {
        s
    }
}

fn push_fill(out: &mut String, c: char, n: usize)
    ensures
        final(out)@ == old(out)@ + fill(c, n as nat),
{
    let ghost start = out@;
    let mut k: usize = 0;
    while k < n
        invariant
            k <= n,
            out@ == start + fill(c, k as nat),
        decreases n - k,
    {
        push_char(out, c);
        assert(out@ =~= start + fill(c, (k + 1) as nat));
        k = k + 1;
    }
}

fn push_padded(out: &mut String, s: &str, w: usize, left: bool)
    ensures
        final(out)@ == old(out)@ + if left {
            pad_right(s@, w as nat)
        } else {
            pad_left(s@, w as nat)
        },
{
    let ghost start = out@;
    let len = to_chars(s).len();
    if len < w {
        if left {
            push_str(out, s);
            push_fill(out, ' ', w - len);
        } else {
            push_fill(out, ' ', w - len);
            push_str(out, s);
        }
    } else {
        push_str(out, s);
    }
    assert(out@ =~= start + if left {
        pad_right(s@, w as nat)
    } else {
        pad_left(s@, w as nat)
    });
}

/// One row of the file table.
pub open spec fn file_row(p: (Seq<char>, FileStats)) -> Seq<char> {
    "    "@ + pad_right(truncated(p.0, 45), 45) + " "@ + pad_left(decimal(p.1.lines as nat), 8) + " "@
        + pad_left(decimal(p.1.complexity as nat), 8) + "\n"@
}

/// Rows of the file table.
pub open spec fn file_rows(s: Seq<(Seq<char>, FileStats)>) -> Seq<char>
    decreases s.len(),
{
    if s.len() == 0 {
        Seq::empty()
    } else {
        file_rows(s.drop_last()) + file_row(s.last())
    }
}

/// How many files the table shows: twenty at most.
pub open spec fn shown_count(n: nat) -> int {
    if n < 20 {
        n as int
    } else {
        20
    }
}

/// The file table: heading, rule and the rows of the files with the most
/// lines first.
pub open spec fn files_section(fs: Seq<(Seq<char>, FileStats)>) -> Seq<char> {
    files_heading() + file_rows(sort_by_lines_desc(fs).take(shown_count(fs.len())))
}

/// The file table's title, column heading and rule.
pub open spec fn files_heading() -> Seq<char> {
    "  Files analyzed:\n"@ + ("    "@ + pad_right("File"@, 45) + " "@ + pad_left("Lines"@, 8) + " "@
        + pad_left("Complexity"@, 8) + "\n"@) + ("    "@ + fill('─', 45) + " "@ + fill('─', 8) + " "@
        + fill('─', 8) + "\n"@)
}

/// A path that `truncate` can cut to `max` bytes without splitting a character.
pub open spec fn cut_ok(s: Seq<char>, max: nat) -> bool {
    byte_len(s) > max ==> max >= 4 && char_boundary(s, byte_len(s) - max + 4)
}

/// Every path the file table shows can be cut to 45 bytes.
pub open spec fn shown_paths_fit(fs: Seq<(Seq<char>, FileStats)>) -> bool {
    let s = sort_by_lines_desc(fs);
    forall|i: int| 0 <= i < shown_count(fs.len()) ==> cut_ok(#[trigger] s[i].0, 45)
}

proof fn lemma_sort_len(s: Seq<(Seq<char>, FileStats)>)
    ensures
        sort_by_lines_desc(s).len() == s.len(),
    decreases s.len(),
{
    if s.len() > 0 {
        lemma_sort_len(s.drop_last());
        let t = sort_by_lines_desc(s.drop_last());
        lemma_first_smaller_bounds(t, s.last().1.lines, 0);
    }
}

fn push_files_section(out: &mut String, table: &Vec<(String, FileStats)>)
    requires
        shown_paths_fit(stat_views(table@)),
    ensures
        final(out)@ == old(out)@ + files_section(stat_views(table@)),
{
    let ghost fs = stat_views(table@);
    let ghost start = out@;
    push_str(out, "  Files analyzed:\n");
    let ghost a = out@;
    push_str(out, "    ");
    push_padded(out, "File", 45, true);
    push_str(out, " ");
    push_padded(out, "Lines", 8, false);
    push_str(out, " ");
    push_padded(out, "Complexity", 8, false);
    push_str(out, "\n");
    assert(out@ =~= a + ("    "@ + pad_right("File"@, 45) + " "@ + pad_left("Lines"@, 8) + " "@
        + pad_left("Complexity"@, 8) + "\n"@));
    let ghost b = out@;
    push_str(out, "    ");
    push_fill(out, '─', 45);
    push_str(out, " ");
    push_fill(out, '─', 8);
    push_str(out, " ");
    push_fill(out, '─', 8);
    push_str(out, "\n");
    assert(out@ =~= b + ("    "@ + fill('─', 45) + " "@ + fill('─', 8) + " "@ + fill('─', 8) + "\n"@));
    let order = sorted_order(table);
    let ghost sorted = pick(fs, order@);
    proof {
        lemma_sort_len(fs);
    }
    let shown = if order.len() < 20 { order.len() } else { 20 };
    let ghost c = out@;
    let mut j: usize = 0;
    assert(sorted.take(0) =~= Seq::<(Seq<char>, FileStats)>::empty());
    while j < shown
        invariant
            fs == stat_views(table@),
            sorted == pick(fs, order@),
            sorted == sort_by_lines_desc(fs),
            order@.len() == table@.len(),
            forall|j: int| 0 <= j < order@.len() ==> order@[j] < table@.len(),
            shown == shown_count(fs.len()),
            shown <= order@.len(),
            shown_paths_fit(fs),
            j <= shown,
            out@ == c + file_rows(sorted.take(j as int)),
        decreases shown - j,
    {
        let entry = &table[order[j]];
        assert(sorted[j as int] == fs[order@[j as int] as int]);
        assert(fs[order@[j as int] as int] == (entry.0@, entry.1));
        assert(cut_ok(sorted[j as int].0, 45));
        assert(sorted.take(j + 1).drop_last() =~= sorted.take(j as int));
        let ghost before = out@;
        push_str(out, "    ");
        let cut = truncate(entry.0.as_str(), 45);
        push_padded(out, cut.as_str(), 45, true);
        push_str(out, " ");
        let lines = decimal_string(entry.1.lines);
        push_padded(out, lines.as_str(), 8, false);
        push_str(out, " ");
        let cx = decimal_string(entry.1.complexity);
        push_padded(out, cx.as_str(), 8, false);
        push_str(out, "\n");
        assert(out@ =~= before + file_row(sorted[j as int]));
        j = j + 1;
    }
    assert(out@ =~= start + files_section(fs));
}


/// The text report, with the three severity counts shown as `crit`, `warn`
/// and `info`.
pub open spec fn text_report(r: AnalysisResult, crit: Seq<char>, warn: Seq<char>, info: Seq<char>) -> Seq<char> {
    ("╔══════════════════════════════════════════════╗\n"@ + "║           Code Health Report                  ║\n"@ + "╚══════════════════════════════════════════════╝\n\n"@) + ("  Files scanned:    "@ + decimal(r.total_files as nat) + "\n"@
        + "  Total lines:      "@ + decimal(r.total_lines as nat) + "\n\n"@ + "  Issues:\n"@ + "    🚨 Critical:  "@
        + crit + "\n"@ + "    ⚠️  Warning:  "@ + warn + "\n"@ + "    ℹ️  Info:     "@ + info + "\n\n"@)
        + text_issue_section(issue_views(r.issues@), r.total_issues) + files_section(stat_views(r.file_stats@))
}

impl Output {
    /// The text report, given how the three severity counts are shown.
    #[verifier::spinoff_prover]
    #[verifier::rlimit(50)]
    pub fn render_text_with(&self, result: &AnalysisResult, crit: &str, warn: &str, info: &str) -> (s: String)
        requires
            shown_paths_fit(stat_views(result.file_stats@)),
        ensures
            s@ == text_report(*result, crit@, warn@, info@),
    {
        let mut out = String::new();
        push_str(&mut out, "╔══════════════════════════════════════════════╗\n");
        push_str(&mut out, "║           Code Health Report                  ║\n");
        push_str(&mut out, "╚══════════════════════════════════════════════╝\n\n");
        let ghost a = out@;
        push_str(&mut out, "  Files scanned:    ");
        push_decimal(&mut out, result.total_files as u64);
        push_str(&mut out, "\n");
        push_str(&mut out, "  Total lines:      ");
        push_decimal(&mut out, result.total_lines);
        push_str(&mut out, "\n\n");
        push_str(&mut out, "  Issues:\n");
        push_str(&mut out, "    🚨 Critical:  ");
        push_str(&mut out, crit);
        push_str(&mut out, "\n");
        push_str(&mut out, "    ⚠️  Warning:  ");
        push_str(&mut out, warn);
        push_str(&mut out, "\n");
        push_str(&mut out, "    ℹ️  Info:     ");
        push_str(&mut out, info);
        push_str(&mut out, "\n\n");
        assert(out@ =~= ("╔══════════════════════════════════════════════╗\n"@ + "║           Code Health Report                  ║\n"@ + "╚══════════════════════════════════════════════╝\n\n"@) + ("  Files scanned:    "@ + decimal(
            result.total_files as nat,
        ) + "\n"@ + "  Total lines:      "@ + decimal(result.total_lines as nat) + "\n\n"@
            + "  Issues:\n"@ + "    🚨 Critical:  "@ + crit@ + "\n"@ + "    ⚠️  Warning:  "@ + warn@ + "\n"@ + "    ℹ️  Info:     "@
            + info@ + "\n\n"@));
        let ghost b = out@;
        if result.total_issues == 0 {
            push_str(&mut out, "  ✅ No issues found! Great code health!\n\n");
        } else {
            let complexity = category_indices(&result.issues, Category::Complexity);
            push_text_group(&mut out, "  📊 Complexity (", &result.issues, &complexity);
            let length = category_indices(&result.issues, Category::Length);
            push_text_group(&mut out, "  📏 Length (", &result.issues, &length);
            let tests = category_indices(&result.issues, Category::TestCoverage);
            push_tests_group(&mut out, &result.issues, &tests);
        }
        assert(out@ =~= b + text_issue_section(issue_views(result.issues@), result.total_issues));
        push_files_section(&mut out, &result.file_stats);
        out
    }

    /// The text report; the severity counts are colored where the terminal
    /// and environment allow it.
    pub fn render_text(&self, result: &AnalysisResult) -> (s: String)
        requires
            shown_paths_fit(stat_views(result.file_stats@)),
        ensures
            exists|c: Seq<char>, w: Seq<char>, i: Seq<char>|
                {
                    &&& painted(decimal(result.critical as nat), "\u{1b}[1;31m"@, c)
                    &&& painted(decimal(result.warnings as nat), "\u{1b}[33m"@, w)
                    &&& painted(decimal(result.infos as nat), "\u{1b}[36m"@, i)
                    &&& s@ == text_report(*result, c, w, i)
                },
    {
        proof {
            lemma_decimal_escape_free(result.critical as nat);
            lemma_decimal_escape_free(result.warnings as nat);
            lemma_decimal_escape_free(result.infos as nat);
        }
        let crit = paint_red_bold(decimal_string(result.critical as u64).as_str());
        let warn = paint_yellow(decimal_string(result.warnings as u64).as_str());
        let info = paint_cyan(decimal_string(result.infos as u64).as_str());
        self.render_text_with(result, crit.as_str(), warn.as_str(), info.as_str())
    }
}


/// Whether byte offset `b` falls between two characters of `s`.
pub fn is_char_boundary_at(s: &str, b: usize) -> (r: bool)
    ensures
        r == char_boundary(s@, b as int),
{
    let chars = to_chars(s);
    let total = str_byte_len(s);
    let n = chars.len();
    let mut acc: usize = 0;
    let mut k: usize = 0;
    while acc < b && k < n
        invariant
            chars@ == s@,
            n == chars@.len(),
            total == byte_len(s@),
            k <= n,
            acc == byte_len(s@.take(k as int)),
            forall|j: int| 0 <= j < k ==> #[trigger] byte_len(s@.take(j)) < b,
        decreases n - k,
    {
        proof {
            assert(s@.take(k + 1) =~= s@.take(k as int).push(s@[k as int]));
            lemma_byte_len_push(s@.take(k as int), s@[k as int]);
            lemma_byte_len_prefix(s@, k + 1);
        }
        acc = acc + crate::text::utf8_width(chars[k]);
        k = k + 1;
    }
    proof {
        if acc == b {
            assert(byte_len(s@.take(k as int)) == b);
        } else {
            assert forall|j: int| 0 <= j <= s@.len() implies #[trigger] byte_len(s@.take(j)) != b by {
                if j > k {
                    lemma_byte_len_take_strict(s@, k as int, j);
                }
            }
        }
    }
    acc == b
}

/// Whether every path the file table shows can be cut to 45 bytes, which
/// `render_text` needs.
pub fn shown_paths_can_be_cut(result: &AnalysisResult) -> (r: bool)
    ensures
        r == shown_paths_fit(stat_views(result.file_stats@)),
{
    let ghost fs = stat_views(result.file_stats@);
    let order = sorted_order(&result.file_stats);
    let ghost sorted = pick(fs, order@);
    proof {
        lemma_sort_len(fs);
    }
    let shown = if order.len() < 20 { order.len() } else { 20 };
    let mut j: usize = 0;
    while j < shown
        invariant
            fs == stat_views(result.file_stats@),
            sorted == pick(fs, order@),
            sorted == sort_by_lines_desc(fs),
            order@.len() == result.file_stats@.len(),
            forall|j: int| 0 <= j < order@.len() ==> order@[j] < result.file_stats@.len(),
            shown == shown_count(fs.len()),
            shown <= order@.len(),
            j <= shown,
            forall|i: int| 0 <= i < j ==> cut_ok(#[trigger] sorted[i].0, 45),
        decreases shown - j,
    {
        let path = result.file_stats[order[j]].0.as_str();
        assert(sorted[j as int] == fs[order@[j as int] as int]);
        let total = str_byte_len(path);
        if total > 45 {
            if !is_char_boundary_at(path, total - 41) {
                assert(!cut_ok(sorted[j as int].0, 45));
                return false;
            }
        }
        j = j + 1;
    }
    true
}


/// The line number of an issue, or nothing.
pub open spec fn line_cell(line: Option<usize>) -> Seq<char> {
    match line {
        Some(n) => decimal(n as nat),
        None => Seq::empty(),
    }
}

/// One row of a Markdown issue table.
pub open spec fn md_issue_row(i: IssueView) -> Seq<char> {
    "| `"@ + i.file + "` | "@ + i.message + " | "@ + line_cell(i.line) + " |\n"@
}

/// Rows of a Markdown issue table.
pub open spec fn md_issue_rows(g: Seq<IssueView>) -> Seq<char>
    decreases g.len(),
{
    if g.len() == 0 {
        Seq::empty()
    } else {
        md_issue_rows(g.drop_last()) + md_issue_row(g.last())
    }
}

/// A Markdown issue table under its heading, where there are issues.
pub open spec fn md_group(title: Seq<char>, g: Seq<IssueView>) -> Seq<char> {
    if g.len() == 0 {
        Seq::empty()
    } else {
        title + "| File | Message | Line |\n"@ + "|------|---------|------|\n"@ + md_issue_rows(g) + "\n"@
    }
}

/// The Markdown report: the summary table, then one table per group of
/// issues (complexity, length, tests) that has any.
pub open spec fn markdown_report(r: AnalysisResult) -> Seq<char> {
    markdown_summary(r) + markdown_issues(issue_views(r.issues@))
}

/// The Markdown report's title and summary table.
pub open spec fn markdown_summary(r: AnalysisResult) -> Seq<char> {
    "# Code Health Report\n\n"@ + "## Summary\n\n"@ + "| Metric | Value |\n|--------|-------|\n"@
        + "| Files scanned | "@ + decimal(r.total_files as nat) + " |\n"@ + "| Total lines | "@ + decimal(
        r.total_lines as nat,
    ) + " |\n"@ + "| Critical issues | "@ + decimal(r.critical as nat) + " |\n"@ + "| Warnings | "@
        + decimal(r.warnings as nat) + " |\n"@ + "| Info | "@ + decimal(r.infos as nat) + " |\n"@
}

/// The Markdown report's issue tables, where there are issues.
pub open spec fn markdown_issues(iv: Seq<IssueView>) -> Seq<char> {
    if iv.len() == 0 {
        Seq::empty()
    } else {
        "\n## Issues\n\n"@ + md_group("### Complexity\n\n"@, issues_in(iv, Category::Complexity)) + md_group(
            "### Length\n\n"@,
            issues_in(iv, Category::Length),
        ) + md_group("### Tests\n\n"@, issues_in(iv, Category::TestCoverage))
    }
}

fn push_md_group(out: &mut String, title: &str, issues: &Vec<Issue>, idx: &Vec<usize>)
    requires
        forall|j: int| 0 <= j < idx@.len() ==> idx@[j] < issues@.len(),
    ensures
        final(out)@ == old(out)@ + md_group(title@, idx@.map_values(|i: usize| issue_views(issues@)[i as int])),
{
    let ghost iv = issue_views(issues@);
    let ghost g = idx@.map_values(|i: usize| iv[i as int]);
    if idx.len() == 0 {
        assert(old(out)@ + md_group(title@, g) =~= old(out)@);
        return;
    }
    let ghost start = out@;
    push_str(out, title);
    push_str(out, "| File | Message | Line |\n");
    push_str(out, "|------|---------|------|\n");
    let ghost head = out@;
    let mut j: usize = 0;
    assert(g.take(0) =~= Seq::<IssueView>::empty());
    while j < idx.len()
        invariant
            j <= idx@.len(),
            iv == issue_views(issues@),
            g == idx@.map_values(|i: usize| iv[i as int]),
            forall|j: int| 0 <= j < idx@.len() ==> idx@[j] < issues@.len(),
            out@ == head + md_issue_rows(g.take(j as int)),
        decreases idx@.len() - j,
    {
        let issue = &issues[idx[j]];
        assert(g[j as int] == issue@);
        assert(g.take(j + 1).drop_last() =~= g.take(j as int));
        push_str(out, "| `");
        push_str(out, issue.file.as_str());
        push_str(out, "` | ");
        push_str(out, issue.message.as_str());
        push_str(out, " | ");
        match issue.line {
            Some(l) => push_decimal(out, l as u64),
            None => {},
        }
        push_str(out, " |\n");
        assert(out@ =~= head + md_issue_rows(g.take(j + 1)));
        j = j + 1;
    }
    assert(g.take(j as int) =~= g);
    push_str(out, "\n");
    assert(out@ =~= start + md_group(title@, g));
}

impl Output {
    /// The Markdown report.
    pub fn render_markdown(&self, result: &AnalysisResult) -> (s: String)
        ensures
            s@ == markdown_report(*result),
    {
        let mut out = String::new();
        push_str(&mut out, "# Code Health Report\n\n");
        push_str(&mut out, "## Summary\n\n");
        push_str(&mut out, "| Metric | Value |\n|--------|-------|\n");
        push_str(&mut out, "| Files scanned | ");
        push_decimal(&mut out, result.total_files as u64);
        push_str(&mut out, " |\n");
        push_str(&mut out, "| Total lines | ");
        push_decimal(&mut out, result.total_lines);
        push_str(&mut out, " |\n");
        push_str(&mut out, "| Critical issues | ");
        push_decimal(&mut out, result.critical as u64);
        push_str(&mut out, " |\n");
        push_str(&mut out, "| Warnings | ");
        push_decimal(&mut out, result.warnings as u64);
        push_str(&mut out, " |\n");
        push_str(&mut out, "| Info | ");
        push_decimal(&mut out, result.infos as u64);
        push_str(&mut out, " |\n");
        let ghost a = out@;
        if result.issues.len() > 0 {
            push_str(&mut out, "\n## Issues\n\n");
            let complexity = category_indices(&result.issues, Category::Complexity);
            push_md_group(&mut out, "### Complexity\n\n", &result.issues, &complexity);
            let length = category_indices(&result.issues, Category::Length);
            push_md_group(&mut out, "### Length\n\n", &result.issues, &length);
            let tests = category_indices(&result.issues, Category::TestCoverage);
            push_md_group(&mut out, "### Tests\n\n", &result.issues, &tests);
        }
        assert(out@ =~= markdown_report(*result));
        out
    }
}


/// How the JSON document names a severity.
pub open spec fn severity_label(s: Severity) -> Seq<char> {
    match s {
        Severity::Critical => "critical"@,
        Severity::Warning => "warning"@,
        Severity::Info => "info"@,
    }
}

/// How the JSON document names a category: its name in lower case.
pub open spec fn category_label(c: Category) -> Seq<char> {
    match c {
        Category::Complexity => "complexity"@,
        Category::Length => "length"@,
        Category::Style => "style"@,
        Category::TestCoverage => "testcoverage"@,
        Category::Maintainability => "maintainability"@,
    }
}

fn severity_text(s: Severity) -> (r: String)
    ensures
        r@ == severity_label(s),
{
    match s {
        Severity::Critical => String::from_str("critical"),
        Severity::Warning => String::from_str("warning"),
        Severity::Info => String::from_str("info"),
    }
}

fn category_text(c: Category) -> (r: String)
    ensures
        r@ == category_label(c),
{
    match c {
        Category::Complexity => String::from_str("complexity"),
        Category::Length => String::from_str("length"),
        Category::Style => String::from_str("style"),
        Category::TestCoverage => String::from_str("testcoverage"),
        Category::Maintainability => String::from_str("maintainability"),
    }
}

/// An entry of the JSON document's `issues_list`.
#[derive(Debug)]
pub struct JsonIssue {
    pub file: String,
    pub severity: String,
    pub category: String,
    pub message: String,
    pub line: Option<usize>,
}

/// An entry of the JSON document's `files`.
#[derive(Debug)]
pub struct JsonFile {
    pub path: String,
    pub lines: u64,
    pub functions: u64,
    pub complexity: u64,
}

/// The content of the JSON report: `files_scanned`, `total_lines`, the
/// object `issues` (`total`, `critical`, `warnings`, `info`), `issues_list`
/// and `files`.
#[derive(Debug)]
pub struct JsonReport {
    pub files_scanned: usize,
    pub total_lines: u64,
    pub total: usize,
    pub critical: usize,
    pub warnings: usize,
    pub info: usize,
    pub issues_list: Vec<JsonIssue>,
    pub files: Vec<JsonFile>,
}

/// A JSON issue entry matches an issue.
pub open spec fn json_issue_of(j: JsonIssue, i: IssueView) -> bool {
    &&& j.file@ == i.file
    &&& j.severity@ == severity_label(i.severity)
    &&& j.category@ == category_label(i.category)
    &&& j.message@ == i.message
    &&& j.line == i.line
}

/// A JSON file entry matches a statistics entry.
pub open spec fn json_file_of(j: JsonFile, p: (Seq<char>, FileStats)) -> bool {
    &&& j.path@ == p.0
    &&& j.lines == p.1.lines
    &&& j.functions == p.1.functions
    &&& j.complexity == p.1.complexity
}

impl Output {
    /// The content of the JSON report: the totals, every issue and the
    /// statistics of every file, in the result's order.
    pub fn json_report(&self, result: &AnalysisResult) -> (j: JsonReport)
        ensures
            j.files_scanned == result.total_files,
            j.total_lines == result.total_lines,
            j.total == result.total_issues,
            j.critical == result.critical,
            j.warnings == result.warnings,
            j.info == result.infos,
            j.issues_list@.len() == result.issues@.len(),
            forall|k: int| 0 <= k < j.issues_list@.len() ==> json_issue_of(#[trigger] j.issues_list@[k], result.issues@[k]@),
            j.files@.len() == result.file_stats@.len(),
            forall|k: int| 0 <= k < j.files@.len() ==> json_file_of(#[trigger] j.files@[k], stat_views(result.file_stats@)[k]),
    {
        let mut issues_list: Vec<JsonIssue> = Vec::new();
        let mut k: usize = 0;
        while k < result.issues.len()
            invariant
                k <= result.issues@.len(),
                issues_list@.len() == k,
                forall|m: int| 0 <= m < k ==> json_issue_of(#[trigger] issues_list@[m], result.issues@[m]@),
            decreases result.issues@.len() - k,
        {
            let issue = &result.issues[k];
            let entry = JsonIssue {
                file: issue.file.clone(),
                severity: severity_text(issue.severity),
                category: category_text(issue.category),
                message: issue.message.clone(),
                line: issue.line,
            };
            issues_list.push(entry);
            k = k + 1;
        }
        let mut files: Vec<JsonFile> = Vec::new();
        let ghost fs = stat_views(result.file_stats@);
        let mut k: usize = 0;
        while k < result.file_stats.len()
            invariant
                fs == stat_views(result.file_stats@),
                k <= result.file_stats@.len(),
                files@.len() == k,
                forall|m: int| 0 <= m < k ==> json_file_of(#[trigger] files@[m], fs[m]),
            decreases result.file_stats@.len() - k,
        {
            let entry = &result.file_stats[k];
            assert(fs[k as int] == (entry.0@, entry.1));
            files.push(JsonFile {
                path: entry.0.clone(),
                lines: entry.1.lines,
                functions: entry.1.functions,
                complexity: entry.1.complexity,
            });
            k = k + 1;
        }
        JsonReport {
            files_scanned: result.total_files,
            total_lines: result.total_lines,
            total: result.total_issues,
            critical: result.critical,
            warnings: result.warnings,
            info: result.infos,
            issues_list,
            files,
        }
    }
}

proof fn lemma_contains_self(p: Seq<char>)
    ensures
        contains(p, p),
{
    assert(p.subrange(0, 0int + p.len()) =~= p);
}

proof fn lemma_contains_left(a: Seq<char>, b: Seq<char>, p: Seq<char>)
    requires
        contains(a, p),
    ensures
        contains(a + b, p),
{
    let i = choose|i: int| 0 <= i && i + p.len() <= a.len() && #[trigger] a.subrange(i, i + p.len()) == p;
    assert((a + b).subrange(i, i + p.len()) =~= a.subrange(i, i + p.len()));
}

proof fn lemma_contains_right(a: Seq<char>, b: Seq<char>, p: Seq<char>)
    requires
        contains(b, p),
    ensures
        contains(a + b, p),
{
    let i = choose|i: int| 0 <= i && i + p.len() <= b.len() && #[trigger] b.subrange(i, i + p.len()) == p;
    assert((a + b).subrange(a.len() + i, a.len() + i + p.len()) =~= b.subrange(i, i + p.len()));
}

proof fn lemma_file_rows_contain(s: Seq<(Seq<char>, FileStats)>, j: int)
    requires
        0 <= j < s.len(),
    ensures
        contains(file_rows(s), file_row(s[j])),
    decreases s.len(),
{
    if j == s.len() - 1 {
        lemma_contains_self(file_row(s[j]));
        lemma_contains_right(file_rows(s.drop_last()), file_row(s.last()), file_row(s[j]));
    } else {
        lemma_file_rows_contain(s.drop_last(), j);
        assert(s.drop_last()[j] == s[j]);
        lemma_contains_left(file_rows(s.drop_last()), file_row(s.last()), file_row(s[j]));
    }
}

proof fn lemma_md_rows_contain(g: Seq<IssueView>, j: int)
    requires
        0 <= j < g.len(),
    ensures
        contains(md_issue_rows(g), md_issue_row(g[j])),
    decreases g.len(),
{
    if j == g.len() - 1 {
        lemma_contains_self(md_issue_row(g[j]));
        lemma_contains_right(md_issue_rows(g.drop_last()), md_issue_row(g.last()), md_issue_row(g[j]));
    } else {
        lemma_md_rows_contain(g.drop_last(), j);
        assert(g.drop_last()[j] == g[j]);
        lemma_contains_left(md_issue_rows(g.drop_last()), md_issue_row(g.last()), md_issue_row(g[j]));
    }
}

/// Every issue of a category is in the group of that category.
proof fn lemma_issues_in_has(iv: Seq<IssueView>, cat: Category, k: int)
    requires
        0 <= k < iv.len(),
        iv[k].category == cat,
    ensures
        exists|j: int| 0 <= j < issues_in(iv, cat).len() && #[trigger] issues_in(iv, cat)[j] == iv[k],
    decreases iv.len(),
{
    let rest = issues_in(iv.drop_last(), cat);
    if k == iv.len() - 1 {
        assert(issues_in(iv, cat) == rest.push(iv.last()));
        assert(issues_in(iv, cat)[rest.len() as int] == iv[k]);
    } else {
        lemma_issues_in_has(iv.drop_last(), cat, k);
        assert(iv.drop_last()[k] == iv[k]);
        let j = choose|j: int| 0 <= j < rest.len() && #[trigger] rest[j] == iv[k];
        if iv.last().category == cat {
            assert(issues_in(iv, cat) == rest.push(iv.last()));
            assert(issues_in(iv, cat)[j] == rest[j]);
        } else {
            assert(issues_in(iv, cat) == rest);
        }
        assert(issues_in(iv, cat)[j] == iv[k]);
    }
}

proof fn lemma_md_group_lists(title: Seq<char>, g: Seq<IssueView>, j: int)
    requires
        0 <= j < g.len(),
    ensures
        contains(md_group(title, g), md_issue_row(g[j])),
{
    let row = md_issue_row(g[j]);
    let head = title + "| File | Message | Line |\n"@ + "|------|---------|------|\n"@;
    lemma_md_rows_contain(g, j);
    lemma_contains_right(head, md_issue_rows(g), row);
    lemma_contains_left(head + md_issue_rows(g), "\n"@, row);
}

/// The Markdown report has a table row for every complexity, length and
/// test-coverage issue of the result, however many there are.
pub proof fn lemma_markdown_lists_every_issue(r: AnalysisResult)
    ensures
        forall|k: int| 0 <= k < r.issues@.len() ==> {
            let i = #[trigger] issue_views(r.issues@)[k];
            (i.category == Category::Complexity || i.category == Category::Length || i.category
                == Category::TestCoverage) ==> contains(markdown_report(r), md_issue_row(i))
        },
{
    let iv = issue_views(r.issues@);
    assert forall|k: int| 0 <= k < r.issues@.len() && ({
        let i = #[trigger] issue_views(r.issues@)[k];
        i.category == Category::Complexity || i.category == Category::Length || i.category
            == Category::TestCoverage
    }) implies contains(markdown_report(r), md_issue_row(issue_views(r.issues@)[k])) by {
        let i = iv[k];
        let row = md_issue_row(i);
        let gc = md_group("### Complexity\n\n"@, issues_in(iv, Category::Complexity));
        let gl = md_group("### Length\n\n"@, issues_in(iv, Category::Length));
        let gt = md_group("### Tests\n\n"@, issues_in(iv, Category::TestCoverage));
        let x = "\n## Issues\n\n"@;
        lemma_issues_in_has(iv, i.category, k);
        let g = issues_in(iv, i.category);
        let j = choose|j: int| 0 <= j < g.len() && #[trigger] g[j] == i;
        if i.category == Category::Complexity {
            lemma_md_group_lists("### Complexity\n\n"@, g, j);
            lemma_contains_right(x, gc, row);
            lemma_contains_left(x + gc, gl, row);
            lemma_contains_left(x + gc + gl, gt, row);
        } else if i.category == Category::Length {
            lemma_md_group_lists("### Length\n\n"@, g, j);
            lemma_contains_right(x + gc, gl, row);
            lemma_contains_left(x + gc + gl, gt, row);
        } else {
            lemma_md_group_lists("### Tests\n\n"@, g, j);
            lemma_contains_right(x + gc + gl, gt, row);
        }
        assert(markdown_issues(iv) == x + gc + gl + gt);
        lemma_contains_right(markdown_summary(r), markdown_issues(iv), row);
    }
}

proof fn lemma_first_smaller_props(s: Seq<(Seq<char>, FileStats)>, v: u64, i: int)
    requires
        0 <= i <= s.len(),
    ensures
        i <= first_smaller(s, v, i) <= s.len(),
        forall|k: int| i <= k < first_smaller(s, v, i) ==> #[trigger] s[k].1.lines >= v,
        first_smaller(s, v, i) < s.len() ==> s[first_smaller(s, v, i)].1.lines < v,
    decreases s.len() - i,
{
    if i < s.len() && !(s[i].1.lines < v) {
        lemma_first_smaller_props(s, v, i + 1);
    }
}

/// Line counts never increase along the table.
pub open spec fn sorted_desc(s: Seq<(Seq<char>, FileStats)>) -> bool {
    forall|i: int, j: int| 0 <= i < j < s.len() ==> #[trigger] s[i].1.lines >= #[trigger] s[j].1.lines
}

/// Sorting the file table by line count keeps exactly its entries and puts
/// them in descending order of lines.
pub proof fn lemma_sort_by_lines(s: Seq<(Seq<char>, FileStats)>)
    ensures
        sort_by_lines_desc(s).len() == s.len(),
        sort_by_lines_desc(s).to_multiset() == s.to_multiset(),
        sorted_desc(sort_by_lines_desc(s)),
    decreases s.len(),
{
    broadcast use vstd::seq_lib::group_to_multiset_ensures;
    if s.len() > 0 {
        lemma_sort_by_lines(s.drop_last());
        let t = sort_by_lines_desc(s.drop_last());
        let x = s.last();
        let v = x.1.lines;
        let p = first_smaller(t, v, 0);
        lemma_first_smaller_props(t, v, 0);
        let r = sort_by_lines_desc(s);
        assert(r =~= t.insert(p, x));
        assert(s.drop_last().push(x) =~= s);
        assert forall|i: int, j: int| 0 <= i < j < r.len() implies #[trigger] r[i].1.lines >= #[trigger] r[j].1.lines by {
            if j < p {
                assert(r[i] == t[i] && r[j] == t[j]);
            } else if j == p {
                assert(r[i] == t[i]);
            } else if i < p {
                assert(r[i] == t[i] && r[j] == t[j - 1]);
            } else if i == p {
                assert(r[j] == t[j - 1]);
                if j - 1 > p {
                    assert(t[p].1.lines >= t[j - 1].1.lines);
                }
            } else {
                assert(r[i] == t[i - 1] && r[j] == t[j - 1]);
            }
        }
    }
}

/// The file table shows the twenty files with the most lines, or every file
/// where there are at most twenty: with at most twenty files, each has a row.
pub proof fn lemma_files_table_rows(fs: Seq<(Seq<char>, FileStats)>)
    ensures
        shown_count(fs.len()) == if fs.len() <= 20 { fs.len() as int } else { 20 },
        fs.len() <= 20 ==> forall|k: int| 0 <= k < fs.len() ==> contains(
            files_section(fs),
            file_row(#[trigger] fs[k]),
        ),
{
    broadcast use vstd::seq_lib::group_to_multiset_ensures;
    lemma_sort_by_lines(fs);
    let s = sort_by_lines_desc(fs);
    if fs.len() <= 20 {
        assert(s.take(shown_count(fs.len())) =~= s);
        assert forall|k: int| 0 <= k < fs.len() implies contains(files_section(fs), file_row(#[trigger] fs[k])) by {
            assert(fs.contains(fs[k]));
            assert(fs.to_multiset().count(fs[k]) > 0);
            assert(s.contains(fs[k]));
            let j = choose|j: int| 0 <= j < s.len() && s[j] == fs[k];
            lemma_file_rows_contain(s, j);
            lemma_contains_right(files_heading(), file_rows(s), file_row(fs[k]));
        }
    }
}

} // verus!
