//! Code health analysis: per-file statistics and the issues they raise.

use vstd::prelude::*;
use vstd::slice::slice_subrange;
use crate::config::{ignored_by, string_views, Config};
use crate::text::{
    byte_len, contains, lemma_line_bytes, lemma_lines_of_concat, lemma_count_where_concat, str_byte_len, decimal, push_decimal, push_str, count_leading_ws_bytes, count_where, leading_ws_bytes, lemma_count_where_prefix, lemma_count_wide_lines, lemma_trim_len, lemma_trim_idempotent,
    lines_of, range_starts_with, split_lines, starts_with, str_contains, to_chars, trim,
    trim_bounds, trimmed_starts_with, views,
};

verus! {

broadcast use vstd::string::group_string_axioms;

/// A problem found in a file.
#[derive(Debug, Clone)]
pub struct Issue {
    pub file: String,
    pub severity: Severity,
    pub category: Category,
    pub message: String,
    pub line: Option<usize>,
}

/// How serious an issue is.
#[derive(Debug, Clone, Copy, PartialEq, Eq, Structural)]
pub enum Severity {
    Critical,
    Warning,
    Info,
}

/// What kind of problem an issue reports.
#[derive(Debug, Clone, Copy, PartialEq, Eq, Structural)]
pub enum Category {
    Complexity,
    Length,
    Style,
    TestCoverage,
    Maintainability,
}

/// An issue with its text fields seen as character sequences.
pub struct IssueView {
    pub file: Seq<char>,
    pub severity: Severity,
    pub category: Category,
    pub message: Seq<char>,
    pub line: Option<usize>,
}

impl View for Issue {
    type V = IssueView;

    open spec fn view(&self) -> IssueView {
        IssueView {
            file: self.file@,
            severity: self.severity,
            category: self.category,
            message: self.message@,
            line: self.line,
        }
    }
}

/// The views of a sequence of issues.
pub open spec fn issue_views(v: Seq<Issue>) -> Seq<IssueView> {
    v.map_values(|i: Issue| i@)
}

/// Statistics gathered for one file.
#[derive(Debug, Clone, Copy)]
pub struct FileStats {
    pub lines: u64,
    pub functions: u64,
    pub complexity: u64,
    pub test_match: bool,
}

/// A file found under the scanned path: its path as text, its own name and
/// the name of the directory that holds it (empty where there is none).
#[derive(Debug, Clone)]
pub struct FileEntry {
    pub path: String,
    pub file_name: String,
    pub parent_dir: String,
}

/// Directory names whose contents are never analyzed.
pub open spec fn in_skipped_dir(path: Seq<char>) -> bool {
    ||| contains(path, ".git"@)
    ||| contains(path, "node_modules"@)
    ||| contains(path, "vendor"@)
    ||| contains(path, "target"@)
    ||| contains(path, "dist"@)
    ||| contains(path, ".cache"@)
    ||| contains(path, ".tox"@)
}

/// Whether the path lies in (or merely mentions) a directory that is skipped.
pub fn should_skip_dir(path: &str) -> (r: bool)
    ensures
        r == in_skipped_dir(path@),
        r <==> (contains(path@, ".git"@) || contains(path@, "node_modules"@) || contains(path@, "vendor"@)
            || contains(path@, "target"@) || contains(path@, "dist"@) || contains(path@, ".cache"@)
            || contains(path@, ".tox"@)),
{
    str_contains(path, ".git") || str_contains(path, "node_modules") || str_contains(path, "vendor")
        || str_contains(path, "target") || str_contains(path, "dist") || str_contains(path, ".cache")
        || str_contains(path, ".tox")
}

/// A test file: its name holds `_test` or `test_` or starts with `test-`,
/// or it lies directly in a directory named `tests`.
pub open spec fn is_test_entry(file_name: Seq<char>, parent_dir: Seq<char>) -> bool {
    ||| contains(file_name, "_test"@)
    ||| contains(file_name, "test_"@)
    ||| starts_with(file_name, "test-"@)
    ||| parent_dir == "tests"@
}

/// Whether the entry is a test file.
pub fn is_test_file(entry: &FileEntry) -> (r: bool)
    ensures
        r == is_test_entry(entry.file_name@, entry.parent_dir@),
{
    let name = entry.file_name.as_str();
    let is_test_name = str_contains(name, "_test") || str_contains(name, "test_") || {
        let nc = to_chars(name);
        let pc = to_chars("test-");
        range_starts_with(nc.as_slice(), 0, nc.len(), pc.as_slice())
    };
    proof {
        assert(name@.subrange(0, name@.len() as int) =~= name@);
    }
    let is_in_tests_dir = entry.parent_dir == String::from_str("tests");
    is_test_name || is_in_tests_dir
}

/// A line that declares a Go function.
pub open spec fn is_func_line(l: Seq<char>) -> bool {
    starts_with(trim(l), "func "@)
}

/// A line that declares a Python function.
pub open spec fn is_def_line(l: Seq<char>) -> bool {
    starts_with(trim(l), "def "@)
}

/// A line that opens a branch.
pub open spec fn is_branch_line(l: Seq<char>) -> bool {
    let t = trim(l);
    ||| starts_with(t, "if "@)
    ||| starts_with(t, "else if "@)
    ||| starts_with(t, "for "@)
    ||| starts_with(t, "case "@)
    ||| starts_with(t, "&&"@)
    ||| starts_with(t, "||"@)
    ||| starts_with(t, "switch"@)
}

/// Whether a line declares a function or opens a branch depends only on its
/// trimmed text: indentation and trailing white space never matter.
pub proof fn lemma_line_kinds_ignore_white_space(l: Seq<char>)
    ensures
        is_def_line(l) == is_def_line(trim(l)),
        is_func_line(l) == is_func_line(trim(l)),
        is_branch_line(l) == is_branch_line(trim(l)),
{
    lemma_trim_idempotent(l);
}

/// A line declares a Python function exactly when, white space trimmed at
/// both ends, it starts with `def `; a Go function likewise with `func `.
pub proof fn lemma_declaration_lines(l: Seq<char>)
    ensures
        is_def_line(l) <==> (trim(l).len() >= 4 && trim(l).take(4) == "def "@),
        is_func_line(l) <==> (trim(l).len() >= 5 && trim(l).take(5) == "func "@),
{
    reveal_strlit("def ");
    reveal_strlit("func ");
}

/// Number of Go function declarations in a text.
pub open spec fn function_count(content: Seq<char>) -> nat {
    count_where(lines_of(content), |l: Seq<char>| is_func_line(l))
}

/// Estimated cyclomatic complexity: one plus the number of branching lines.
pub open spec fn complexity_of(content: Seq<char>) -> nat {
    1 + count_where(lines_of(content), |l: Seq<char>| is_branch_line(l))
}

/// Counts the lines that declare a Go function.
pub fn count_functions(content: &str) -> (n: usize)
    ensures
        n == function_count(content@),
{
    let lines = split_lines(content);
    let func = to_chars("func ");
    let ghost pred = |l: Seq<char>| is_func_line(l);
    let mut n: usize = 0;
    let mut i: usize = 0;
    while i < lines.len()
        invariant
            i <= lines@.len(),
            n <= i,
            func@ == "func "@,
            pred == (|l: Seq<char>| is_func_line(l)),
            n == count_where(views(lines@).take(i as int), pred),
        decreases lines@.len() - i,
    {
        assert(views(lines@).take(i + 1).drop_last() =~= views(lines@).take(i as int));
        assert(views(lines@).take(i + 1).last() == lines@[i as int]@);
        if trimmed_starts_with(lines[i].as_slice(), func.as_slice()) {
            n = n + 1;
        }
        i = i + 1;
    }
    assert(views(lines@).take(i as int) =~= views(lines@));
    n
}

/// Whether a line opens a branch.
fn branch_line(line: &[char], prefixes: &Vec<Vec<char>>) -> (r: bool)
    requires
        views(prefixes@) == seq!["if "@, "else if "@, "for "@, "case "@, "&&"@, "||"@, "switch"@],
    ensures
        r == is_branch_line(line@),
{
    let (a, b) = trim_bounds(line);
    let ghost t = trim(line@);
    let ghost pv = views(prefixes@);
    let ghost lits = seq!["if "@, "else if "@, "for "@, "case "@, "&&"@, "||"@, "switch"@];
    assert(pv.len() == prefixes@.len());
    assert forall|k: int| 0 <= k < 7 implies prefixes@[k]@ == lits[k] by {
        assert(pv[k] == prefixes@[k]@);
    }
    range_starts_with(line, a, b, prefixes[0].as_slice())
        || range_starts_with(line, a, b, prefixes[1].as_slice())
        || range_starts_with(line, a, b, prefixes[2].as_slice())
        || range_starts_with(line, a, b, prefixes[3].as_slice())
        || range_starts_with(line, a, b, prefixes[4].as_slice())
        || range_starts_with(line, a, b, prefixes[5].as_slice())
        || range_starts_with(line, a, b, prefixes[6].as_slice())
}

proof fn lemma_branch_lines_are_wide()
    ensures
        forall|l: Seq<char>| #[trigger] is_branch_line(l) ==> l.len() >= 2,
{
    reveal_strlit("if ");
    reveal_strlit("else if ");
    reveal_strlit("for ");
    reveal_strlit("case ");
    reveal_strlit("&&");
    reveal_strlit("||");
    reveal_strlit("switch");
    assert forall|l: Seq<char>| #[trigger] is_branch_line(l) implies l.len() >= 2 by {
        lemma_trim_len(l);
    }
}

/// Estimates the cyclomatic complexity of a text.
pub fn estimate_complexity(content: &str) -> (c: u64)
    ensures
        c == complexity_of(content@),
        c >= 1,
{
    let lines = split_lines(content);
    let mut prefixes: Vec<Vec<char>> = Vec::new();
    prefixes.push(to_chars("if "));
    prefixes.push(to_chars("else if "));
    prefixes.push(to_chars("for "));
    prefixes.push(to_chars("case "));
    prefixes.push(to_chars("&&"));
    prefixes.push(to_chars("||"));
    prefixes.push(to_chars("switch"));
    assert(views(prefixes@) =~= seq!["if "@, "else if "@, "for "@, "case "@, "&&"@, "||"@, "switch"@]);
    let ghost pred = |l: Seq<char>| is_branch_line(l);
    proof {
        lemma_branch_lines_are_wide();
        lemma_count_wide_lines(content@, pred);
    }
    let mut complexity: u64 = 1;
    let mut i: usize = 0;
    while i < lines.len()
        invariant
            i <= lines@.len(),
            views(lines@) == lines_of(content@),
            views(prefixes@) == seq!["if "@, "else if "@, "for "@, "case "@, "&&"@, "||"@, "switch"@],
            pred == (|l: Seq<char>| is_branch_line(l)),
            forall|l: Seq<char>| #[trigger] pred(l) ==> l.len() >= 2,
            2 * count_where(lines_of(content@), pred) <= content@.len(),
            content@.len() <= usize::MAX,
            complexity == 1 + count_where(views(lines@).take(i as int), pred),
        decreases lines@.len() - i,
    {
        assert(views(lines@).take(i + 1).drop_last() =~= views(lines@).take(i as int));
        assert(views(lines@).take(i + 1).last() == lines@[i as int]@);
        if branch_line(lines[i].as_slice(), &prefixes) {
            proof {
                lemma_count_where_prefix(views(lines@), i as int + 1, pred);
            }
            complexity = complexity + 1;
        }
        i = i + 1;
    }
    assert(views(lines@).take(i as int) =~= views(lines@));
    complexity
}


/// Functions are counted line by line: where the first text is empty or ends
/// with a line feed, the count over both texts is the sum of the counts.
pub proof fn lemma_function_count_concat(a: Seq<char>, b: Seq<char>)
    requires
        a.len() == 0 || a.last() == '\n',
    ensures
        function_count(a + b) == function_count(a) + function_count(b),
{
    lemma_lines_of_concat(a, b);
    lemma_count_where_concat(lines_of(a), lines_of(b), |l: Seq<char>| is_func_line(l));
}

/// Complexity is counted line by line: where the first text is empty or ends
/// with a line feed, the complexity of both texts is the sum of their
/// complexities less the base of one counted twice.
pub proof fn lemma_complexity_concat(a: Seq<char>, b: Seq<char>)
    requires
        a.len() == 0 || a.last() == '\n',
    ensures
        complexity_of(a + b) == complexity_of(a) + complexity_of(b) - 1,
{
    lemma_lines_of_concat(a, b);
    lemma_count_where_concat(lines_of(a), lines_of(b), |l: Seq<char>| is_branch_line(l));
}

/// Where a brace-delimited function ends, as `find_function_end` scans for it.
pub enum BraceScan {
    /// The braces close on this line.
    End(nat),
    /// The lines run out first.
    Open,
    /// The depth counter leaves the range of `i32` on the way.
    Overflow,
}

/// Brace depth and whether a `{` was seen, after reading `line` from
/// (`depth`, `started`), and whether every depth on the way fits in `i32`.
pub open spec fn scan_chars(depth: int, started: bool, line: Seq<char>) -> (int, bool, bool)
    decreases line.len(),
{
    if line.len() == 0 {
        (depth, started, true)
    } else {
        let (d, st, ok) = scan_chars(depth, started, line.drop_last());
        let c = line.last();
        if c == '{' {
            (d + 1, true, ok && d + 1 <= i32::MAX)
        } else if c == '}' {
            (d - 1, st, ok && d - 1 >= i32::MIN)
        } else {
            (d, st, ok)
        }
    }
}

/// Scanning lines from `i` on, with the counter at `depth`.
pub open spec fn scan_lines(lines: Seq<Seq<char>>, i: int, depth: int, started: bool) -> BraceScan
    decreases lines.len() - i,
{
    if i < 0 || i >= lines.len() {
        BraceScan::Open
    } else {
        let (d, st, ok) = scan_chars(depth, started, lines[i]);
        if !ok {
            BraceScan::Overflow
        } else if st && d <= 0 {
            BraceScan::End(i as nat)
        } else {
            scan_lines(lines, i + 1, d, st)
        }
    }
}

/// The line on which the braces opened by a function close: the first line
/// after which some `{` has been seen and the count of `{` minus `}` is not
/// positive.
pub open spec fn brace_function_end(lines: Seq<Seq<char>>) -> BraceScan {
    scan_lines(lines, 0, 0, false)
}

proof fn lemma_scan_lines_end(lines: Seq<Seq<char>>, i: int, depth: int, started: bool)
    ensures
        scan_lines(lines, i, depth, started) matches BraceScan::End(k) ==> k < lines.len(),
    decreases lines.len() - i,
{
    if 0 <= i < lines.len() {
        let (d, st, ok) = scan_chars(depth, started, lines[i]);
        if ok && !(st && d <= 0) {
            lemma_scan_lines_end(lines, i + 1, d, st);
        }
    }
}

proof fn lemma_indent_scan_end(lines: Seq<Seq<char>>, i: int, base: nat)
    requires
        lines.len() >= 1,
    ensures
        indent_scan(lines, i, base) matches Some(k) ==> k < lines.len(),
    decreases lines.len() - i,
{
    if 1 <= i < lines.len() {
        lemma_indent_scan_end(lines, i + 1, base);
    }
}

proof fn lemma_scan_prefix_ok(depth: int, started: bool, line: Seq<char>, j: int)
    requires
        0 <= j <= line.len(),
        scan_chars(depth, started, line).2,
    ensures
        scan_chars(depth, started, line.take(j)).2,
    decreases line.len(),
{
    if j < line.len() {
        assert(line.drop_last().take(j) =~= line.take(j));
        lemma_scan_prefix_ok(depth, started, line.drop_last(), j);
    } else {
        assert(line.take(j) =~= line);
    }
}

/// Finds the line on which a brace-delimited function closes.
pub fn find_function_end(lines: &[Vec<char>]) -> (r: Option<usize>)
    requires
        !(brace_function_end(views(lines@)) is Overflow),
    ensures
        match brace_function_end(views(lines@)) {
            BraceScan::End(k) => r == Some(k as usize),
            _ => r is None,
        },
        r matches Some(k) ==> k < lines@.len(),
        brace_function_end(views(lines@)) matches BraceScan::End(k) ==> k < lines@.len(),
{
    let ghost ls = views(lines@);
    proof {
        lemma_scan_lines_end(ls, 0, 0, false);
    }
    let mut brace_count: i32 = 0;
    let mut started = false;
    let mut i: usize = 0;
    while i < lines.len()
        invariant
            ls == views(lines@),
            i <= lines@.len(),
            scan_lines(ls, i as int, brace_count as int, started) == brace_function_end(ls),
            !(brace_function_end(ls) is Overflow),
        decreases lines@.len() - i,
    {
        let line = &lines[i];
        let ghost d0 = brace_count as int;
        let ghost s0 = started;
        assert(ls[i as int] == line@);
        let mut j: usize = 0;
        while j < line.len()
            invariant
                j <= line@.len(),
                scan_chars(d0, s0, line@).2,
                scan_chars(d0, s0, line@.take(j as int)) == (brace_count as int, started, true),
            decreases line@.len() - j,
        {
            let ch = line[j];
            proof {
                assert(line@.take(j + 1).drop_last() =~= line@.take(j as int));
                lemma_scan_prefix_ok(d0, s0, line@, j + 1);
            }
            if ch == '{' {
                brace_count = brace_count + 1;
                started = true;
            } else if ch == '}' {
                brace_count = brace_count - 1;
            }
            j = j + 1;
        }
        assert(line@.take(j as int) =~= line@);
        if started && brace_count <= 0 {
            return Some(i);
        }
        i = i + 1;
    }
    None
}

/// The line on which an indented (Python) function ends, scanning from
/// line `i` on against the indentation `base` of its first line.
pub open spec fn indent_scan(lines: Seq<Seq<char>>, i: int, base: nat) -> Option<nat>
    decreases lines.len() - i,
{
    if i < 1 || i >= lines.len() {
        Some((lines.len() - 1) as nat)
    } else if trim(lines[i]).len() > 0 && leading_ws_bytes(lines[i]) <= base && trim(lines[i])[0]
        != '#' {
        Some((i - 1) as nat)
    } else {
        indent_scan(lines, i + 1, base)
    }
}

/// The last line of a Python function whose `def` is `lines[0]`: the line
/// before the first non-blank, non-comment line indented no deeper than the
/// `def`, or the last line.  The indentation is only taken when line 1 is
/// not blank; otherwise the function runs to the last line.
pub open spec fn indent_function_end(lines: Seq<Seq<char>>) -> Option<nat> {
    if lines.len() == 0 {
        None
    } else if lines.len() < 2 || trim(lines[1]).len() == 0 {
        Some((lines.len() - 1) as nat)
    } else {
        indent_scan(lines, 1, leading_ws_bytes(lines[0]))
    }
}

/// Finds the last line of an indented (Python) function.
pub fn find_python_function_end(lines: &[Vec<char>]) -> (r: Option<usize>)
    requires
        forall|k: int| 0 <= k < lines@.len() ==> byte_len(#[trigger] lines@[k]@) <= usize::MAX,
    ensures
        r == match indent_function_end(views(lines@)) {
            Some(k) => Some(k as usize),
            None => None::<usize>,
        },
        r matches Some(k) ==> k < lines@.len(),
        indent_function_end(views(lines@)) matches Some(k) ==> k < lines@.len(),
{
    let ghost ls = views(lines@);
    proof {
        if ls.len() >= 1 {
            lemma_indent_scan_end(ls, 1, leading_ws_bytes(ls[0]));
        }
    }
    let n = lines.len();
    if n == 0 {
        return None;
    }
    assert(ls.len() == n);
    let mut indent_level: Option<usize> = None;
    let mut i: usize = 0;
    while i < n
        invariant
            n == lines@.len(),
            ls == views(lines@),
            n >= 1,
            0 <= i <= n,
            forall|k: int| 0 <= k < lines@.len() ==> byte_len(#[trigger] lines@[k]@) <= usize::MAX,
            i <= 1 ==> indent_level is None,
            i > 1 ==> (indent_level is None <==> (trim(ls[1]).len() == 0)),
            i > 1 ==> (indent_level matches Some(b) ==> b == leading_ws_bytes(ls[0]) && indent_scan(
                ls,
                i as int,
                leading_ws_bytes(ls[0]),
            ) == indent_function_end(ls)),
        decreases n - i,
    {
        if i == 0 {
            i = i + 1;
            continue;
        }
        let line = &lines[i];
        assert(ls[i as int] == line@);
        let (a, b) = trim_bounds(line.as_slice());
        assert(trim(ls[i as int]) == line@.subrange(a as int, b as int));
        assert(trim(ls[i as int]).len() == b - a);
        if a == b {
            i = i + 1;
            continue;
        }
        if i == 1 {
            assert(ls[0] == lines@[0]@);
            indent_level = Some(count_leading_ws_bytes(lines[0].as_slice()));
        }
        if let Some(base) = indent_level {
            let current_spaces = count_leading_ws_bytes(line.as_slice());
            assert(trim(ls[i as int])[0] == line@[a as int]);
            if current_spaces <= base && line[a] != '#' {
                return Some(i - 1);
            }
        }
        i = i + 1;
    }
    Some(n - 1)
}


/// "File is too long (N lines, max M)".
pub open spec fn too_long_message(lines: nat, max: nat) -> Seq<char> {
    "File is too long ("@ + decimal(lines) + " lines, max "@ + decimal(max) + ")"@
}

/// "Function at line L is N lines (max M)".
pub open spec fn function_message(line: nat, len: nat, max: nat) -> Seq<char> {
    "Function at line "@ + decimal(line) + " is "@ + decimal(len) + " lines (max "@ + decimal(max)
        + ")"@
}

/// "File has high complexity (C)".
pub open spec fn complexity_message(c: nat) -> Seq<char> {
    "File has high complexity ("@ + decimal(c) + ")"@
}

fn make_too_long_message(lines: u64, max: u32) -> (m: String)
    ensures
        m@ == too_long_message(lines as nat, max as nat),
{
    let mut m = String::new();
    push_str(&mut m, "File is too long (");
    push_decimal(&mut m, lines);
    push_str(&mut m, " lines, max ");
    push_decimal(&mut m, max as u64);
    push_str(&mut m, ")");
    m
}

fn make_function_message(line: usize, len: usize, max: u32) -> (m: String)
    ensures
        m@ == function_message(line as nat, len as nat, max as nat),
{
    let mut m = String::new();
    push_str(&mut m, "Function at line ");
    push_decimal(&mut m, line as u64);
    push_str(&mut m, " is ");
    push_decimal(&mut m, len as u64);
    push_str(&mut m, " lines (max ");
    push_decimal(&mut m, max as u64);
    push_str(&mut m, ")");
    m
}

fn make_complexity_message(c: u64) -> (m: String)
    ensures
        m@ == complexity_message(c as nat),
{
    let mut m = String::new();
    push_str(&mut m, "File has high complexity (");
    push_decimal(&mut m, c);
    push_str(&mut m, ")");
    m
}

/// The issue that a file longer than allowed raises.
pub open spec fn length_issues(path: Seq<char>, n: nat, cfg: Config, is_test: bool) -> Seq<IssueView> {
    if n > cfg.max_file_length && !is_test {
        seq![
            IssueView {
                file: path,
                severity: Severity::Warning,
                category: Category::Length,
                message: too_long_message(n, cfg.max_file_length as nat),
                line: None,
            },
        ]
    } else {
        Seq::empty()
    }
}

/// The issue that a function of `len` lines declared on line `i` raises.
pub open spec fn function_issue(path: Seq<char>, i: int, len: nat, cfg: Config, is_test: bool) -> Seq<IssueView> {
    if len > cfg.max_function_length && !is_test {
        seq![
            IssueView {
                file: path,
                severity: Severity::Info,
                category: Category::Length,
                message: function_message((i + 1) as nat, len, cfg.max_function_length as nat),
                line: Some((i + 1) as usize),
            },
        ]
    } else {
        Seq::empty()
    }
}

/// The issue that the Go function declared on line `i`, if any, raises.
pub open spec fn func_issue_at(path: Seq<char>, ls: Seq<Seq<char>>, i: int, cfg: Config, is_test: bool) -> Seq<IssueView> {
    if is_func_line(ls[i]) {
        match brace_function_end(ls.skip(i)) {
            BraceScan::End(e) => function_issue(path, i, e + 1, cfg, is_test),
            _ => Seq::empty(),
        }
    } else {
        Seq::empty()
    }
}

/// The issue that the Python function declared on line `i`, if any, raises.
pub open spec fn def_issue_at(path: Seq<char>, ls: Seq<Seq<char>>, i: int, cfg: Config, is_test: bool) -> Seq<IssueView> {
    if is_def_line(ls[i]) {
        match indent_function_end(ls.skip(i)) {
            Some(e) => function_issue(path, i, e + 1, cfg, is_test),
            None => Seq::empty(),
        }
    } else {
        Seq::empty()
    }
}

/// Issues of the Go functions declared on the first `k` lines, in order.
pub open spec fn func_issues(path: Seq<char>, ls: Seq<Seq<char>>, k: int, cfg: Config, is_test: bool) -> Seq<IssueView>
    decreases k,
{
    if k <= 0 {
        Seq::empty()
    } else {
        func_issues(path, ls, k - 1, cfg, is_test) + func_issue_at(path, ls, k - 1, cfg, is_test)
    }
}

/// Issues of the Python functions declared on the first `k` lines, in order.
pub open spec fn def_issues(path: Seq<char>, ls: Seq<Seq<char>>, k: int, cfg: Config, is_test: bool) -> Seq<IssueView>
    decreases k,
{
    if k <= 0 {
        Seq::empty()
    } else {
        def_issues(path, ls, k - 1, cfg, is_test) + def_issue_at(path, ls, k - 1, cfg, is_test)
    }
}

/// The issue that a file more complex than allowed raises.
pub open spec fn complexity_issues(path: Seq<char>, c: nat, cfg: Config) -> Seq<IssueView> {
    if c > cfg.max_complexity {
        seq![
            IssueView {
                file: path,
                severity: Severity::Warning,
                category: Category::Complexity,
                message: complexity_message(c),
                line: None,
            },
        ]
    } else {
        Seq::empty()
    }
}

/// Every issue a readable file raises, in the order they are reported.
pub open spec fn file_issues(path: Seq<char>, content: Seq<char>, cfg: Config, is_test: bool) -> Seq<IssueView> {
    let ls = lines_of(content);
    length_issues(path, ls.len(), cfg, is_test) + func_issues(path, ls, ls.len() as int, cfg, is_test)
        + def_issues(path, ls, ls.len() as int, cfg, is_test) + complexity_issues(
        path,
        complexity_of(content),
        cfg,
    )
}

/// The brace counter stays within `i32` for every Go function of the text.
pub open spec fn braces_fit(content: Seq<char>) -> bool {
    let ls = lines_of(content);
    forall|i: int| 0 <= i < ls.len() && #[trigger] is_func_line(ls[i]) ==> !(brace_function_end(ls.skip(i)) is Overflow)
}

/// Statistics of a file: a file that could not be read counts as empty.
pub open spec fn stats_of(content: Option<Seq<char>>, is_test: bool) -> FileStats {
    match content {
        Some(c) => FileStats {
            lines: lines_of(c).len() as u64,
            functions: function_count(c) as u64,
            complexity: complexity_of(c) as u64,
            test_match: is_test,
        },
        None => FileStats { lines: 0, functions: 0, complexity: 0, test_match: is_test },
    }
}


fn push_func_issues(
    path: &String,
    lines: &Vec<Vec<char>>,
    config: &Config,
    is_test: bool,
    issues: &mut Vec<Issue>,
)
    requires
        forall|i: int|
            0 <= i < lines@.len() && #[trigger] is_func_line(views(lines@)[i]) ==> !(
            brace_function_end(views(lines@).skip(i)) is Overflow),
    ensures
        issue_views(final(issues)@) == issue_views(old(issues)@) + func_issues(
            path@,
            views(lines@),
            lines@.len() as int,
            *config,
            is_test,
        ),
{
    let ghost ls = views(lines@);
    let ghost start = issue_views(issues@);
    let func = to_chars("func ");
    let n = lines.len();
    let mut i: usize = 0;
    assert(start =~= start + func_issues(path@, ls, 0, *config, is_test));
    while i < n
        invariant
            n == lines@.len(),
            ls == views(lines@),
            i <= n,
            func@ == "func "@,
            forall|i: int|
                0 <= i < lines@.len() && #[trigger] is_func_line(views(lines@)[i]) ==> !(
                brace_function_end(views(lines@).skip(i)) is Overflow),
            issue_views(issues@) == start + func_issues(path@, ls, i as int, *config, is_test),
        decreases n - i,
    {
        let ghost before = issue_views(issues@);
        assert(ls[i as int] == lines@[i as int]@);
        if trimmed_starts_with(lines[i].as_slice(), func.as_slice()) {
            assert(is_func_line(ls[i as int]));
            let rest = slice_subrange(lines.as_slice(), i, n);
            assert(views(rest@) =~= ls.skip(i as int));
            if let Some(end) = find_function_end(rest) {
                let len = end + 1;
                if len > config.max_function_length as usize && !is_test {
                    let message = make_function_message(i + 1, len, config.max_function_length);
                    let issue = Issue {
                        file: path.clone(),
                        severity: Severity::Info,
                        category: Category::Length,
                        message,
                        line: Some(i + 1),
                    };
                    issues.push(issue);
                    assert(issue_views(issues@) =~= before.push(issue@));
                }
            }
        }
        assert(issue_views(issues@) =~= before + func_issue_at(path@, ls, i as int, *config, is_test));
        i = i + 1;
    }
}

fn push_def_issues(
    path: &String,
    lines: &Vec<Vec<char>>,
    config: &Config,
    is_test: bool,
    issues: &mut Vec<Issue>,
)
    requires
        forall|k: int| 0 <= k < lines@.len() ==> byte_len(#[trigger] lines@[k]@) <= usize::MAX,
    ensures
        issue_views(final(issues)@) == issue_views(old(issues)@) + def_issues(
            path@,
            views(lines@),
            lines@.len() as int,
            *config,
            is_test,
        ),
{
    let ghost ls = views(lines@);
    let ghost start = issue_views(issues@);
    let def = to_chars("def ");
    let n = lines.len();
    let mut i: usize = 0;
    assert(start =~= start + def_issues(path@, ls, 0, *config, is_test));
    while i < n
        invariant
            n == lines@.len(),
            ls == views(lines@),
            i <= n,
            def@ == "def "@,
            forall|k: int| 0 <= k < lines@.len() ==> byte_len(#[trigger] lines@[k]@) <= usize::MAX,
            issue_views(issues@) == start + def_issues(path@, ls, i as int, *config, is_test),
        decreases n - i,
    {
        let ghost before = issue_views(issues@);
        assert(ls[i as int] == lines@[i as int]@);
        if trimmed_starts_with(lines[i].as_slice(), def.as_slice()) {
            assert(is_def_line(ls[i as int]));
            let rest = slice_subrange(lines.as_slice(), i, n);
            assert(views(rest@) =~= ls.skip(i as int));
            assert(forall|k: int| 0 <= k < rest@.len() ==> rest@[k] == lines@[i + k]);
            if let Some(end) = find_python_function_end(rest) {
                let len = end + 1;
                if len > config.max_function_length as usize && !is_test {
                    let message = make_function_message(i + 1, len, config.max_function_length);
                    let issue = Issue {
                        file: path.clone(),
                        severity: Severity::Info,
                        category: Category::Length,
                        message,
                        line: Some(i + 1),
                    };
                    issues.push(issue);
                    assert(issue_views(issues@) =~= before.push(issue@));
                }
            }
        }
        assert(issue_views(issues@) =~= before + def_issue_at(path@, ls, i as int, *config, is_test));
        i = i + 1;
    }
}

/// The text of an optional string.
pub open spec fn opt_view(content: Option<String>) -> Option<Seq<char>> {
    match content {
        Some(c) => Some(c@),
        None => None,
    }
}

/// Analyzes one file, given its text or `None` where it could not be read:
/// its statistics, and the issues it raises (none for a test file's length).
pub fn analyze_file(entry: &FileEntry, content: &Option<String>, config: &Config, is_test: bool) -> (r: (
    FileStats,
    Vec<Issue>,
))
    requires
        content matches Some(c) ==> braces_fit(c@),
    ensures
        r.0 == stats_of(opt_view(*content), is_test),
        issue_views(r.1@) == match content {
            Some(c) => file_issues(entry.path@, c@, *config, is_test),
            None => Seq::empty(),
        },
{
    let text = match content {
        Some(c) => c.as_str(),
        None => {
            let stats = FileStats { lines: 0, functions: 0, complexity: 0, test_match: is_test };
            let issues: Vec<Issue> = Vec::new();
            assert(issue_views(issues@) =~= Seq::empty());
            return (stats, issues);
        },
    };
    let lines = split_lines(text);
    let ghost ls = views(lines@);
    let line_count = lines.len() as u64;
    let mut issues: Vec<Issue> = Vec::new();
    assert(issue_views(issues@) =~= Seq::empty());
    if line_count > config.max_file_length as u64 && !is_test {
        let issue = Issue {
            file: entry.path.clone(),
            severity: Severity::Warning,
            category: Category::Length,
            message: make_too_long_message(line_count, config.max_file_length),
            line: None,
        };
        issues.push(issue);
    }
    assert(issue_views(issues@) =~= length_issues(entry.path@, ls.len(), *config, is_test));
    let function_count = count_functions(text);
    let complexity = estimate_complexity(text);
    push_func_issues(&entry.path, &lines, config, is_test, &mut issues);
    let bytes = str_byte_len(text);
    proof {
        lemma_line_bytes(text@);
        assert forall|k: int| 0 <= k < lines@.len() implies byte_len(#[trigger] lines@[k]@)
            <= usize::MAX by {
            assert(ls[k] == lines@[k]@);
        }
    }
    push_def_issues(&entry.path, &lines, config, is_test, &mut issues);
    let ghost before = issue_views(issues@);
    if complexity > config.max_complexity as u64 {
        let issue = Issue {
            file: entry.path.clone(),
            severity: Severity::Warning,
            category: Category::Complexity,
            message: make_complexity_message(complexity),
            line: None,
        };
        issues.push(issue);
        assert(issue_views(issues@) =~= before.push(issue@));
    }
    assert(issue_views(issues@) =~= before + complexity_issues(entry.path@, complexity as nat, *config));
    let stats = FileStats {
        lines: line_count,
        functions: function_count as u64,
        complexity,
        test_match: is_test,
    };
    (stats, issues)
}


/// The result of analyzing a set of files.
#[derive(Debug)]
pub struct AnalysisResult {
    pub total_files: usize,
    pub total_lines: u64,
    pub total_issues: usize,
    pub critical: usize,
    pub warnings: usize,
    pub infos: usize,
    pub issues: Vec<Issue>,
    /// Statistics per file path, in the order the paths were first seen.
    pub file_stats: Vec<(String, FileStats)>,
}

/// The views of a statistics table.
pub open spec fn stat_views(fs: Seq<(String, FileStats)>) -> Seq<(Seq<char>, FileStats)> {
    fs.map_values(|p: (String, FileStats)| (p.0@, p.1))
}

/// Position of `key` in the table at or after `j`, or -1.
pub open spec fn key_index(fs: Seq<(Seq<char>, FileStats)>, key: Seq<char>, j: int) -> int
    decreases fs.len() - j,
{
    if j < 0 || j >= fs.len() {
        -1
    } else if fs[j].0 == key {
        j
    } else {
        key_index(fs, key, j + 1)
    }
}

/// The table with `key` mapped to `v`: its entry replaced where the key is
/// present, appended otherwise.
pub open spec fn insert_stat(fs: Seq<(Seq<char>, FileStats)>, key: Seq<char>, v: FileStats) -> Seq<(Seq<char>, FileStats)> {
    let i = key_index(fs, key, 0);
    if i < 0 {
        fs.push((key, v))
    } else {
        fs.update(i, (key, v))
    }
}

/// Whether the entry is a test file.
pub open spec fn entry_is_test(e: FileEntry) -> bool {
    is_test_entry(e.file_name@, e.parent_dir@)
}

/// Statistics of an entry given its text.
pub open spec fn entry_stats(e: FileEntry, c: Option<String>) -> FileStats {
    stats_of(opt_view(c), entry_is_test(e))
}

/// Issues an entry raises given its text.
pub open spec fn entry_issues(e: FileEntry, c: Option<String>, cfg: Config) -> Seq<IssueView> {
    match c {
        Some(t) => file_issues(e.path@, t@, cfg, entry_is_test(e)),
        None => Seq::empty(),
    }
}

/// Issues of the first `k` entries, in order.
pub open spec fn all_issues(es: Seq<FileEntry>, cs: Seq<Option<String>>, cfg: Config, k: int) -> Seq<IssueView>
    decreases k,
{
    if k <= 0 {
        Seq::empty()
    } else {
        all_issues(es, cs, cfg, k - 1) + entry_issues(es[k - 1], cs[k - 1], cfg)
    }
}

/// Lines of the first `k` entries.
pub open spec fn lines_total(es: Seq<FileEntry>, cs: Seq<Option<String>>, k: int) -> nat
    decreases k,
{
    if k <= 0 {
        0
    } else {
        lines_total(es, cs, k - 1) + (entry_stats(es[k - 1], cs[k - 1]).lines as nat)
    }
}

/// Statistics table of the first `k` entries.
pub open spec fn stats_table(es: Seq<FileEntry>, cs: Seq<Option<String>>, k: int) -> Seq<(Seq<char>, FileStats)>
    decreases k,
{
    if k <= 0 {
        Seq::empty()
    } else {
        insert_stat(stats_table(es, cs, k - 1), es[k - 1].path@, entry_stats(es[k - 1], cs[k - 1]))
    }
}

/// Number of issues of a given severity.
pub open spec fn count_severity(issues: Seq<IssueView>, sev: Severity) -> nat
    decreases issues.len(),
{
    if issues.len() == 0 {
        0
    } else {
        count_severity(issues.drop_last(), sev) + if issues.last().severity == sev {
            1nat
        } else {
            0nat
        }
    }
}

/// Every readable entry keeps its brace counters within `i32`, and the
/// total line count fits in `u64`.
pub open spec fn analysis_fits(es: Seq<FileEntry>, cs: Seq<Option<String>>) -> bool {
    &&& forall|k: int| 0 <= k < cs.len() ==> (#[trigger] cs[k] matches Some(c) ==> braces_fit(c@))
    &&& lines_total(es, cs, es.len() as int) <= u64::MAX
}

proof fn lemma_count_severity_le(issues: Seq<IssueView>, sev: Severity)
    ensures
        count_severity(issues, sev) <= issues.len(),
    decreases issues.len(),
{
    if issues.len() > 0 {
        lemma_count_severity_le(issues.drop_last(), sev);
    }
}

proof fn lemma_lines_total_mono(es: Seq<FileEntry>, cs: Seq<Option<String>>, j: int, k: int)
    requires
        0 <= j <= k,
    ensures
        lines_total(es, cs, j) <= lines_total(es, cs, k),
    decreases k,
{
    if j < k {
        lemma_lines_total_mono(es, cs, j, k - 1);
    }
}

fn insert_file_stats(table: &mut Vec<(String, FileStats)>, path: &String, stats: FileStats)
    ensures
        stat_views(final(table)@) == insert_stat(stat_views(old(table)@), path@, stats),
{
    let ghost fs = stat_views(table@);
    let mut j: usize = 0;
    while j < table.len()
        invariant
            fs == stat_views(table@),
            table@ == old(table)@,
            j <= table@.len(),
            key_index(fs, path@, j as int) == key_index(fs, path@, 0),
        decreases table@.len() - j,
    {
        assert(fs[j as int] == (table@[j as int].0@, table@[j as int].1));
        let same = table[j].0 == *path;
        if same {
            assert(fs[j as int].0 == path@);
            assert(key_index(fs, path@, j as int) == j);
            let key = path.clone();
            table.set(j, (key, stats));
            assert(stat_views(table@) =~= fs.update(j as int, (path@, stats)));
            assert(insert_stat(fs, path@, stats) == fs.update(j as int, (path@, stats)));
            return;
        }
        j = j + 1;
    }
    table.push((path.clone(), stats));
    assert(stat_views(table@) =~= insert_stat(fs, path@, stats));
}

/// Analyzes files given their texts (`None` for a file that could not be
/// read): the totals, every issue in order, and the statistics per path.
pub fn analyze_entries(entries: &Vec<FileEntry>, contents: &Vec<Option<String>>, config: &Config) -> (r: AnalysisResult)
    requires
        entries@.len() == contents@.len(),
        analysis_fits(entries@, contents@),
    ensures
        r.total_files == entries@.len(),
        r.total_lines == lines_total(entries@, contents@, entries@.len() as int),
        issue_views(r.issues@) == all_issues(entries@, contents@, *config, entries@.len() as int),
        r.total_issues == r.issues@.len(),
        r.critical == count_severity(issue_views(r.issues@), Severity::Critical),
        r.warnings == count_severity(issue_views(r.issues@), Severity::Warning),
        r.infos == count_severity(issue_views(r.issues@), Severity::Info),
        stat_views(r.file_stats@) == stats_table(entries@, contents@, entries@.len() as int),
        r.critical == 0,
        r.total_issues == r.critical + r.warnings + r.infos,
{
    let ghost es = entries@;
    let ghost cs = contents@;
    proof {
        lemma_all_issues_no_critical(es, cs, *config, es.len() as int);
    }
    let mut result = AnalysisResult {
        total_files: 0,
        total_lines: 0,
        total_issues: 0,
        critical: 0,
        warnings: 0,
        infos: 0,
        issues: Vec::new(),
        file_stats: Vec::new(),
    };
    assert(issue_views(result.issues@) =~= Seq::empty());
    assert(stat_views(result.file_stats@) =~= Seq::empty());
    let n = entries.len();
    let mut k: usize = 0;
    while k < n
        invariant
            n == es.len(),
            es == entries@,
            cs == contents@,
            cs.len() == n,
            analysis_fits(es, cs),
            k <= n,
            result.total_files == k,
            result.total_lines == lines_total(es, cs, k as int),
            issue_views(result.issues@) == all_issues(es, cs, *config, k as int),
            result.total_issues == result.issues@.len(),
            result.critical == count_severity(issue_views(result.issues@), Severity::Critical),
            result.warnings == count_severity(issue_views(result.issues@), Severity::Warning),
            result.infos == count_severity(issue_views(result.issues@), Severity::Info),
            stat_views(result.file_stats@) == stats_table(es, cs, k as int),
        decreases n - k,
    {
        let entry = &entries[k];
        let is_test = is_test_file(entry);
        assert(cs[k as int] matches Some(c) ==> braces_fit(c@));
        let (stats, mut issues) = analyze_file(entry, &contents[k], config, is_test);
        proof {
            lemma_lines_total_mono(es, cs, k + 1, n as int);
        }
        result.total_files = result.total_files + 1;
        result.total_lines = result.total_lines + stats.lines;
        let ghost before = issue_views(result.issues@);
        let ghost added = issue_views(issues@);
        let start = result.issues.len();
        result.issues.append(&mut issues);
        assert(issue_views(result.issues@) =~= before + added);
        assert(issue_views(result.issues@).take(start as int) =~= before);
        let mut j = start;
        while j < result.issues.len()
            invariant
                start <= j <= result.issues@.len(),
                before.len() == start,
                issue_views(result.issues@) == before + added,
                result.total_issues == j,
                result.total_files == k + 1,
                result.total_lines == lines_total(es, cs, k + 1),
                stat_views(result.file_stats@) == stats_table(es, cs, k as int),
                result.critical == count_severity(issue_views(result.issues@).take(j as int), Severity::Critical),
                result.warnings == count_severity(issue_views(result.issues@).take(j as int), Severity::Warning),
                result.infos == count_severity(issue_views(result.issues@).take(j as int), Severity::Info),
            decreases result.issues@.len() - j,
        {
            let ghost iv = issue_views(result.issues@);
            assert(iv.take(j + 1).drop_last() =~= iv.take(j as int));
            assert(iv.take(j + 1).last() == result.issues@[j as int]@);
            proof {
                lemma_count_severity_le(iv.take(j as int), Severity::Critical);
                lemma_count_severity_le(iv.take(j as int), Severity::Warning);
                lemma_count_severity_le(iv.take(j as int), Severity::Info);
            }
            match result.issues[j].severity {
                Severity::Critical => result.critical = result.critical + 1,
                Severity::Warning => result.warnings = result.warnings + 1,
                Severity::Info => result.infos = result.infos + 1,
            }
            result.total_issues = result.total_issues + 1;
            j = j + 1;
        }
        assert(issue_views(result.issues@).take(j as int) =~= issue_views(result.issues@));
        insert_file_stats(&mut result.file_stats, &entry.path, stats);
        k = k + 1;
    }
    proof {
        lemma_severity_partition(issue_views(result.issues@));
    }
    result
}


/// Whether the brace counter leaves the range of `i32` while scanning.
fn brace_scan_overflows(lines: &[Vec<char>]) -> (b: bool)
    ensures
        b == (brace_function_end(views(lines@)) is Overflow),
{
    let ghost ls = views(lines@);
    let mut depth: i64 = 0;
    let mut started = false;
    let mut i: usize = 0;
    while i < lines.len()
        invariant
            ls == views(lines@),
            i <= lines@.len(),
            i32::MIN <= depth <= i32::MAX,
            scan_lines(ls, i as int, depth as int, started) == brace_function_end(ls),
        decreases lines@.len() - i,
    {
        let line = &lines[i];
        let ghost d0 = depth as int;
        let ghost s0 = started;
        assert(ls[i as int] == line@);
        let mut j: usize = 0;
        while j < line.len()
            invariant
                j <= line@.len(),
                i < lines@.len(),
                ls == views(lines@),
                ls[i as int] == line@,
                scan_lines(ls, i as int, d0, s0) == brace_function_end(ls),
                i32::MIN <= depth <= i32::MAX,
                scan_chars(d0, s0, line@.take(j as int)) == (depth as int, started, true),
            decreases line@.len() - j,
        {
            let ch = line[j];
            assert(line@.take(j + 1).drop_last() =~= line@.take(j as int));
            if ch == '{' {
                if depth == i32::MAX as i64 {
                    proof {
                        lemma_scan_suffix_fails(d0, s0, line@, j + 1);
                    }
                    return true;
                }
                depth = depth + 1;
                started = true;
            } else if ch == '}' {
                if depth == i32::MIN as i64 {
                    proof {
                        lemma_scan_suffix_fails(d0, s0, line@, j + 1);
                    }
                    return true;
                }
                depth = depth - 1;
            }
            j = j + 1;
        }
        assert(line@.take(j as int) =~= line@);
        if started && depth <= 0 {
            return false;
        }
        i = i + 1;
    }
    false
}

/// Once a prefix of a line overflows, the whole line does.
proof fn lemma_scan_suffix_fails(depth: int, started: bool, line: Seq<char>, j: int)
    requires
        0 <= j <= line.len(),
        !scan_chars(depth, started, line.take(j)).2,
    ensures
        !scan_chars(depth, started, line).2,
{
    if scan_chars(depth, started, line).2 {
        lemma_scan_prefix_ok(depth, started, line, j);
    }
}

/// Whether the brace counter stays within `i32` for every Go function of a text.
pub fn braces_fit_in(content: &str) -> (b: bool)
    ensures
        b == braces_fit(content@),
{
    let lines = split_lines(content);
    let ghost ls = views(lines@);
    let func = to_chars("func ");
    let n = lines.len();
    let mut i: usize = 0;
    while i < n
        invariant
            n == lines@.len(),
            ls == views(lines@),
            ls == lines_of(content@),
            func@ == "func "@,
            i <= n,
            forall|k: int| 0 <= k < i && #[trigger] is_func_line(ls[k]) ==> !(brace_function_end(ls.skip(k)) is Overflow),
        decreases n - i,
    {
        assert(ls[i as int] == lines@[i as int]@);
        if trimmed_starts_with(lines[i].as_slice(), func.as_slice()) {
            let rest = slice_subrange(lines.as_slice(), i, n);
            assert(views(rest@) =~= ls.skip(i as int));
            if brace_scan_overflows(rest) {
                assert(is_func_line(ls[i as int]));
                return false;
            }
        }
        i = i + 1;
    }
    true
}

/// Number of the first `k` entries that are (`want`) or are not test files.
pub open spec fn test_count(es: Seq<FileEntry>, k: int, want: bool) -> nat
    decreases k,
{
    if k <= 0 {
        0
    } else {
        test_count(es, k - 1, want) + if entry_is_test(es[k - 1]) == want {
            1nat
        } else {
            0nat
        }
    }
}

/// Counts the source files and the test files among the entries.
pub fn count_test_files(entries: &Vec<FileEntry>) -> (r: (usize, usize))
    ensures
        r.0 == test_count(entries@, entries@.len() as int, false),
        r.1 == test_count(entries@, entries@.len() as int, true),
        r.0 + r.1 == entries@.len(),
{
    let mut sources: usize = 0;
    let mut tests: usize = 0;
    let mut k: usize = 0;
    while k < entries.len()
        invariant
            k <= entries@.len(),
            sources + tests == k,
            sources == test_count(entries@, k as int, false),
            tests == test_count(entries@, k as int, true),
        decreases entries@.len() - k,
    {
        if is_test_file(&entries[k]) {
            tests = tests + 1;
        } else {
            sources = sources + 1;
        }
        k = k + 1;
    }
    (sources, tests)
}

/// The test files and the other files split the entries: the first are
/// exactly the entries that `is_test_entry` accepts, the second the rest,
/// and the two counts add up to the number of entries.
pub proof fn lemma_test_count_partition(es: Seq<FileEntry>, k: int)
    requires
        0 <= k <= es.len(),
    ensures
        test_count(es, k, false) + test_count(es, k, true) == k,
        test_count(es, k, true) == es.take(k).filter(|e: FileEntry| entry_is_test(e)).len(),
        test_count(es, k, false) == es.take(k).filter(|e: FileEntry| !entry_is_test(e)).len(),
    decreases k,
{
    reveal(Seq::filter);
    if k > 0 {
        lemma_test_count_partition(es, k - 1);
        assert(es.take(k).drop_last() =~= es.take(k - 1));
        assert(es.take(k).last() == es[k - 1]);
    }
}

/// Entries that no ignore pattern matches and that lie in no skipped directory.
pub open spec fn kept_entries(es: Seq<FileEntry>, cfg: Config) -> Seq<FileEntry>
    decreases es.len(),
{
    if es.len() == 0 {
        Seq::empty()
    } else {
        let rest = kept_entries(es.drop_last(), cfg);
        let e = es.last();
        if !ignored_by(string_views(cfg.ignore@), e.path@) && !in_skipped_dir(e.path@) {
            rest.push(e)
        } else {
            rest
        }
    }
}

/// Keeps, in order, the entries to analyze.
pub fn collect_entries(candidates: Vec<FileEntry>, config: &Config) -> (r: Vec<FileEntry>)
    ensures
        r@ == kept_entries(candidates@, *config),
{
    let ghost all = candidates@;
    let mut kept: Vec<FileEntry> = Vec::new();
    for e in it: candidates
        invariant
            it.seq() == all,
            kept@ == kept_entries(all.take(it.index() as int), *config),
    {
        let ghost k = it.index() as int;
        assert(all.take(k + 1).drop_last() =~= all.take(k));
        assert(all.take(k + 1).last() == e);
        let skip = config.should_ignore(e.path.as_str()) || should_skip_dir(e.path.as_str());
        if !skip {
            kept.push(e);
        }
    }
    assert(all.take(all.len() as int) =~= all);
    kept
}

/// No kept entry lies under `.git`, `node_modules`, `vendor`, `target`,
/// `dist`, `.cache` or `.tox` (its path holds none of these names), and every
/// entry whose path holds none of them and matches no ignore pattern is kept.
pub proof fn lemma_kept_entries_skip_names(es: Seq<FileEntry>, cfg: Config)
    ensures
        forall|i: int| 0 <= i < kept_entries(es, cfg).len() ==> {
            let p = #[trigger] kept_entries(es, cfg)[i].path@;
            &&& !contains(p, ".git"@)
            &&& !contains(p, "node_modules"@)
            &&& !contains(p, "vendor"@)
            &&& !contains(p, "target"@)
            &&& !contains(p, "dist"@)
            &&& !contains(p, ".cache"@)
            &&& !contains(p, ".tox"@)
        },
        forall|k: int| 0 <= k < es.len() ==> ({
            let p = #[trigger] es[k].path@;
            &&& !contains(p, ".git"@)
            &&& !contains(p, "node_modules"@)
            &&& !contains(p, "vendor"@)
            &&& !contains(p, "target"@)
            &&& !contains(p, "dist"@)
            &&& !contains(p, ".cache"@)
            &&& !contains(p, ".tox"@)
            &&& !ignored_by(string_views(cfg.ignore@), p)
        }) ==> kept_entries(es, cfg).contains(es[k]),
    decreases es.len(),
{
    lemma_kept_entries_allowed(es, cfg);
    if es.len() > 0 {
        lemma_kept_entries_skip_names(es.drop_last(), cfg);
        let rest = kept_entries(es.drop_last(), cfg);
        assert forall|k: int| 0 <= k < es.len() && ({
            let p = #[trigger] es[k].path@;
            &&& !contains(p, ".git"@)
            &&& !contains(p, "node_modules"@)
            &&& !contains(p, "vendor"@)
            &&& !contains(p, "target"@)
            &&& !contains(p, "dist"@)
            &&& !contains(p, ".cache"@)
            &&& !contains(p, ".tox"@)
            &&& !ignored_by(string_views(cfg.ignore@), p)
        }) implies kept_entries(es, cfg).contains(es[k]) by {
            if k == es.len() - 1 {
                assert(kept_entries(es, cfg) == rest.push(es.last()));
                assert(kept_entries(es, cfg)[rest.len() as int] == es[k]);
            } else {
                assert(es.drop_last()[k] == es[k]);
                assert(rest.contains(es[k]));
                let j = choose|j: int| 0 <= j < rest.len() && rest[j] == es[k];
                if !ignored_by(string_views(cfg.ignore@), es.last().path@) && !in_skipped_dir(es.last().path@) {
                    assert(rest.push(es.last())[j] == rest[j]);
                }
            }
        }
    }
}

/// Positions, in order, of the entries to analyze: the entries at these
/// positions are exactly those `collect_entries` keeps.
pub fn kept_indices(candidates: &Vec<FileEntry>, config: &Config) -> (r: Vec<usize>)
    ensures
        forall|j: int| 0 <= j < r@.len() ==> r@[j] < candidates@.len(),
        forall|i: int, j: int| 0 <= i < j < r@.len() ==> r@[i] < r@[j],
        r@.map_values(|i: usize| candidates@[i as int]) == kept_entries(candidates@, *config),
{
    let ghost all = candidates@;
    let mut r: Vec<usize> = Vec::new();
    let mut k: usize = 0;
    assert(r@.map_values(|i: usize| all[i as int]) =~= kept_entries(all.take(0), *config));
    while k < candidates.len()
        invariant
            all == candidates@,
            k <= all.len(),
            forall|j: int| 0 <= j < r@.len() ==> r@[j] < k,
            forall|i: int, j: int| 0 <= i < j < r@.len() ==> r@[i] < r@[j],
            r@.map_values(|i: usize| all[i as int]) == kept_entries(all.take(k as int), *config),
        decreases all.len() - k,
    {
        assert(all.take(k + 1).drop_last() =~= all.take(k as int));
        assert(all.take(k + 1).last() == all[k as int]);
        let e = &candidates[k];
        let skip = config.should_ignore(e.path.as_str()) || should_skip_dir(e.path.as_str());
        let ghost before = r@;
        if !skip {
            r.push(k);
            assert(r@.map_values(|i: usize| all[i as int]) =~= before.map_values(|i: usize| all[i as int]).push(all[k as int]));
        }
        k = k + 1;
    }
    assert(all.take(all.len() as int) =~= all);
    r
}

/// Analyzes the files, or gives `None` where a counter would overflow: the
/// brace counter of a Go function leaving `i32`, or the line total leaving `u64`.
pub fn analyze_checked(entries: &Vec<FileEntry>, contents: &Vec<Option<String>>, config: &Config) -> (r: Option<AnalysisResult>)
    requires
        entries@.len() == contents@.len(),
    ensures
        r is Some <==> analysis_fits(entries@, contents@),
        r matches Some(res) ==> {
            &&& res.total_files == entries@.len()
            &&& res.total_lines == lines_total(entries@, contents@, entries@.len() as int)
            &&& issue_views(res.issues@) == all_issues(entries@, contents@, *config, entries@.len() as int)
            &&& res.total_issues == res.issues@.len()
            &&& res.critical == count_severity(issue_views(res.issues@), Severity::Critical)
            &&& res.warnings == count_severity(issue_views(res.issues@), Severity::Warning)
            &&& res.infos == count_severity(issue_views(res.issues@), Severity::Info)
            &&& stat_views(res.file_stats@) == stats_table(entries@, contents@, entries@.len() as int)
            &&& res.critical == 0
            &&& res.total_issues == res.critical + res.warnings + res.infos
        },
{
    let ghost es = entries@;
    let ghost cs = contents@;
    let n = contents.len();
    let mut total: u64 = 0;
    let mut k: usize = 0;
    while k < n
        invariant
            n == cs.len(),
            es.len() == n,
            es == entries@,
            cs == contents@,
            k <= n,
            total == lines_total(es, cs, k as int),
            forall|j: int| 0 <= j < k ==> (#[trigger] cs[j] matches Some(c) ==> braces_fit(c@)),
        decreases n - k,
    {
        match &contents[k] {
            Some(c) => {
                if !braces_fit_in(c.as_str()) {
                    assert(!(cs[k as int] matches Some(c) ==> braces_fit(c@)));
                    return None;
                }
                let count = split_lines(c.as_str()).len() as u64;
                match total.checked_add(count) {
                    Some(t) => {
                        total = t;
                    },
                    None => {
                        proof {
                            lemma_lines_total_mono(es, cs, k + 1, n as int);
                        }
                        return None;
                    },
                }
            },
            None => {},
        }
        k = k + 1;
    }
    Some(analyze_entries(entries, contents, config))
}


/// No issue is critical, and each names `path`.
pub open spec fn issues_of_file(s: Seq<IssueView>, path: Seq<char>) -> bool {
    forall|i: int| 0 <= i < s.len() ==> #[trigger] s[i].severity != Severity::Critical && s[i].file == path
}

/// No issue is critical.
pub open spec fn no_critical(s: Seq<IssueView>) -> bool {
    forall|i: int| 0 <= i < s.len() ==> #[trigger] s[i].severity != Severity::Critical
}

proof fn lemma_issues_of_file_concat(a: Seq<IssueView>, b: Seq<IssueView>, path: Seq<char>)
    requires
        issues_of_file(a, path),
        issues_of_file(b, path),
    ensures
        issues_of_file(a + b, path),
{
    assert forall|i: int| 0 <= i < (a + b).len() implies #[trigger] (a + b)[i].severity
        != Severity::Critical && (a + b)[i].file == path by {
        if i >= a.len() {
            assert((a + b)[i] == b[i - a.len()]);
        }
    }
}

proof fn lemma_func_issues_of_file(path: Seq<char>, ls: Seq<Seq<char>>, k: int, cfg: Config, is_test: bool)
    requires
        k <= ls.len(),
    ensures
        issues_of_file(func_issues(path, ls, k, cfg, is_test), path),
        is_test ==> func_issues(path, ls, k, cfg, is_test).len() == 0,
    decreases k,
{
    if k > 0 {
        lemma_func_issues_of_file(path, ls, k - 1, cfg, is_test);
        lemma_issues_of_file_concat(
            func_issues(path, ls, k - 1, cfg, is_test),
            func_issue_at(path, ls, k - 1, cfg, is_test),
            path,
        );
    }
}

proof fn lemma_def_issues_of_file(path: Seq<char>, ls: Seq<Seq<char>>, k: int, cfg: Config, is_test: bool)
    requires
        k <= ls.len(),
    ensures
        issues_of_file(def_issues(path, ls, k, cfg, is_test), path),
        is_test ==> def_issues(path, ls, k, cfg, is_test).len() == 0,
    decreases k,
{
    if k > 0 {
        lemma_def_issues_of_file(path, ls, k - 1, cfg, is_test);
        lemma_issues_of_file_concat(
            def_issues(path, ls, k - 1, cfg, is_test),
            def_issue_at(path, ls, k - 1, cfg, is_test),
            path,
        );
    }
}

/// Every issue a file raises names that file and is a warning or a note,
/// never critical.
pub proof fn lemma_file_issues_of_file(path: Seq<char>, content: Seq<char>, cfg: Config, is_test: bool)
    ensures
        issues_of_file(file_issues(path, content, cfg, is_test), path),
{
    let ls = lines_of(content);
    lemma_func_issues_of_file(path, ls, ls.len() as int, cfg, is_test);
    lemma_def_issues_of_file(path, ls, ls.len() as int, cfg, is_test);
    let a = length_issues(path, ls.len(), cfg, is_test);
    let b = func_issues(path, ls, ls.len() as int, cfg, is_test);
    let c = def_issues(path, ls, ls.len() as int, cfg, is_test);
    let d = complexity_issues(path, complexity_of(content), cfg);
    lemma_issues_of_file_concat(a, b, path);
    lemma_issues_of_file_concat(a + b, c, path);
    lemma_issues_of_file_concat(a + b + c, d, path);
}

/// A test file raises no length issue: at most the complexity issue.
pub proof fn lemma_test_file_issues(path: Seq<char>, content: Seq<char>, cfg: Config)
    ensures
        file_issues(path, content, cfg, true) == complexity_issues(path, complexity_of(content), cfg),
        forall|i: int| 0 <= i < file_issues(path, content, cfg, true).len() ==> #[trigger] file_issues(path, content, cfg, true)[i].category != Category::Length,
{
    let ls = lines_of(content);
    lemma_func_issues_of_file(path, ls, ls.len() as int, cfg, true);
    lemma_def_issues_of_file(path, ls, ls.len() as int, cfg, true);
    assert(file_issues(path, content, cfg, true) =~= complexity_issues(path, complexity_of(content), cfg));
}

proof fn lemma_all_issues_no_critical(es: Seq<FileEntry>, cs: Seq<Option<String>>, cfg: Config, k: int)
    requires
        k <= es.len(),
        k <= cs.len(),
    ensures
        no_critical(all_issues(es, cs, cfg, k)),
    decreases k,
{
    if k > 0 {
        lemma_all_issues_no_critical(es, cs, cfg, k - 1);
        let a = all_issues(es, cs, cfg, k - 1);
        let b = entry_issues(es[k - 1], cs[k - 1], cfg);
        if let Some(t) = cs[k - 1] {
            lemma_file_issues_of_file(es[k - 1].path@, t@, cfg, entry_is_test(es[k - 1]));
        }
        assert forall|i: int| 0 <= i < (a + b).len() implies #[trigger] (a + b)[i].severity
            != Severity::Critical by {
            if i >= a.len() {
                assert((a + b)[i] == b[i - a.len()]);
            }
        }
    }
}

proof fn lemma_severity_partition(s: Seq<IssueView>)
    ensures
        count_severity(s, Severity::Critical) + count_severity(s, Severity::Warning) + count_severity(s, Severity::Info) == s.len(),
        no_critical(s) ==> count_severity(s, Severity::Critical) == 0,
    decreases s.len(),
{
    if s.len() > 0 {
        lemma_severity_partition(s.drop_last());
        if no_critical(s) {
            assert forall|i: int| 0 <= i < s.drop_last().len() implies #[trigger] s.drop_last()[i].severity != Severity::Critical by {
                assert(s.drop_last()[i] == s[i]);
            }
            assert(s.last() == s[s.len() - 1]);
        }
    }
}


proof fn lemma_key_index_absent(fs: Seq<(Seq<char>, FileStats)>, key: Seq<char>, j: int)
    requires
        0 <= j,
        forall|i: int| j <= i < fs.len() ==> #[trigger] fs[i].0 != key,
    ensures
        key_index(fs, key, j) == -1,
    decreases fs.len() - j,
{
    if j < fs.len() {
        lemma_key_index_absent(fs, key, j + 1);
    }
}

proof fn lemma_key_index_found(fs: Seq<(Seq<char>, FileStats)>, key: Seq<char>, j: int)
    requires
        0 <= j,
    ensures
        key_index(fs, key, j) == -1 || (j <= key_index(fs, key, j) < fs.len() && fs[key_index(fs, key, j)].0 == key),
        key_index(fs, key, j) == -1 ==> forall|i: int| j <= i < fs.len() ==> #[trigger] fs[i].0 != key,
    decreases fs.len() - j,
{
    if j < fs.len() && fs[j].0 != key {
        lemma_key_index_found(fs, key, j + 1);
    }
}

/// No path occurs twice in the table.
pub open spec fn distinct_keys(fs: Seq<(Seq<char>, FileStats)>) -> bool {
    forall|i: int, j: int| 0 <= i < j < fs.len() ==> #[trigger] fs[i].0 != #[trigger] fs[j].0
}

/// The statistics table never holds a path twice, whatever the entries.
pub proof fn lemma_stats_table_distinct(es: Seq<FileEntry>, cs: Seq<Option<String>>, k: int)
    requires
        0 <= k <= es.len(),
    ensures
        distinct_keys(stats_table(es, cs, k)),
    decreases k,
{
    if k > 0 {
        lemma_stats_table_distinct(es, cs, k - 1);
        let fs = stats_table(es, cs, k - 1);
        let key = es[k - 1].path@;
        lemma_key_index_found(fs, key, 0);
        let t = stats_table(es, cs, k);
        if key_index(fs, key, 0) < 0 {
            assert forall|i: int, j: int| 0 <= i < j < t.len() implies #[trigger] t[i].0 != #[trigger] t[j].0 by {
                if j == fs.len() {
                    assert(t[i] == fs[i]);
                } else {
                    assert(t[i] == fs[i] && t[j] == fs[j]);
                }
            }
        } else {
            assert forall|i: int, j: int| 0 <= i < j < t.len() implies #[trigger] t[i].0 != #[trigger] t[j].0 by {
                assert(t[i].0 == fs[i].0);
                assert(t[j].0 == fs[j].0);
            }
        }
    }
}

/// Where the entries' paths are pairwise distinct, the statistics table lists
/// every entry once, in order, with its statistics.
pub proof fn lemma_stats_table_in_order(es: Seq<FileEntry>, cs: Seq<Option<String>>, k: int)
    requires
        0 <= k <= es.len(),
        forall|i: int, j: int| 0 <= i < j < es.len() ==> #[trigger] es[i].path@ != #[trigger] es[j].path@,
    ensures
        stats_table(es, cs, k) == Seq::new(k as nat, |m: int| (es[m].path@, entry_stats(es[m], cs[m]))),
    decreases k,
{
    if k > 0 {
        lemma_stats_table_in_order(es, cs, k - 1);
        let fs = stats_table(es, cs, k - 1);
        let key = es[k - 1].path@;
        assert forall|i: int| 0 <= i < fs.len() implies #[trigger] fs[i].0 != key by {
            assert(fs[i].0 == es[i].path@);
        }
        lemma_key_index_absent(fs, key, 0);
        assert(stats_table(es, cs, k) =~= Seq::new(k as nat, |m: int| (es[m].path@, entry_stats(es[m], cs[m]))));
    }
}

/// Sum of the line counts in a statistics table.
pub open spec fn table_lines(fs: Seq<(Seq<char>, FileStats)>) -> nat
    decreases fs.len(),
{
    if fs.len() == 0 {
        0
    } else {
        table_lines(fs.drop_last()) + (fs.last().1.lines as nat)
    }
}

/// Where the entries' paths are pairwise distinct, the statistics table has
/// one row per file and its line counts add up to the total line count.
pub proof fn lemma_table_totals(es: Seq<FileEntry>, cs: Seq<Option<String>>, k: int)
    requires
        0 <= k <= es.len(),
        forall|i: int, j: int| 0 <= i < j < es.len() ==> #[trigger] es[i].path@ != #[trigger] es[j].path@,
    ensures
        stats_table(es, cs, k).len() == k,
        table_lines(stats_table(es, cs, k)) == lines_total(es, cs, k),
    decreases k,
{
    lemma_stats_table_in_order(es, cs, k);
    if k > 0 {
        lemma_table_totals(es, cs, k - 1);
        lemma_stats_table_in_order(es, cs, k - 1);
        let t = stats_table(es, cs, k);
        assert(t.drop_last() =~= stats_table(es, cs, k - 1));
        assert(t.last() == (es[k - 1].path@, entry_stats(es[k - 1], cs[k - 1])));
    }
}

/// Every entry that `collect_entries` keeps is matched by no ignore pattern
/// and lies in no skipped directory.
pub proof fn lemma_kept_entries_allowed(es: Seq<FileEntry>, cfg: Config)
    ensures
        forall|i: int| 0 <= i < kept_entries(es, cfg).len() ==> {
            &&& !in_skipped_dir(#[trigger] kept_entries(es, cfg)[i].path@)
            &&& !ignored_by(string_views(cfg.ignore@), kept_entries(es, cfg)[i].path@)
        },
        kept_entries(es, cfg).len() <= es.len(),
    decreases es.len(),
{
    if es.len() > 0 {
        lemma_kept_entries_allowed(es.drop_last(), cfg);
        let rest = kept_entries(es.drop_last(), cfg);
        assert forall|i: int| 0 <= i < rest.len() implies rest.push(es.last())[i] == rest[i] by {}
    }
}

} // verus!
