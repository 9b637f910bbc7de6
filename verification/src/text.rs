//! Character-level text model: lines, trimming, prefixes and substrings,
//! stated over `Seq<char>` and computed over `Vec<char>`.

use vstd::prelude::*;
use vstd::utf8::{encode_scalar, encode_utf8};

verus! {

broadcast use vstd::string::group_string_axioms;

/// The Unicode `White_Space` property: tab, line feed, vertical tab, form
/// feed, carriage return, space, next line, no-break space, ogham space mark,
/// the spaces U+2000 to U+200A, line and paragraph separators, narrow
/// no-break space, medium mathematical space and ideographic space.
pub open spec fn white_space(c: char) -> bool {
    let v = c as u32;
    ||| 0x09 <= v <= 0x0D
    ||| v == 0x20
    ||| v == 0x85
    ||| v == 0xA0
    ||| v == 0x1680
    ||| 0x2000 <= v <= 0x200A
    ||| v == 0x2028
    ||| v == 0x2029
    ||| v == 0x202F
    ||| v == 0x205F
    ||| v == 0x3000
}

/// `char::is_whitespace`: whether `c` has the Unicode `White_Space`
/// property, the code points listed in `white_space`.
#[verifier::external_body]
pub(crate) fn is_whitespace(c: char) -> (b: bool)
    ensures
        b == white_space(c),
{
    c.is_whitespace()
}

/// The characters of a string slice, in order.
pub fn to_chars(s: &str) -> (v: Vec<char>)
    ensures
        v@ == s@,
{
    let mut v: Vec<char> = Vec::new();
    for c in it: s.chars()
        invariant
            v@ == it.seq().take(it.index() as int),
            it.seq() == s@,
    {
        v.push(c);
    }
    v
}


/// Drops one trailing carriage return, as a line ending `\r\n` does.
pub open spec fn strip_cr(line: Seq<char>) -> Seq<char> {
    if line.len() > 0 && line.last() == '\r' {
        line.drop_last()
    } else {
        line
    }
}

/// Lines completed so far, and the line still open, after reading `s`.
pub open spec fn lines_acc(s: Seq<char>) -> (Seq<Seq<char>>, Seq<char>)
    decreases s.len(),
{
    if s.len() == 0 {
        (Seq::empty(), Seq::empty())
    } else {
        let (done, cur) = lines_acc(s.drop_last());
        if s.last() == '\n' {
            (done.push(strip_cr(cur)), Seq::empty())
        } else {
            (done, cur.push(s.last()))
        }
    }
}

/// The lines of a text as `str::lines` yields them: split at `\n`, a `\r`
/// before the `\n` dropped, the final line ending optional.
pub open spec fn lines_of(s: Seq<char>) -> Seq<Seq<char>> {
    let (done, cur) = lines_acc(s);
    if cur.len() > 0 {
        done.push(cur)
    } else {
        done
    }
}

/// The views of a vector of lines.
pub open spec fn views(v: Seq<Vec<char>>) -> Seq<Seq<char>> {
    v.map_values(|l: Vec<char>| l@)
}

/// Splits a text into its lines.
pub fn split_lines(s: &str) -> (lines: Vec<Vec<char>>)
    ensures
        views(lines@) == lines_of(s@),
        s@.len() <= usize::MAX,
{
    let chars = to_chars(s);
    let mut done: Vec<Vec<char>> = Vec::new();
    let mut cur: Vec<char> = Vec::new();
    let n = chars.len();
    let mut i: usize = 0;
    while i < n
        invariant
            n == chars.len(),
            chars@ == s@,
            i <= n,
            lines_acc(chars@.take(i as int)) == (views(done@), cur@),
        decreases n - i,
    {
        let c = chars[i];
        assert(chars@.take(i + 1).drop_last() == chars@.take(i as int));
        if c == '\n' {
            if cur.len() > 0 && cur[cur.len() - 1] == '\r' {
                cur.pop();
            }
            let line = cur;
            done.push(line);
            cur = Vec::new();
        } else {
            cur.push(c);
        }
        assert(views(done@) =~= lines_acc(chars@.take(i + 1)).0);
        i = i + 1;
    }
    assert(chars@.take(n as int) == chars@);
    if cur.len() > 0 {
        done.push(cur);
    }
    assert(views(done@) =~= lines_of(s@));
    done
}


/// Index of the first character at or after `i` that is not white space.
pub open spec fn ws_end_from(s: Seq<char>, i: int) -> int
    decreases s.len() - i,
{
    if 0 <= i < s.len() && white_space(s[i]) {
        ws_end_from(s, i + 1)
    } else {
        i
    }
}

/// Index just past the last character before `j` that is not white space.
pub open spec fn ws_start_before(s: Seq<char>, j: int) -> int
    decreases j,
{
    if 0 < j <= s.len() && white_space(s[j - 1]) {
        ws_start_before(s, j - 1)
    } else {
        j
    }
}

/// Number of leading white-space characters.
pub open spec fn leading_ws(s: Seq<char>) -> int {
    ws_end_from(s, 0)
}

/// `str::trim_start`.
pub open spec fn trim_start(s: Seq<char>) -> Seq<char> {
    s.skip(leading_ws(s))
}

/// `str::trim_end`.
pub open spec fn trim_end(s: Seq<char>) -> Seq<char> {
    s.take(ws_start_before(s, s.len() as int))
}

/// `str::trim`: white space removed at both ends.
pub open spec fn trim(s: Seq<char>) -> Seq<char> {
    trim_end(trim_start(s))
}

/// `str::starts_with` for a string pattern.
pub open spec fn starts_with(s: Seq<char>, p: Seq<char>) -> bool {
    p.len() <= s.len() && s.take(p.len() as int) == p
}

/// `str::contains` for a string pattern: `p` occurs in `s` at some position.
pub open spec fn contains(s: Seq<char>, p: Seq<char>) -> bool {
    exists|i: int| 0 <= i && i + p.len() <= s.len() && #[trigger] s.subrange(i, i + p.len()) == p
}

proof fn lemma_ws_end_from_bounds(s: Seq<char>, i: int)
    requires
        0 <= i <= s.len(),
    ensures
        i <= ws_end_from(s, i) <= s.len(),
    decreases s.len() - i,
{
    if i < s.len() && white_space(s[i]) {
        lemma_ws_end_from_bounds(s, i + 1);
    }
}

proof fn lemma_ws_start_before_bounds(s: Seq<char>, j: int)
    requires
        0 <= j <= s.len(),
    ensures
        0 <= ws_start_before(s, j) <= j,
    decreases j,
{
    if 0 < j && white_space(s[j - 1]) {
        lemma_ws_start_before_bounds(s, j - 1);
    }
}

proof fn lemma_ws_end_from_stops(s: Seq<char>, i: int)
    requires
        0 <= i <= s.len(),
    ensures
        i <= ws_end_from(s, i) <= s.len(),
        ws_end_from(s, i) < s.len() ==> !white_space(s[ws_end_from(s, i)]),
    decreases s.len() - i,
{
    if i < s.len() && white_space(s[i]) {
        lemma_ws_end_from_stops(s, i + 1);
    }
}

proof fn lemma_ws_start_before_stops(s: Seq<char>, j: int)
    requires
        0 <= j <= s.len(),
    ensures
        0 <= ws_start_before(s, j) <= j,
        ws_start_before(s, j) > 0 ==> !white_space(s[ws_start_before(s, j) - 1]),
    decreases j,
{
    if 0 < j && white_space(s[j - 1]) {
        lemma_ws_start_before_stops(s, j - 1);
    }
}

/// A trimmed text neither starts nor ends with white space.
pub proof fn lemma_trim_ends(s: Seq<char>)
    ensures
        trim(s).len() > 0 ==> !white_space(trim(s)[0]) && !white_space(trim(s).last()),
{
    lemma_ws_end_from_stops(s, 0);
    let u = trim_start(s);
    lemma_ws_start_before_stops(u, u.len() as int);
}

/// Trimming twice is trimming once.
pub proof fn lemma_trim_idempotent(s: Seq<char>)
    ensures
        trim(trim(s)) == trim(s),
{
    let t = trim(s);
    lemma_trim_ends(s);
    if t.len() == 0 {
        assert(trim_start(t) =~= t);
        assert(trim(t) =~= t);
    } else {
        assert(ws_end_from(t, 0) == 0);
        assert(trim_start(t) =~= t);
        assert(ws_start_before(t, t.len() as int) == t.len());
        assert(trim(t) =~= t);
    }
}

/// Where the trimmed text starts and ends inside `line`.
pub fn trim_bounds(line: &[char]) -> (r: (usize, usize))
    ensures
        r.0 <= r.1 <= line@.len(),
        r.0 == leading_ws(line@),
        line@.subrange(r.0 as int, r.1 as int) == trim(line@),
{
    let n = line.len();
    let mut a: usize = 0;
    while a < n && is_whitespace(line[a])
        invariant
            n == line@.len(),
            a <= n,
            ws_end_from(line@, a as int) == ws_end_from(line@, 0),
        decreases n - a,
    {
        a = a + 1;
    }
    let ghost t = line@.skip(a as int);
    let mut b: usize = n;
    while b > a && is_whitespace(line[b - 1])
        invariant
            n == line@.len(),
            a <= b <= n,
            t == line@.skip(a as int),
            ws_start_before(t, b - a) == ws_start_before(t, t.len() as int),
        decreases b,
    {
        assert(t[b - a - 1] == line@[b - 1]);
        b = b - 1;
    }
    proof {
        lemma_ws_start_before_bounds(t, t.len() as int);
        assert(line@.subrange(a as int, b as int) =~= t.take(b - a));
    }
    (a, b)
}

/// Whether `line[a..b]` starts with `p`.
pub fn range_starts_with(line: &[char], a: usize, b: usize, p: &[char]) -> (r: bool)
    requires
        a <= b <= line@.len(),
    ensures
        r == starts_with(line@.subrange(a as int, b as int), p@),
{
    let ghost s = line@.subrange(a as int, b as int);
    if p.len() > b - a {
        return false;
    }
    let mut k: usize = 0;
    while k < p.len()
        invariant
            a <= b <= line@.len(),
            p@.len() <= b - a,
            k <= p@.len(),
            s == line@.subrange(a as int, b as int),
            forall|j: int| 0 <= j < k ==> s[j] == p@[j],
        decreases p@.len() - k,
    {
        if line[a + k] != p[k] {
            assert(s.take(p@.len() as int)[k as int] != p@[k as int]);
            return false;
        }
        k = k + 1;
    }
    assert(s.take(p@.len() as int) =~= p@);
    true
}

/// Whether the trimmed `line` starts with `p`.
pub fn trimmed_starts_with(line: &[char], p: &[char]) -> (r: bool)
    ensures
        r == starts_with(trim(line@), p@),
{
    let (a, b) = trim_bounds(line);
    range_starts_with(line, a, b, p)
}


/// Whether `p` occurs in `s`.
pub fn contains_chars(s: &[char], p: &[char]) -> (r: bool)
    ensures
        r == contains(s@, p@),
{
    let n = s.len();
    if p.len() > n {
        return false;
    }
    if p.len() == 0 {
        assert(s@.subrange(0, 0int + p@.len()) =~= p@);
        return true;
    }
    let mut i: usize = 0;
    while i <= n - p.len()
        invariant
            n == s@.len(),
            1 <= p@.len() <= n,
            i <= n - p@.len() + 1,
            forall|j: int| 0 <= j < i ==> #[trigger] s@.subrange(j, j + p@.len()) != p@,
        decreases n - i,
    {
        let hit = range_starts_with(s, i, n, p);
        assert(s@.subrange(i as int, n as int).take(p@.len() as int) =~= s@.subrange(
            i as int,
            i + p@.len(),
        ));
        if hit {
            return true;
        }
        i = i + 1;
    }
    false
}

/// `str::contains` with a string pattern.
pub fn str_contains(s: &str, p: &str) -> (r: bool)
    ensures
        r == contains(s@, p@),
{
    let sc = to_chars(s);
    let pc = to_chars(p);
    contains_chars(sc.as_slice(), pc.as_slice())
}

/// `String::push`: appends one character.
#[verifier::external_body]
pub(crate) fn push_char(s: &mut String, c: char)
    ensures
        final(s)@ == old(s)@.push(c),
{
    s.push(c);
}

/// The decimal digit `d`.
pub open spec fn digit(d: nat) -> char {
    if d == 0 {
        '0'
    } else if d == 1 {
        '1'
    } else if d == 2 {
        '2'
    } else if d == 3 {
        '3'
    } else if d == 4 {
        '4'
    } else if d == 5 {
        '5'
    } else if d == 6 {
        '6'
    } else if d == 7 {
        '7'
    } else if d == 8 {
        '8'
    } else {
        '9'
    }
}

/// The decimal representation of `n`, as `{}` formats an unsigned integer.
pub open spec fn decimal(n: nat) -> Seq<char>
    decreases n,
{
    if n < 10 {
        seq![digit(n)]
    } else {
        decimal(n / 10).push(digit(n % 10))
    }
}

fn digit_char(d: u64) -> (c: char)
    requires
        d < 10,
    ensures
        c == digit(d as nat),
{
    if d == 0 {
        '0'
    } else if d == 1 {
        '1'
    } else if d == 2 {
        '2'
    } else if d == 3 {
        '3'
    } else if d == 4 {
        '4'
    } else if d == 5 {
        '5'
    } else if d == 6 {
        '6'
    } else if d == 7 {
        '7'
    } else if d == 8 {
        '8'
    } else {
        '9'
    }
}

/// Appends the decimal representation of `n`.
pub fn push_decimal(s: &mut String, n: u64)
    ensures
        final(s)@ == old(s)@ + decimal(n as nat),
    decreases n,
{
    if n >= 10 {
        push_decimal(s, n / 10);
    }
    push_char(s, digit_char(n % 10));
    assert(final(s)@ =~= old(s)@ + decimal(n as nat));
}

/// Appends a string slice.
pub fn push_str(s: &mut String, t: &str)
    ensures
        final(s)@ == old(s)@ + t@,
{
    s.append(t);
}


/// Number of lines in `ls` for which `pred` holds.
pub open spec fn count_where(ls: Seq<Seq<char>>, pred: spec_fn(Seq<char>) -> bool) -> nat
    decreases ls.len(),
{
    if ls.len() == 0 {
        0
    } else {
        count_where(ls.drop_last(), pred) + if pred(ls.last()) {
            1nat
        } else {
            0nat
        }
    }
}

proof fn lemma_count_where_push(ls: Seq<Seq<char>>, x: Seq<char>, pred: spec_fn(Seq<char>) -> bool)
    ensures
        count_where(ls.push(x), pred) == count_where(ls, pred) + if pred(x) {
            1nat
        } else {
            0nat
        },
{
    assert(ls.push(x).drop_last() =~= ls);
}

proof fn lemma_lines_acc_wide(s: Seq<char>, pred: spec_fn(Seq<char>) -> bool)
    requires
        forall|l: Seq<char>| #[trigger] pred(l) ==> l.len() >= 2,
    ensures
        2 * count_where(lines_acc(s).0, pred) + lines_acc(s).1.len() <= s.len(),
    decreases s.len(),
{
    if s.len() > 0 {
        let (done, cur) = lines_acc(s.drop_last());
        lemma_lines_acc_wide(s.drop_last(), pred);
        if s.last() == '\n' {
            lemma_count_where_push(done, strip_cr(cur), pred);
        }
    }
}

proof fn lemma_lines_acc_concat(a: Seq<char>, b: Seq<char>)
    requires
        lines_acc(a).1.len() == 0,
    ensures
        lines_acc(a + b) == (lines_acc(a).0 + lines_acc(b).0, lines_acc(b).1),
    decreases b.len(),
{
    if b.len() == 0 {
        assert(a + b =~= a);
        assert(lines_acc(a).0 + lines_acc(b).0 =~= lines_acc(a).0);
    } else {
        lemma_lines_acc_concat(a, b.drop_last());
        assert((a + b).drop_last() =~= a + b.drop_last());
        assert((a + b).last() == b.last());
        let (bd, bc) = lines_acc(b.drop_last());
        if b.last() == '\n' {
            assert((lines_acc(a).0 + bd).push(strip_cr(bc)) =~= lines_acc(a).0 + bd.push(strip_cr(bc)));
        }
    }
}

/// A text that is empty or ends with a line feed keeps its lines when more
/// text follows: the lines of `a + b` are those of `a`, then those of `b`.
pub proof fn lemma_lines_of_concat(a: Seq<char>, b: Seq<char>)
    requires
        a.len() == 0 || a.last() == '\n',
    ensures
        lines_of(a + b) == lines_of(a) + lines_of(b),
{
    lemma_lines_acc_concat(a, b);
    let (bd, bc) = lines_acc(b);
    if bc.len() > 0 {
        assert((lines_acc(a).0 + bd).push(bc) =~= lines_acc(a).0 + bd.push(bc));
    }
}

/// Counting over two runs of lines adds up.
pub proof fn lemma_count_where_concat(x: Seq<Seq<char>>, y: Seq<Seq<char>>, pred: spec_fn(Seq<char>) -> bool)
    ensures
        count_where(x + y, pred) == count_where(x, pred) + count_where(y, pred),
    decreases y.len(),
{
    if y.len() == 0 {
        assert(x + y =~= x);
    } else {
        lemma_count_where_concat(x, y.drop_last(), pred);
        assert((x + y).drop_last() =~= x + y.drop_last());
        assert((x + y).last() == y.last());
    }
}

/// Counting over a prefix of the lines counts no more.
pub proof fn lemma_count_where_prefix(ls: Seq<Seq<char>>, k: int, pred: spec_fn(Seq<char>) -> bool)
    requires
        0 <= k <= ls.len(),
    ensures
        count_where(ls.take(k), pred) <= count_where(ls, pred),
    decreases ls.len(),
{
    if k < ls.len() {
        assert(ls.drop_last().take(k) =~= ls.take(k));
        lemma_count_where_prefix(ls.drop_last(), k, pred);
    } else {
        assert(ls.take(k) =~= ls);
    }
}

/// Lines that satisfy a predicate implying at least two characters are at
/// most half as many as the characters of the text.
pub proof fn lemma_count_wide_lines(s: Seq<char>, pred: spec_fn(Seq<char>) -> bool)
    requires
        forall|l: Seq<char>| #[trigger] pred(l) ==> l.len() >= 2,
    ensures
        2 * count_where(lines_of(s), pred) <= s.len(),
{
    lemma_lines_acc_wide(s, pred);
    let (done, cur) = lines_acc(s);
    if cur.len() > 0 {
        lemma_count_where_push(done, cur, pred);
    }
}

/// The trimmed text is no longer than the line.
pub proof fn lemma_trim_len(s: Seq<char>)
    ensures
        trim(s).len() <= s.len(),
{
    lemma_ws_end_from_bounds(s, 0);
    let t = trim_start(s);
    lemma_ws_start_before_bounds(t, t.len() as int);
}


/// Number of bytes of the UTF-8 encoding of a text, what `str::len` reports.
pub open spec fn byte_len(s: Seq<char>) -> nat {
    encode_utf8(s).len()
}

/// Number of bytes of the UTF-8 encoding of one character.
pub open spec fn char_width(c: char) -> nat {
    if (c as u32) <= 0x7F {
        1
    } else if (c as u32) <= 0x7FF {
        2
    } else if (c as u32) <= 0xFFFF {
        3
    } else {
        4
    }
}

proof fn lemma_char_width(c: char)
    ensures
        encode_scalar(c as u32).len() == char_width(c),
{
}

proof fn lemma_encode_concat(a: Seq<char>, b: Seq<char>)
    ensures
        encode_utf8(a + b) == encode_utf8(a) + encode_utf8(b),
    decreases a.len(),
{
    if a.len() == 0 {
        assert(a + b =~= b);
        assert(encode_utf8(a) + encode_utf8(b) =~= encode_utf8(b));
    } else {
        lemma_encode_concat(a.drop_first(), b);
        assert((a + b).drop_first() =~= a.drop_first() + b);
        assert((a + b)[0] == a[0]);
        assert(encode_utf8(a + b) =~= encode_scalar(a[0] as u32) + (encode_utf8(a.drop_first())
            + encode_utf8(b)));
    }
}

/// Appending a character adds its width to the byte length.
pub proof fn lemma_byte_len_push(s: Seq<char>, c: char)
    ensures
        byte_len(s.push(c)) == byte_len(s) + char_width(c),
{
    lemma_encode_concat(s, seq![c]);
    assert(s.push(c) =~= s + seq![c]);
    assert(seq![c].drop_first() =~= Seq::<char>::empty());
    assert(encode_utf8(Seq::<char>::empty()) =~= Seq::<u8>::empty());
    assert(encode_utf8(seq![c]) =~= encode_scalar(c as u32));
    lemma_char_width(c);
}

/// The byte length of a prefix is at most that of the whole.
pub proof fn lemma_byte_len_prefix(s: Seq<char>, k: int)
    requires
        0 <= k <= s.len(),
    ensures
        byte_len(s.take(k)) <= byte_len(s),
{
    lemma_encode_concat(s.take(k), s.skip(k));
    assert(s.take(k) + s.skip(k) =~= s);
}

/// Width in bytes of the UTF-8 encoding of `c`.
pub fn utf8_width(c: char) -> (w: usize)
    ensures
        w == char_width(c),
        1 <= w <= 4,
{
    let v = c as u32;
    if v <= 0x7F {
        1
    } else if v <= 0x7FF {
        2
    } else if v <= 0xFFFF {
        3
    } else {
        4
    }
}

/// Number of bytes taken by the leading white space of a line.
pub open spec fn leading_ws_bytes(line: Seq<char>) -> nat {
    byte_len(line.take(leading_ws(line)))
}

/// Counts the bytes of the leading white space of a line.
pub fn count_leading_ws_bytes(line: &[char]) -> (n: usize)
    requires
        byte_len(line@) <= usize::MAX,
    ensures
        n == leading_ws_bytes(line@),
{
    let (a, _b) = trim_bounds(line);
    let mut n: usize = 0;
    let mut k: usize = 0;
    while k < a
        invariant
            a <= line@.len(),
            k <= a,
            byte_len(line@) <= usize::MAX,
            n == byte_len(line@.take(k as int)),
        decreases a - k,
    {
        proof {
            assert(line@.take(k + 1) =~= line@.take(k as int).push(line@[k as int]));
            lemma_byte_len_push(line@.take(k as int), line@[k as int]);
            lemma_byte_len_prefix(line@, k + 1);
        }
        n = n + utf8_width(line[k]);
        k = k + 1;
    }
    n
}


proof fn lemma_lines_acc_bytes(s: Seq<char>)
    ensures
        forall|k: int| 0 <= k < lines_acc(s).0.len() ==> byte_len(#[trigger] lines_acc(s).0[k]) <= byte_len(s),
        byte_len(lines_acc(s).1) <= byte_len(s),
    decreases s.len(),
{
    if s.len() > 0 {
        let p = s.drop_last();
        let c = s.last();
        lemma_lines_acc_bytes(p);
        assert(p.push(c) =~= s);
        lemma_byte_len_push(p, c);
        let (done, cur) = lines_acc(p);
        if c == '\n' {
            if cur.len() > 0 {
                lemma_byte_len_prefix(cur, cur.len() - 1);
                assert(cur.take(cur.len() - 1) =~= cur.drop_last());
            }
            assert(forall|k: int| 0 <= k < done.len() ==> done.push(strip_cr(cur))[k] == done[k]);
        } else {
            lemma_byte_len_push(cur, c);
        }
    }
}

/// Every line of a text is no longer, in bytes, than the text.
pub proof fn lemma_line_bytes(s: Seq<char>)
    ensures
        forall|k: int| 0 <= k < lines_of(s).len() ==> byte_len(#[trigger] lines_of(s)[k]) <= byte_len(s),
{
    lemma_lines_acc_bytes(s);
}

/// Byte length of a string slice.
pub fn str_byte_len(s: &str) -> (n: usize)
    ensures
        n == byte_len(s@),
{
    s.as_bytes().len()
}


/// Byte lengths add up over concatenation.
pub proof fn lemma_byte_len_concat(a: Seq<char>, b: Seq<char>)
    ensures
        byte_len(a + b) == byte_len(a) + byte_len(b),
{
    lemma_encode_concat(a, b);
}

/// Three ASCII characters take three bytes.
pub proof fn lemma_byte_len_ascii3(s: Seq<char>)
    requires
        s.len() == 3,
        (s[0] as u32) <= 0x7F,
        (s[1] as u32) <= 0x7F,
        (s[2] as u32) <= 0x7F,
    ensures
        byte_len(s) == 3,
{
    assert(s =~= Seq::<char>::empty().push(s[0]).push(s[1]).push(s[2]));
    lemma_byte_len_push(Seq::<char>::empty(), s[0]);
    lemma_byte_len_push(Seq::<char>::empty().push(s[0]), s[1]);
    lemma_byte_len_push(Seq::<char>::empty().push(s[0]).push(s[1]), s[2]);
    assert(encode_utf8(Seq::<char>::empty()) =~= Seq::<u8>::empty());
}

} // verus!
