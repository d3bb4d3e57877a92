//! Character-level text operations: whitespace, trimming, splitting into
//! lines and joining lines back together.

use vstd::prelude::*;

verus! {

/// The Unicode `White_Space` property, as used by `char::is_whitespace`.
pub open spec fn is_ws(c: char) -> bool {
    ||| ('\t' <= c && c <= '\r')
    ||| c == ' '
    ||| c == '\u{85}'
    ||| c == '\u{A0}'
    ||| c == '\u{1680}'
    ||| ('\u{2000}' <= c && c <= '\u{200A}')
    ||| c == '\u{2028}'
    ||| c == '\u{2029}'
    ||| c == '\u{202F}'
    ||| c == '\u{205F}'
    ||| c == '\u{3000}'
}

/// Whether `c` is a whitespace character.
pub fn is_whitespace(c: char) -> (r: bool)
    ensures
        r == is_ws(c),
{
    ('\t' <= c && c <= '\r') || c == ' ' || c == '\u{85}' || c == '\u{A0}' || c == '\u{1680}'
        || ('\u{2000}' <= c && c <= '\u{200A}') || c == '\u{2028}' || c == '\u{2029}'
        || c == '\u{202F}' || c == '\u{205F}' || c == '\u{3000}'
}

/// The index of the first character at or after `i` that is not whitespace
/// (`s.len()` when there is none).
pub open spec fn skip_ws(s: Seq<char>, i: int) -> int
    decreases s.len() - i,
{
    if 0 <= i < s.len() && is_ws(s[i]) {
        skip_ws(s, i + 1)
    } else {
        i
    }
}

/// The end of `s.subrange(lo, j)` once trailing whitespace is removed.
pub open spec fn back_over_ws(s: Seq<char>, lo: int, j: int) -> int
    decreases j - lo,
{
    if lo < j && is_ws(s[j - 1]) {
        back_over_ws(s, lo, j - 1)
    } else {
        j
    }
}

/// `s` with leading and trailing whitespace removed (`str::trim`).
pub open spec fn trim(s: Seq<char>) -> Seq<char> {
    let a = skip_ws(s, 0);
    s.subrange(a, back_over_ws(s, a, s.len() as int))
}

/// A line is blank when nothing but whitespace is on it.
pub open spec fn is_blank(s: Seq<char>) -> bool {
    trim(s).len() == 0
}

proof fn lemma_skip_ws_bounds(s: Seq<char>, i: int)
    requires
        0 <= i <= s.len(),
    ensures
        i <= skip_ws(s, i) <= s.len(),
        forall|k: int| i <= k < skip_ws(s, i) ==> is_ws(#[trigger] s[k]),
        skip_ws(s, i) < s.len() ==> !is_ws(s[skip_ws(s, i)]),
    decreases s.len() - i,
{
    if i < s.len() && is_ws(s[i]) {
        lemma_skip_ws_bounds(s, i + 1);
    }
}

proof fn lemma_back_over_ws_bounds(s: Seq<char>, lo: int, j: int)
    requires
        0 <= lo <= j <= s.len(),
    ensures
        lo <= back_over_ws(s, lo, j) <= j,
        forall|k: int| back_over_ws(s, lo, j) <= k < j ==> is_ws(#[trigger] s[k]),
        lo < back_over_ws(s, lo, j) ==> !is_ws(s[back_over_ws(s, lo, j) - 1]),
    decreases j - lo,
{
    if lo < j && is_ws(s[j - 1]) {
        lemma_back_over_ws_bounds(s, lo, j - 1);
    }
}

/// Trimming leaves no whitespace at either end, and a line is blank exactly
/// when every character on it is whitespace.
pub proof fn lemma_trim_strips_whitespace(s: Seq<char>)
    ensures
        trim(s).len() > 0 ==> !is_ws(trim(s)[0]) && !is_ws(trim(s).last()),
        is_blank(s) <==> forall|k: int| 0 <= k < s.len() ==> is_ws(#[trigger] s[k]),
{
    let a = skip_ws(s, 0);
    lemma_skip_ws_bounds(s, 0);
    lemma_back_over_ws_bounds(s, a, s.len() as int);
    let b = back_over_ws(s, a, s.len() as int);
    if trim(s).len() > 0 {
        assert(trim(s)[0] == s[a]);
        assert(trim(s).last() == s[b - 1]);
    }
    if forall|k: int| 0 <= k < s.len() ==> is_ws(#[trigger] s[k]) {
        if a < s.len() {
            assert(is_ws(s[a]));
        }
    }
    if is_blank(s) {
        assert forall|k: int| 0 <= k < s.len() implies is_ws(#[trigger] s[k]) by {
            if k >= a {
                assert(b == a);
            }
        }
    }
}

/// The bounds `(a, b)` with `trim(s) == s.subrange(a, b)`.
pub fn trim_bounds(s: &[char]) -> (r: (usize, usize))
    ensures
        r.0 == skip_ws(s@, 0),
        r.1 == back_over_ws(s@, r.0 as int, s@.len() as int),
        r.0 <= r.1 <= s@.len(),
        trim(s@) == s@.subrange(r.0 as int, r.1 as int),
{
    let n = s.len();
    let mut a: usize = 0;
    while a < n && is_whitespace(s[a])
        invariant
            a <= n == s@.len(),
            skip_ws(s@, 0) == skip_ws(s@, a as int),
        decreases n - a,
    {
        a = a + 1;
    }
    let mut b: usize = n;
    while b > a && is_whitespace(s[b - 1])
        invariant
            a <= b <= n == s@.len(),
            back_over_ws(s@, a as int, n as int) == back_over_ws(s@, a as int, b as int),
        decreases b - a,
    {
        b = b - 1;
    }
    (a, b)
}

/// `line` without one trailing carriage return.
pub open spec fn strip_cr(line: Seq<char>) -> Seq<char> {
    if line.len() > 0 && line.last() == '\r' {
        line.drop_last()
    } else {
        line
    }
}

/// Reading `s` from the start: the lines completed by a line feed so far,
/// and the characters of the line still open.
pub open spec fn line_scan(s: Seq<char>) -> (Seq<Seq<char>>, Seq<char>)
    decreases s.len(),
{
    if s.len() == 0 {
        (seq![], seq![])
    } else {
        let (done, open) = line_scan(s.drop_last());
        if s.last() == '\n' {
            (done.push(strip_cr(open)), seq![])
        } else {
            (done, open.push(s.last()))
        }
    }
}

/// The lines of `s` (`str::lines`): split at each `\n`, a `\r` before the
/// `\n` dropped, and no empty line after a final line feed.
pub open spec fn split_lines(s: Seq<char>) -> Seq<Seq<char>> {
    let (done, open) = line_scan(s);
    if open.len() == 0 {
        done
    } else {
        done.push(open)
    }
}

/// `lines` separated by `\n` (`[String]::join("\n")`).
pub open spec fn join_lines(lines: Seq<Seq<char>>) -> Seq<char>
    decreases lines.len(),
{
    if lines.len() == 0 {
        seq![]
    } else if lines.len() == 1 {
        lines[0]
    } else {
        join_lines(lines.drop_last()) + seq!['\n'] + lines.last()
    }
}

/// Appends `c` to `s` with `String::push`. Trusted: the contents grow by
/// exactly `c` at the end, as the standard library documents.
#[verifier::external_body]
fn push_char(s: &mut String, c: char)
    ensures
        final(s)@ == old(s)@.push(c),
{
    s.push(c);
}

/// The string made of `cs[from..to]`.
pub fn string_from(cs: &[char], from: usize, to: usize) -> (r: String)
    requires
        from <= to <= cs@.len(),
    ensures
        r@ == cs@.subrange(from as int, to as int),
{
    let mut r = String::new();
    let mut i = from;
    while i < to
        invariant
            from <= i <= to <= cs@.len(),
            r@ == cs@.subrange(from as int, i as int),
        decreases to - i,
    {
        push_char(&mut r, cs[i]);
        i = i + 1;
        assert(r@ =~= cs@.subrange(from as int, i as int));
    }
    r
}

/// The characters of `s`.
pub fn chars_of(s: &str) -> (r: Vec<char>)
    ensures
        r@ == s@,
{
    let mut r: Vec<char> = Vec::new();
    for c in it: s.chars()
        invariant
            r@ == it.seq().take(it.index() as int),
            it.seq() == s@,
    {
        r.push(c);
    }
    r
}

/// The lines of `s`, as `str::lines` gives them.
pub fn lines_of(s: &str) -> (r: Vec<String>)
    ensures
        r.deep_view() == split_lines(s@),
{
    let mut done: Vec<String> = Vec::new();
    let mut open: Vec<char> = Vec::new();
    for c in it: s.chars()
        invariant
            it.seq() == s@,
            (done.deep_view(), open@) == line_scan(s@.take(it.index() as int)),
    {
        let ghost before = s@.take(it.index() as int);
        assert(s@.take(it.index() + 1).drop_last() =~= before);
        if c == '\n' {
            let n = open.len();
            let end = if n > 0 && open[n - 1] == '\r' { n - 1 } else { n };
            let line = string_from(open.as_slice(), 0, end);
            assert(line@ == strip_cr(open@));
            done.push(line);
            open = Vec::new();
        } else {
            open.push(c);
        }
        assert(done.deep_view() =~= line_scan(s@.take(it.index() + 1)).0);
        assert(open@ =~= line_scan(s@.take(it.index() + 1)).1);
    }
    assert(s@.take(s@.len() as int) =~= s@);
    if open.len() > 0 {
        let n = open.len();
        let line = string_from(open.as_slice(), 0, n);
        assert(line@ =~= open@);
        done.push(line);
    }
    assert(done.deep_view() =~= split_lines(s@));
    done
}

/// `lines` joined with `\n` between consecutive lines.
pub fn join_with_newlines(lines: &Vec<String>) -> (r: String)
    ensures
        r@ == join_lines(lines.deep_view()),
{
    let mut r = String::new();
    let n = lines.len();
    let mut i: usize = 0;
    while i < n
        invariant
            i <= n == lines@.len(),
            r@ == join_lines(lines.deep_view().take(i as int)),
        decreases n - i,
    {
        let ghost prefix = lines.deep_view().take(i as int + 1);
        assert(prefix.drop_last() =~= lines.deep_view().take(i as int));
        if i > 0 {
            push_char(&mut r, '\n');
        } else {
            assert(r@ =~= seq![]);
        }
        r.append(lines[i].as_str());
        i = i + 1;
        assert(r@ =~= join_lines(lines.deep_view().take(i as int)));
    }
    assert(lines.deep_view().take(n as int) =~= lines.deep_view());
    r
}

/// Whether line `i` opens a run of blank lines.
pub open spec fn opens_blank_run(lines: Seq<Seq<char>>, i: int) -> bool {
    i == 0 || !is_blank(lines[i - 1])
}

/// What a blank line `i` contributes: a run of blank lines becomes a single
/// empty line.
pub open spec fn blank_line_output(lines: Seq<Seq<char>>, i: int) -> Seq<Seq<char>> {
    if opens_blank_run(lines, i) {
        seq![Seq::<char>::empty()]
    } else {
        seq![]
    }
}

/// Whether the string `s` is blank.
pub fn str_is_blank(s: &str) -> (r: bool)
    ensures
        r == is_blank(s@),
{
    let cs = chars_of(s);
    let (a, b) = trim_bounds(cs.as_slice());
    a == b
}

/// `s` with leading and trailing whitespace removed.
pub fn trimmed(s: &str) -> (r: String)
    ensures
        r@ == trim(s@),
{
    let cs = chars_of(s);
    let (a, b) = trim_bounds(cs.as_slice());
    string_from(cs.as_slice(), a, b)
}

/// The decimal digit `d` as a character.
pub open spec fn digit_char(d: nat) -> char {
    if d == 0 {
        '0'
    } else if d == 1 {
        '1'
    } else if d == 2 {
        '2'
    } else if d == 3 {
        '3'
    } else if d == 4 {
        '4'
    } else if d == 5 {
        '5'
    } else if d == 6 {
        '6'
    } else if d == 7 {
        '7'
    } else if d == 8 {
        '8'
    } else {
        '9'
    }
}

/// The decimal representation of `n`, without leading zeros.
pub open spec fn decimal(n: nat) -> Seq<char>
    decreases n,
{
    if n < 10 {
        seq![digit_char(n)]
    } else {
        decimal(n / 10).push(digit_char(n % 10))
    }
}

fn digit(d: usize) -> (c: char)
    requires
        d < 10,
    ensures
        c == digit_char(d as nat),
{
    match d {
        0 => '0',
        1 => '1',
        2 => '2',
        3 => '3',
        4 => '4',
        5 => '5',
        6 => '6',
        7 => '7',
        8 => '8',
        _ => '9',
    }
}

/// `n` written in decimal (as `format!("{}", n)` writes it).
pub fn decimal_string(n: usize) -> (r: String)
    ensures
        r@ == decimal(n as nat),
    decreases n,
{
    if n < 10 {
        let mut r = String::new();
        push_char(&mut r, digit(n));
        assert(r@ =~= decimal(n as nat));
        r
    } else {
        let mut r = decimal_string(n / 10);
        push_char(&mut r, digit(n % 10));
        r
    }
}

/// Whether `w` is a prefix of `s`.
pub open spec fn starts_with(s: Seq<char>, w: Seq<char>) -> bool {
    w.len() <= s.len() && s.subrange(0, w.len() as int) == w
}

/// Whether `w` is a prefix of `s`.
pub fn str_starts_with(s: &str, w: &[char]) -> (r: bool)
    ensures
        r == starts_with(s@, w@),
{
    let cs = chars_of(s);
    if w.len() > cs.len() {
        return false;
    }
    let mut i: usize = 0;
    while i < w.len()
        invariant
            i <= w@.len() <= cs@.len(),
            cs@ == s@,
            cs@.subrange(0, i as int) == w@.subrange(0, i as int),
        decreases w@.len() - i,
    {
        if cs[i] != w[i] {
            assert(cs@.subrange(0, w@.len() as int)[i as int] != w@[i as int]);
            return false;
        }
        i = i + 1;
        assert(cs@.subrange(0, i as int) =~= w@.subrange(0, i as int));
    }
    assert(w@.subrange(0, w@.len() as int) =~= w@);
    true
}

/// The end of the run of non-whitespace characters that starts at `i`.
pub open spec fn word_end(s: Seq<char>, i: int) -> int
    decreases s.len() - i,
{
    if 0 <= i < s.len() && !is_ws(s[i]) {
        word_end(s, i + 1)
    } else {
        i
    }
}

/// The first whitespace-separated word of `s`, or the empty sequence when
/// `s` is blank (`s.split_whitespace().next().unwrap_or("")`).
pub open spec fn first_word(s: Seq<char>) -> Seq<char> {
    let a = skip_ws(s, 0);
    s.subrange(a, word_end(s, a))
}

/// The first whitespace-separated word of `s`.
pub fn first_word_of(s: &str) -> (r: Vec<char>)
    ensures
        r@ == first_word(s@),
{
    let cs = chars_of(s);
    let n = cs.len();
    let mut a: usize = 0;
    while a < n && is_whitespace(cs[a])
        invariant
            a <= n == cs@.len(),
            cs@ == s@,
            skip_ws(s@, 0) == skip_ws(s@, a as int),
        decreases n - a,
    {
        a = a + 1;
    }
    let mut b: usize = a;
    while b < n && !is_whitespace(cs[b])
        invariant
            a <= b <= n == cs@.len(),
            cs@ == s@,
            word_end(s@, a as int) == word_end(s@, b as int),
        decreases n - b,
    {
        b = b + 1;
    }
    let mut r: Vec<char> = Vec::new();
    let mut i = a;
    while i < b
        invariant
            a <= i <= b <= n == cs@.len(),
            r@ == cs@.subrange(a as int, i as int),
        decreases b - i,
    {
        r.push(cs[i]);
        i = i + 1;
        assert(r@ =~= cs@.subrange(a as int, i as int));
    }
    r
}

/// Whether `line` holds no line feed.
pub open spec fn no_line_feed(line: Seq<char>) -> bool {
    forall|i: int| 0 <= i < line.len() ==> line[i] != '\n'
}

/// Reading characters that hold no line feed only extends the open line.
proof fn lemma_scan_without_line_feed(prefix: Seq<char>, tail: Seq<char>)
    requires
        no_line_feed(tail),
    ensures
        line_scan(prefix + tail) == (line_scan(prefix).0, line_scan(prefix).1 + tail),
    decreases tail.len(),
{
    if tail.len() == 0 {
        assert(prefix + tail =~= prefix);
        assert(line_scan(prefix).1 + tail =~= line_scan(prefix).1);
    } else {
        lemma_scan_without_line_feed(prefix, tail.drop_last());
        assert((prefix + tail).drop_last() =~= prefix + tail.drop_last());
        assert(line_scan(prefix).1 + tail =~= (line_scan(prefix).1 + tail.drop_last()).push(
            tail.last(),
        ));
    }
}

/// Reading lines joined with line feeds: every line but the last is
/// completed (without a trailing carriage return), the last one is open.
proof fn lemma_scan_joined(lines: Seq<Seq<char>>)
    requires
        lines.len() > 0,
        forall|i: int| 0 <= i < lines.len() ==> no_line_feed(#[trigger] lines[i]),
    ensures
        line_scan(join_lines(lines)).0 == lines.drop_last().map_values(|l: Seq<char>| strip_cr(l)),
        line_scan(join_lines(lines)).1 == lines.last(),
    decreases lines.len(),
{
    let empty: Seq<char> = seq![];
    if lines.len() == 1 {
        lemma_scan_without_line_feed(empty, lines[0]);
        assert(empty + lines[0] =~= lines[0]);
        assert(line_scan(empty) == (Seq::<Seq<char>>::empty(), empty));
        assert(line_scan(empty).1 + lines[0] =~= lines[0]);
        assert(lines.drop_last().map_values(|l: Seq<char>| strip_cr(l)) =~= Seq::<
            Seq<char>,
        >::empty());
    } else {
        let init = lines.drop_last();
        assert forall|i: int| 0 <= i < init.len() implies no_line_feed(#[trigger] init[i]) by {
            assert(init[i] == lines[i]);
        }
        lemma_scan_joined(init);
        let joined = join_lines(init);
        let with_feed = joined.push('\n');
        assert(with_feed.drop_last() =~= joined);
        lemma_scan_without_line_feed(with_feed, lines.last());
        assert(join_lines(lines) =~= with_feed + lines.last());
        assert(line_scan(with_feed).1 + lines.last() =~= lines.last());
        assert(line_scan(with_feed).0 =~= lines.drop_last().map_values(
            |l: Seq<char>| strip_cr(l),
        ));
    }
}

/// Splitting lines joined with line feeds gives them back, provided no line
/// holds a line feed, none ends with a carriage return, and the last one is
/// not empty.
pub proof fn lemma_split_join(lines: Seq<Seq<char>>)
    requires
        forall|i: int| 0 <= i < lines.len() ==> no_line_feed(#[trigger] lines[i]),
        forall|i: int| 0 <= i < lines.len() ==> strip_cr(#[trigger] lines[i]) == lines[i],
        lines.len() > 0 ==> lines.last().len() > 0,
    ensures
        split_lines(join_lines(lines)) == lines,
{
    if lines.len() == 0 {
        assert(line_scan(Seq::<char>::empty()) == (Seq::<Seq<char>>::empty(), Seq::<char>::empty()));
    } else {
        lemma_scan_joined(lines);
        assert(lines.drop_last().map_values(|l: Seq<char>| strip_cr(l)) =~= lines.drop_last());
        assert(lines.drop_last().push(lines.last()) =~= lines);
    }
}

/// Splitting lines joined with line feeds gives at most as many lines, and
/// exactly as many when the last one is not empty, when no line holds a line
/// feed.
pub proof fn lemma_split_join_count(lines: Seq<Seq<char>>)
    requires
        forall|i: int| 0 <= i < lines.len() ==> no_line_feed(#[trigger] lines[i]),
    ensures
        split_lines(join_lines(lines)).len() <= lines.len(),
        lines.len() > 0 && lines.last().len() > 0 ==> split_lines(join_lines(lines)).len()
            == lines.len(),
{
    if lines.len() == 0 {
        assert(line_scan(Seq::<char>::empty()) == (Seq::<Seq<char>>::empty(), Seq::<char>::empty()));
    } else {
        lemma_scan_joined(lines);
    }
}

/// No line of a text holds a line feed.
pub proof fn lemma_lines_hold_no_line_feed(s: Seq<char>)
    ensures
        forall|i: int|
            0 <= i < split_lines(s).len() ==> no_line_feed(#[trigger] split_lines(s)[i]),
{
    lemma_scan_holds_no_line_feed(s);
}

proof fn lemma_scan_holds_no_line_feed(s: Seq<char>)
    ensures
        forall|i: int|
            0 <= i < line_scan(s).0.len() ==> no_line_feed(#[trigger] line_scan(s).0[i]),
        no_line_feed(line_scan(s).1),
    decreases s.len(),
{
    if s.len() > 0 {
        lemma_scan_holds_no_line_feed(s.drop_last());
        let (done, open) = line_scan(s.drop_last());
        if s.last() == '\n' {
            assert(no_line_feed(strip_cr(open)));
            assert forall|i: int|
                0 <= i < line_scan(s).0.len() implies no_line_feed(#[trigger] line_scan(s).0[i]) by {
                if i < done.len() {
                    assert(line_scan(s).0[i] == done[i]);
                }
            }
        }
    }
}

/// Decimal representations hold only digits, so no line feed.
pub proof fn lemma_decimal_no_line_feed(n: nat)
    ensures
        no_line_feed(decimal(n)),
    decreases n,
{
    if n >= 10 {
        lemma_decimal_no_line_feed(n / 10);
    }
}

/// The outputs of lines `0..n`, in order: `out(0) + out(1) + ... + out(n - 1)`.
pub open spec fn concat_outputs(out: spec_fn(int) -> Seq<Seq<char>>, n: nat) -> Seq<Seq<char>>
    decreases n,
{
    if n == 0 {
        seq![]
    } else {
        concat_outputs(out, (n - 1) as nat) + out(n - 1)
    }
}

/// The outputs of the first `m` lines come first in the outputs of the first
/// `n >= m` lines.
pub proof fn lemma_concat_prefix(out: spec_fn(int) -> Seq<Seq<char>>, m: nat, n: nat)
    requires
        m <= n,
    ensures
        concat_outputs(out, m).len() <= concat_outputs(out, n).len(),
        forall|k: int|
            0 <= k < concat_outputs(out, m).len() ==> concat_outputs(out, n)[k]
                == #[trigger] concat_outputs(out, m)[k],
    decreases n,
{
    if m < n {
        lemma_concat_prefix(out, m, (n - 1) as nat);
        let prev = concat_outputs(out, (n - 1) as nat);
        assert forall|k: int| 0 <= k < prev.len() implies concat_outputs(out, n)[k] == prev[k] by {
        }
    }
}

/// A line that line `i` outputs shows in the outputs of the first `n > i`
/// lines.
pub proof fn lemma_concat_shows(out: spec_fn(int) -> Seq<Seq<char>>, i: int, j: int, n: nat)
    requires
        0 <= i < n,
        0 <= j < out(i).len(),
    ensures
        exists|k: int|
            0 <= k < concat_outputs(out, n).len() && #[trigger] concat_outputs(out, n)[k]
                == out(i)[j],
{
    let before = concat_outputs(out, i as nat);
    lemma_concat_prefix(out, (i + 1) as nat, n);
    assert(concat_outputs(out, (i + 1) as nat) == before + out(i));
    let k = before.len() + j;
    assert(concat_outputs(out, (i + 1) as nat)[k] == out(i)[j]);
    assert(concat_outputs(out, n)[k] == out(i)[j]);
}

/// A property that every line output by the first `n` lines has holds of
/// every line of their concatenation.
pub proof fn lemma_concat_all(
    out: spec_fn(int) -> Seq<Seq<char>>,
    n: nat,
    property: spec_fn(Seq<char>) -> bool,
)
    requires
        forall|i: int, j: int| 0 <= i < n && 0 <= j < out(i).len() ==> property(#[trigger] out(i)[j]),
    ensures
        forall|k: int|
            0 <= k < concat_outputs(out, n).len() ==> property(#[trigger] concat_outputs(out, n)[k]),
    decreases n,
{
    if n > 0 {
        lemma_concat_all(out, (n - 1) as nat, property);
        let prev = concat_outputs(out, (n - 1) as nat);
        assert forall|k: int| 0 <= k < concat_outputs(out, n).len() implies property(
            #[trigger] concat_outputs(out, n)[k],
        ) by {
            if k < prev.len() {
                assert(concat_outputs(out, n)[k] == prev[k]);
            } else {
                assert(concat_outputs(out, n)[k] == out(n - 1)[k - prev.len()]);
            }
        }
    }
}

/// When no line outputs more than one line, the concatenation has at most
/// one line per input line.
pub proof fn lemma_concat_len(out: spec_fn(int) -> Seq<Seq<char>>, n: nat)
    requires
        forall|i: int| 0 <= i < n ==> (#[trigger] out(i)).len() <= 1,
    ensures
        concat_outputs(out, n).len() <= n,
    decreases n,
{
    if n > 0 {
        lemma_concat_len(out, (n - 1) as nat);
    }
}


/// Whether `a` is `b` with some lines left out and the rest in their order.
pub open spec fn is_subsequence(a: Seq<Seq<char>>, b: Seq<Seq<char>>) -> bool
    decreases b.len(),
{
    if a.len() == 0 {
        true
    } else if b.len() == 0 {
        false
    } else {
        ||| (a.last() == b.last() && is_subsequence(a.drop_last(), b.drop_last()))
        ||| is_subsequence(a, b.drop_last())
    }
}

/// The first `n` lines with every run of blank lines condensed to one empty
/// line.
pub open spec fn condensed_lines(lines: Seq<Seq<char>>, n: nat) -> Seq<Seq<char>> {
    concat_outputs(
        |i: int|
            if is_blank(lines[i]) {
                blank_line_output(lines, i)
            } else {
                seq![lines[i]]
            },
        n,
    )
}

/// When each line outputs either all of what `full` gives it or nothing, and
/// `full` gives at most one line, the concatenated outputs leave lines out of
/// the concatenation of `full` but keep the rest in order.
pub proof fn lemma_concat_subsequence(
    out: spec_fn(int) -> Seq<Seq<char>>,
    full: spec_fn(int) -> Seq<Seq<char>>,
    n: nat,
)
    requires
        forall|i: int|
            0 <= i < n ==> (#[trigger] full(i)).len() <= 1 && (out(i) == full(i) || out(i).len()
                == 0),
    ensures
        is_subsequence(concat_outputs(out, n), concat_outputs(full, n)),
    decreases n,
{
    if n > 0 {
        let m = (n - 1) as nat;
        lemma_concat_subsequence(out, full, m);
        let a = concat_outputs(out, m);
        let b = concat_outputs(full, m);
        assert(full(m as int).len() <= 1);
        if full(m as int).len() == 0 {
            assert(out(m as int).len() == 0);
            assert(concat_outputs(out, n) =~= a);
            assert(concat_outputs(full, n) =~= b);
        } else {
            let x = full(m as int)[0];
            assert(full(m as int) =~= seq![x]);
            assert(concat_outputs(full, n) =~= b.push(x));
            assert(b.push(x).drop_last() =~= b);
            if out(m as int).len() == 0 {
                assert(concat_outputs(out, n) =~= a);
            } else {
                assert(concat_outputs(out, n) =~= a.push(x));
                assert(a.push(x).drop_last() =~= a);
            }
        }
    }
}

/// `s` with its element `b` repeated right after it.
pub open spec fn repeat_at<A>(s: Seq<A>, b: int) -> Seq<A> {
    s.take(b + 1) + s.skip(b)
}

/// The elements of `repeat_at(s, b)`.
pub proof fn lemma_repeat_at<A>(s: Seq<A>, b: int)
    requires
        0 <= b < s.len(),
    ensures
        repeat_at(s, b).len() == s.len() + 1,
        forall|i: int| 0 <= i <= b ==> #[trigger] repeat_at(s, b)[i] == s[i],
        forall|i: int| b < i <= s.len() ==> #[trigger] repeat_at(s, b)[i] == s[i - 1],
{
}

} // verus!
