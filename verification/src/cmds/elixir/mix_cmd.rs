//! Mix general filter - handles `mix compile`, `deps.get`, `format`,
//! `linter.all`, etc.

use vstd::prelude::*;

use crate::pattern::{regex_compiles, regex_finds, FilterError, Pattern};
use crate::text::{
    blank_line_output, decimal, decimal_string, first_word, first_word_of, join_lines,
    join_with_newlines, lemma_repeat_at, lines_of, repeat_at, split_lines, starts_with,
    str_starts_with, trim, trimmed, is_blank,
};
use vstd::utf8::encode_utf8;

verus! {

/// Progress dots and spinner characters.
pub const PROGRESS_CHARS: &'static str = r"\.{2,}|[\|/\-\\]{2,}";

/// Dependency download lines, which are grouped.
pub const DEP_DOWNLOAD: &'static str = r"^[a-z0-9_\-]+\s+v[\d\.]+";

/// Error and warning keywords.
pub const ERROR_WARNING: &'static str = r"(?i)(error|warning|failed|cannot|fatal)";

/// Summary and completion lines.
pub const SUMMARY: &'static str = r"^(Finished|Completed|Generated|done|Built)";

/// "Resolving" and other setup notices.
pub const SETUP_NOTICE: &'static str = r"(?i)^(Resolving|Loading|Starting|Preparing|Checking)";

/// A group of more dependency lines than this is shown as its first line, a
/// count and its last line.
pub const SHOWN_DEPENDENCIES: usize = 3;

/// A trimmed line shorter than this many bytes that is mostly progress
/// characters is noise.
pub const PROGRESS_LINE_BYTES: usize = 10;

/// The arguments handed to `mix`.
#[derive(Clone, Debug)]
pub struct MixArgs {
    pub args: Vec<String>,
}

impl MixArgs {
    /// The command line passed to `mix`: the arguments as given.
    pub fn to_cmd_args(&self) -> (r: Vec<String>)
        ensures
            r.deep_view() == self.args.deep_view(),
    {
        self.args.clone()
    }
}

/// Whether every pattern of this filter compiles.
pub open spec fn patterns_compile() -> bool {
    &&& regex_compiles(PROGRESS_CHARS@)
    &&& regex_compiles(DEP_DOWNLOAD@)
    &&& regex_compiles(ERROR_WARNING@)
    &&& regex_compiles(SUMMARY@)
    &&& regex_compiles(SETUP_NOTICE@)
}

/// What the patterns say of one line.
#[derive(Clone, Copy, Debug)]
pub struct MixMarks {
    /// The trimmed line holds progress dots or spinner characters
    /// (`PROGRESS_CHARS`).
    pub progress: bool,
    /// The trimmed line is a dependency download line (`DEP_DOWNLOAD`).
    pub dep_download: bool,
    /// The line holds an error or warning keyword (`ERROR_WARNING`).
    pub error_warning: bool,
    /// The trimmed line is a summary line (`SUMMARY`).
    pub summary: bool,
    /// The trimmed line is a setup notice (`SETUP_NOTICE`).
    pub setup_notice: bool,
}

/// The marks the patterns give `lines`.
pub open spec fn marks_of(lines: Seq<Seq<char>>) -> Seq<MixMarks> {
    Seq::new(
        lines.len(),
        |i: int|
            MixMarks {
                progress: regex_finds(PROGRESS_CHARS@, trim(lines[i])),
                dep_download: regex_finds(DEP_DOWNLOAD@, trim(lines[i])),
                error_warning: regex_finds(ERROR_WARNING@, lines[i]),
                summary: regex_finds(SUMMARY@, trim(lines[i])),
                setup_notice: regex_finds(SETUP_NOTICE@, trim(lines[i])),
            },
    )
}

/// `[<n> more dependencies]`
pub open spec fn more_dependencies_line(n: nat) -> Seq<char> {
    seq!['['] + decimal(n) + " more dependencies]"@
}

/// `out` followed by a group of dependency lines: a group of at most
/// `SHOWN_DEPENDENCIES` lines as it is, a larger one as its first line, the
/// number of lines between the first and the last, and its last line.
pub open spec fn flushed(out: Seq<Seq<char>>, deps: Seq<Seq<char>>) -> Seq<Seq<char>> {
    if deps.len() <= SHOWN_DEPENDENCIES {
        out + deps
    } else {
        out.push(deps[0]).push(more_dependencies_line((deps.len() - 2) as nat)).push(deps.last())
    }
}

/// The length in bytes of the UTF-8 encoding of `s`, as `str::len` gives it.
pub open spec fn byte_len(s: Seq<char>) -> usize {
    encode_utf8(s).len() as usize
}

/// A short line of progress dots or spinner characters.
pub open spec fn is_progress(line: Seq<char>, mark: MixMarks) -> bool {
    mark.progress && byte_len(trim(line)) < PROGRESS_LINE_BYTES
}

/// Whether a line of `out` starts with `word`.
pub open spec fn notice_seen(out: Seq<Seq<char>>, word: Seq<char>) -> bool {
    exists|k: int| 0 <= k < out.len() && starts_with(#[trigger] out[k], word)
}

/// The output so far and the pending group of dependency lines, after input
/// line `i`, given both before it.
pub open spec fn step(
    state: (Seq<Seq<char>>, Seq<Seq<char>>),
    lines: Seq<Seq<char>>,
    marks: Seq<MixMarks>,
    i: int,
) -> (Seq<Seq<char>>, Seq<Seq<char>>) {
    let (out, deps) = state;
    let line = lines[i];
    let mark = marks[i];
    let t = trim(line);
    if t.len() == 0 {
        // a run of blank lines becomes one empty line
        (out + blank_line_output(lines, i), deps)
    } else if is_progress(line, mark) {
        (out, deps)
    } else {
        // a line that is no dependency line ends the pending group
        let out1 = if !mark.dep_download && deps.len() > 0 {
            flushed(out, deps)
        } else {
            out
        };
        let deps1 = if !mark.dep_download && deps.len() > 0 {
            seq![]
        } else {
            deps
        };
        if mark.dep_download {
            (out1, deps1.push(line))
        } else if mark.error_warning || mark.summary {
            (out1.push(line), deps1)
        } else if mark.setup_notice && !mark.error_warning {
            // only the first notice of each kind is kept
            if notice_seen(out1, first_word(t)) {
                (out1, deps1)
            } else {
                (out1.push(line), deps1)
            }
        } else {
            (out1.push(line), deps1)
        }
    }
}

/// The output and the pending dependency lines after the first `n` lines.
pub open spec fn run(lines: Seq<Seq<char>>, marks: Seq<MixMarks>, n: nat) -> (
    Seq<Seq<char>>,
    Seq<Seq<char>>,
)
    decreases n,
{
    if n == 0 {
        (seq![], seq![])
    } else {
        step(run(lines, marks, (n - 1) as nat), lines, marks, n - 1)
    }
}

/// The output lines for `lines`, with the last group of dependency lines
/// flushed.
pub open spec fn kept_lines(lines: Seq<Seq<char>>, marks: Seq<MixMarks>) -> Seq<Seq<char>> {
    let (out, deps) = run(lines, marks, lines.len());
    if deps.len() > 0 {
        flushed(out, deps)
    } else {
        out
    }
}

/// The filtered output for `input`.
pub open spec fn filtered(input: Seq<char>) -> Seq<char> {
    let lines = split_lines(input);
    join_lines(kept_lines(lines, marks_of(lines)))
}

fn more_dependencies(n: usize) -> (r: String)
    ensures
        r@ == more_dependencies_line(n as nat),
{
    let mut r = String::new();
    r.append("[");
    r.append(decimal_string(n).as_str());
    r.append(" more dependencies]");
    proof {
        reveal_strlit("[");
    }
    assert(r@ =~= more_dependencies_line(n as nat));
    r
}

/// Moves the pending dependency lines to the output, condensing a large
/// group to its first line, a count and its last line.
pub fn flush_dep_buffer(output_lines: &mut Vec<String>, dep_buffer: &mut Vec<String>)
    ensures
        final(output_lines).deep_view() == flushed(
            old(output_lines).deep_view(),
            old(dep_buffer).deep_view(),
        ),
        final(dep_buffer)@.len() == 0,
{
    let ghost out0 = output_lines.deep_view();
    let ghost deps0 = dep_buffer.deep_view();
    if dep_buffer.len() <= SHOWN_DEPENDENCIES {
        output_lines.append(dep_buffer);
        assert(output_lines.deep_view() =~= out0 + deps0);
    } else {
        let n = dep_buffer.len();
        let first = dep_buffer[0].clone();
        let last = dep_buffer[n - 1].clone();
        output_lines.push(first);
        output_lines.push(more_dependencies(n - 2));
        output_lines.push(last);
        dep_buffer.clear();
        assert(output_lines.deep_view() =~= flushed(out0, deps0));
    }
}

/// Whether a line of `lines` starts with `word`.
fn any_starts_with(lines: &Vec<String>, word: &Vec<char>) -> (r: bool)
    ensures
        r == notice_seen(lines.deep_view(), word@),
{
    let n = lines.len();
    for k in 0..n
        invariant
            n == lines@.len(),
            forall|j: int| 0 <= j < k ==> !starts_with(#[trigger] lines.deep_view()[j], word@),
    {
        if str_starts_with(lines[k].as_str(), word.as_slice()) {
            assert(starts_with(lines.deep_view()[k as int], word@));
            return true;
        }
    }
    false
}

/// Condenses `lines` given what the patterns say of each of them.
pub fn condense_mix(lines: &Vec<String>, marks: &Vec<MixMarks>) -> (out: Vec<String>)
    requires
        marks@.len() == lines@.len(),
    ensures
        out.deep_view() == kept_lines(lines.deep_view(), marks@),
{
    let ghost ls = lines.deep_view();
    let ghost ms = marks@;
    let mut output_lines: Vec<String> = Vec::new();
    let mut blank_count: usize = 0;
    let mut dep_buffer: Vec<String> = Vec::new();
    let n = lines.len();
    for i in 0..n
        invariant
            n == lines@.len() == marks@.len(),
            ls == lines.deep_view(),
            ms == marks@,
            (output_lines.deep_view(), dep_buffer.deep_view()) == run(ls, ms, i as nat),
            blank_count <= i,
            (blank_count > 0) == (i > 0 && trim(ls[i - 1]).len() == 0),
    {
        let line = lines[i].as_str();
        let mark = marks[i];
        let trimmed_line = trimmed(line);
        let t = trimmed_line.as_str();
        let ghost state = (output_lines.deep_view(), dep_buffer.deep_view());
        assert(ls[i as int] == line@);
        if t.is_empty() {
            // Track blank lines for condensing
            blank_count = blank_count + 1;
            if blank_count <= 1 {
                output_lines.push(String::new());
            }
            assert(output_lines.deep_view() =~= step(state, ls, ms, i as int).0);
        } else {
            blank_count = 0;
            if mark.progress && t.len() < PROGRESS_LINE_BYTES {
                // Skip lines that are mostly progress dots or spinner chars
            } else {
                // Flush dependency buffer if we hit a non-dependency line
                if !mark.dep_download && dep_buffer.len() > 0 {
                    flush_dep_buffer(&mut output_lines, &mut dep_buffer);
                }
                let ghost state1 = (output_lines.deep_view(), dep_buffer.deep_view());
                assert(dep_buffer.deep_view() =~= state1.1);
                if mark.dep_download {
                    // Collect dependency download lines
                    dep_buffer.push(line.to_string());
                    assert(dep_buffer.deep_view() =~= state1.1.push(line@));
                } else if mark.error_warning || mark.summary {
                    // Preserve errors, warnings, and summaries
                    output_lines.push(line.to_string());
                    assert(output_lines.deep_view() =~= state1.0.push(line@));
                } else if mark.setup_notice && !mark.error_warning {
                    // Keep the first occurrence of each setup notice
                    let notice_type = first_word_of(t);
                    let already_seen = any_starts_with(&output_lines, &notice_type);
                    if !already_seen {
                        output_lines.push(line.to_string());
                        assert(output_lines.deep_view() =~= state1.0.push(line@));
                    }
                } else {
                    // Keep everything else
                    output_lines.push(line.to_string());
                    assert(output_lines.deep_view() =~= state1.0.push(line@));
                }
            }
        }
        assert((output_lines.deep_view(), dep_buffer.deep_view()) =~= step(
            state,
            ls,
            ms,
            i as int,
        ));
    }
    // Flush any remaining dependencies
    if dep_buffer.len() > 0 {
        flush_dep_buffer(&mut output_lines, &mut dep_buffer);
    }
    output_lines
}

fn mark_lines(
    lines: &Vec<String>,
    progress_chars: &Pattern,
    dep_download: &Pattern,
    error_warning: &Pattern,
    summary: &Pattern,
    setup_notice: &Pattern,
) -> (marks: Vec<MixMarks>)
    requires
        progress_chars@ == PROGRESS_CHARS@,
        dep_download@ == DEP_DOWNLOAD@,
        error_warning@ == ERROR_WARNING@,
        summary@ == SUMMARY@,
        setup_notice@ == SETUP_NOTICE@,
    ensures
        marks@ == marks_of(lines.deep_view()),
{
    let mut marks: Vec<MixMarks> = Vec::new();
    let n = lines.len();
    for i in 0..n
        invariant
            n == lines@.len(),
            progress_chars@ == PROGRESS_CHARS@,
            dep_download@ == DEP_DOWNLOAD@,
            error_warning@ == ERROR_WARNING@,
            summary@ == SUMMARY@,
            setup_notice@ == SETUP_NOTICE@,
            marks@ == marks_of(lines.deep_view()).take(i as int),
    {
        let line = lines[i].as_str();
        let trimmed_line = trimmed(line);
        let t = trimmed_line.as_str();
        marks.push(
            MixMarks {
                progress: progress_chars.is_match(t),
                dep_download: dep_download.is_match(t),
                error_warning: error_warning.is_match(line),
                summary: summary.is_match(t),
                setup_notice: setup_notice.is_match(t),
            },
        );
        assert(marks@ =~= marks_of(lines.deep_view()).take(i as int + 1));
    }
    assert(marks_of(lines.deep_view()).take(n as int) =~= marks_of(lines.deep_view()));
    marks
}

/// Condenses general `mix` output: progress noise is dropped, groups of
/// dependency lines are condensed, errors, warnings and summaries are kept,
/// only the first setup notice of each kind is kept, and runs of blank lines
/// become one empty line.
pub fn filter_mix(input: &str) -> (r: Result<String, FilterError>)
    ensures
        r is Ok <==> patterns_compile(),
        r matches Ok(out) ==> out@ == filtered(input@),
{
    let progress_chars = match Pattern::compile(PROGRESS_CHARS) {
        Some(p) => p,
        None => return Err(FilterError::InvalidPattern),
    };
    let dep_download = match Pattern::compile(DEP_DOWNLOAD) {
        Some(p) => p,
        None => return Err(FilterError::InvalidPattern),
    };
    let error_warning = match Pattern::compile(ERROR_WARNING) {
        Some(p) => p,
        None => return Err(FilterError::InvalidPattern),
    };
    let summary = match Pattern::compile(SUMMARY) {
        Some(p) => p,
        None => return Err(FilterError::InvalidPattern),
    };
    let setup_notice = match Pattern::compile(SETUP_NOTICE) {
        Some(p) => p,
        None => return Err(FilterError::InvalidPattern),
    };
    let lines = lines_of(input);
    let marks = mark_lines(
        &lines,
        &progress_chars,
        &dep_download,
        &error_warning,
        &summary,
        &setup_notice,
    );
    let out = condense_mix(&lines, &marks);
    Ok(join_with_newlines(&out))
}

/// Whether `l` may stand in the output for `lines`: an empty line, an input
/// line, or a line counting two or more left-out dependency lines.
pub open spec fn may_show(lines: Seq<Seq<char>>, l: Seq<char>) -> bool {
    ||| l.len() == 0
    ||| exists|i: int| 0 <= i < lines.len() && l == #[trigger] lines[i]
    ||| exists|m: nat| m >= 2 && l == #[trigger] more_dependencies_line(m)
}

/// Whether every line of `ls` may stand in the output for `lines`.
pub open spec fn all_may_show(lines: Seq<Seq<char>>, ls: Seq<Seq<char>>) -> bool {
    forall|k: int| 0 <= k < ls.len() ==> may_show(lines, #[trigger] ls[k])
}

proof fn lemma_flushed(lines: Seq<Seq<char>>, out: Seq<Seq<char>>, deps: Seq<Seq<char>>)
    requires
        all_may_show(lines, out),
        all_may_show(lines, deps),
    ensures
        all_may_show(lines, flushed(out, deps)),
        out.len() <= flushed(out, deps).len() <= out.len() + deps.len(),
        forall|k: int| 0 <= k < out.len() ==> flushed(out, deps)[k] == #[trigger] out[k],
{
    let r = flushed(out, deps);
    if deps.len() > SHOWN_DEPENDENCIES {
        let m = (deps.len() - 2) as nat;
        assert(may_show(lines, more_dependencies_line(m)));
        assert forall|k: int| 0 <= k < r.len() implies may_show(lines, #[trigger] r[k]) by {
            if k < out.len() {
                assert(r[k] == out[k]);
            } else if k == out.len() {
                assert(r[k] == deps[0]);
            } else if k == out.len() + 1 {
                assert(r[k] == more_dependencies_line(m));
            } else {
                assert(r[k] == deps[deps.len() - 1]);
            }
        }
    } else {
        assert forall|k: int| 0 <= k < r.len() implies may_show(lines, #[trigger] r[k]) by {
            if k < out.len() {
                assert(r[k] == out[k]);
            } else {
                assert(r[k] == deps[k - out.len()]);
            }
        }
    }
}

proof fn lemma_run(lines: Seq<Seq<char>>, marks: Seq<MixMarks>, n: nat)
    requires
        n <= lines.len(),
        marks.len() == lines.len(),
    ensures
        run(lines, marks, n).0.len() + run(lines, marks, n).1.len() <= n,
        all_may_show(lines, run(lines, marks, n).0),
        all_may_show(lines, run(lines, marks, n).1),
    decreases n,
{
    if n > 0 {
        let i = n - 1;
        lemma_run(lines, marks, i as nat);
        let (out, deps) = run(lines, marks, i as nat);
        let line = lines[i];
        assert(may_show(lines, line));
        assert(may_show(lines, Seq::<char>::empty()));
        lemma_flushed(lines, out, deps);
        let (out2, deps2) = run(lines, marks, n);
        assert forall|k: int| 0 <= k < out2.len() implies may_show(lines, #[trigger] out2[k]) by {
            if trim(line).len() != 0 && !is_progress(line, marks[i]) && !marks[i].dep_download
                && deps.len() > 0 {
                let f = flushed(out, deps);
                if k < f.len() {
                    assert(out2[k] == f[k]);
                }
            } else if k < out.len() {
                assert(out2[k] == out[k]);
            }
        }
        assert forall|k: int| 0 <= k < deps2.len() implies may_show(lines, #[trigger] deps2[k]) by {
            if k < deps.len() {
                assert(deps2[k] == deps[k]);
            }
        }
    }
}

proof fn lemma_run_extends(lines: Seq<Seq<char>>, marks: Seq<MixMarks>, m: nat, n: nat)
    requires
        m <= n <= lines.len(),
        marks.len() == lines.len(),
    ensures
        run(lines, marks, m).0.len() <= run(lines, marks, n).0.len(),
        forall|k: int|
            0 <= k < run(lines, marks, m).0.len() ==> run(lines, marks, n).0[k] == #[trigger] run(lines, marks, m).0[k],
    decreases n,
{
    if m < n {
        lemma_run_extends(lines, marks, m, (n - 1) as nat);
        lemma_run(lines, marks, (n - 1) as nat);
        let (out, deps) = run(lines, marks, (n - 1) as nat);
        lemma_flushed(lines, out, deps);
        let out2 = run(lines, marks, n).0;
        assert forall|k: int| 0 <= k < out.len() implies out2[k] == #[trigger] out[k] by {
            let line = lines[n - 1];
            if trim(line).len() != 0 && !is_progress(line, marks[n - 1]) && !marks[n - 1].dep_download
                && deps.len() > 0 {
                assert(flushed(out, deps)[k] == out[k]);
            }
        }
    }
}

/// The filter only drops and condenses: there are no more output lines than
/// input lines, and every output line is empty, an input line, or a line
/// counting two or more left-out dependency lines.
pub proof fn lemma_output_from_input(lines: Seq<Seq<char>>, marks: Seq<MixMarks>)
    requires
        marks.len() == lines.len(),
    ensures
        kept_lines(lines, marks).len() <= lines.len(),
        all_may_show(lines, kept_lines(lines, marks)),
{
    lemma_run(lines, marks, lines.len());
    let (out, deps) = run(lines, marks, lines.len());
    lemma_flushed(lines, out, deps);
}

/// Errors, warnings and summaries are never dropped: a non-blank line that
/// is neither progress noise nor a dependency line, and that holds an error
/// or warning keyword or (trimmed) is a summary line, is kept.
pub proof fn lemma_keeps_errors_and_summaries(lines: Seq<Seq<char>>, marks: Seq<MixMarks>, i: int)
    requires
        marks.len() == lines.len(),
        0 <= i < lines.len(),
        trim(lines[i]).len() != 0,
        !is_progress(lines[i], marks[i]),
        !marks[i].dep_download,
        marks[i].error_warning || marks[i].summary,
    ensures
        exists|k: int|
            0 <= k < kept_lines(lines, marks).len() && #[trigger] kept_lines(lines, marks)[k]
                == lines[i],
{
    let after = run(lines, marks, (i + 1) as nat).0;
    let k = after.len() - 1;
    assert(after[k] == lines[i]);
    lemma_run_extends(lines, marks, (i + 1) as nat, lines.len());
    lemma_run(lines, marks, lines.len());
    let (out, deps) = run(lines, marks, lines.len());
    lemma_flushed(lines, out, deps);
    assert(run(lines, marks, lines.len()).0[k] == lines[i]);
    assert(kept_lines(lines, marks)[k] == lines[i]);
}


proof fn lemma_run_repeat(lines: Seq<Seq<char>>, marks: Seq<MixMarks>, b: int, m: nat)
    requires
        marks.len() == lines.len(),
        0 <= b < lines.len(),
        is_blank(lines[b]),
        m <= lines.len() + 1,
    ensures
        run(repeat_at(lines, b), repeat_at(marks, b), m) == if m <= b + 1 {
            run(lines, marks, m)
        } else {
            run(lines, marks, (m - 1) as nat)
        },
    decreases m,
{
    let lines2 = repeat_at(lines, b);
    let marks2 = repeat_at(marks, b);
    lemma_repeat_at(lines, b);
    lemma_repeat_at(marks, b);
    if m > 0 {
        let i = m - 1;
        lemma_run_repeat(lines, marks, b, i as nat);
        let state = run(lines2, marks2, i as nat);
        if i <= b {
            assert(step(state, lines2, marks2, i) == step(state, lines, marks, i));
        } else if i == b + 1 {
            assert(trim(lines2[i]).len() == 0);
            assert(state.0 + blank_line_output(lines2, i) =~= state.0);
        } else {
            assert(step(state, lines2, marks2, i) == step(state, lines, marks, i - 1));
        }
    }
}

/// Repeating a blank line leaves the filtered output unchanged.
pub proof fn lemma_repeated_blank_line(input1: Seq<char>, input2: Seq<char>, b: int)
    requires
        0 <= b < split_lines(input1).len(),
        is_blank(split_lines(input1)[b]),
        split_lines(input2) == repeat_at(split_lines(input1), b),
    ensures
        filtered(input2) == filtered(input1),
{
    let lines = split_lines(input1);
    lemma_repeat_at(lines, b);
    assert(marks_of(repeat_at(lines, b)) =~= repeat_at(marks_of(lines), b));
    lemma_run_repeat(lines, marks_of(lines), b, lines.len() + 1);
}

} // verus!
