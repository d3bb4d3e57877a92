//! Mix test filter - condenses `mix test` output to show only failures and
//! summary.

use vstd::prelude::*;

use crate::pattern::{regex_compiles, regex_finds, FilterError, Pattern};
use crate::text::{
    blank_line_output, concat_outputs, is_blank, lemma_concat_all, lemma_concat_len,
    lemma_concat_shows, condensed_lines, is_subsequence, lemma_concat_subsequence, repeat_at,
    lemma_repeat_at, join_lines, join_with_newlines, lines_of, split_lines,
    str_is_blank,
};

verus! {

/// Test result lines with timing.
pub const TEST_RESULT: &'static str = r"^\s+✓\s+.+?\s+\(\d+ms\)";

/// Passing test lines (verbose format).
pub const PASSING_TEST: &'static str = r"^\s{2,}\d+\)\s+test.*?ok";

/// Numbered test lines, which open a failure report.
pub const TEST_NUMBER: &'static str = r"^\s*\d+\)\s+";

/// Error lines.
pub const ERROR: &'static str = r"(?i)(error:|failed)";

/// Summary lines.
pub const SUMMARY: &'static str = r"^(\d+\s+passed|\d+\s+failed|\d+\s+skipped|Finished)";

/// Warning lines.
pub const WARNING: &'static str = r"(?i)warning";

/// The arguments handed to `mix test`.
#[derive(Clone, Debug)]
pub struct MixTestArgs {
    pub args: Vec<String>,
}

impl MixTestArgs {
    /// The command line passed to `mix`: `test` followed by the arguments.
    pub fn to_cmd_args(&self) -> (r: Vec<String>)
        ensures
            r.deep_view() == seq!["test"@] + self.args.deep_view(),
    {
        let mut cmd: Vec<String> = Vec::new();
        cmd.push("test".to_string());
        let mut rest = self.args.clone();
        cmd.append(&mut rest);
        assert(cmd.deep_view() =~= seq!["test"@] + self.args.deep_view());
        cmd
    }
}

/// Whether every pattern of this filter compiles.
pub open spec fn patterns_compile() -> bool {
    &&& regex_compiles(TEST_RESULT@)
    &&& regex_compiles(PASSING_TEST@)
    &&& regex_compiles(TEST_NUMBER@)
    &&& regex_compiles(ERROR@)
    &&& regex_compiles(SUMMARY@)
    &&& regex_compiles(WARNING@)
}

/// What the patterns say of one line.
#[derive(Clone, Copy, Debug)]
pub struct MixTestMarks {
    /// A test result line with timing (`TEST_RESULT`).
    pub test_result: bool,
    /// A passing test line in the verbose format (`PASSING_TEST`).
    pub passing_test: bool,
    /// A numbered test line (`TEST_NUMBER`).
    pub test_number: bool,
    /// An error line (`ERROR`).
    pub error: bool,
    /// A summary line (`SUMMARY`).
    pub summary: bool,
    /// A warning line (`WARNING`).
    pub warning: bool,
}

/// The marks the patterns give `lines`.
pub open spec fn marks_of(lines: Seq<Seq<char>>) -> Seq<MixTestMarks> {
    Seq::new(
        lines.len(),
        |i: int|
            MixTestMarks {
                test_result: regex_finds(TEST_RESULT@, lines[i]),
                passing_test: regex_finds(PASSING_TEST@, lines[i]),
                test_number: regex_finds(TEST_NUMBER@, lines[i]),
                error: regex_finds(ERROR@, lines[i]),
                summary: regex_finds(SUMMARY@, lines[i]),
                warning: regex_finds(WARNING@, lines[i]),
            },
    )
}

/// Whether line `i` is a passing test: a test result with timing or a
/// passing test in the verbose format.
pub open spec fn passes(marks: Seq<MixTestMarks>, i: int) -> bool {
    marks[i].test_result || marks[i].passing_test
}

/// Whether a failure report is open before line `n`: a numbered test line
/// that is no passing test opens one, and it runs on until a passing test
/// line (blank lines do not end it).
pub open spec fn in_failure_report(lines: Seq<Seq<char>>, marks: Seq<MixTestMarks>, n: int) -> bool
    decreases n,
{
    if n <= 0 {
        false
    } else if is_blank(lines[n - 1]) {
        in_failure_report(lines, marks, n - 1)
    } else if passes(marks, n - 1) {
        false
    } else if marks[n - 1].test_number {
        true
    } else {
        in_failure_report(lines, marks, n - 1)
    }
}

/// What input line `i` contributes to the output: a run of blank lines
/// becomes one empty line; passing test lines are dropped; a numbered test
/// line and the rest of its failure report are kept; elsewhere only summary,
/// warning and error lines are kept.
pub open spec fn line_output(lines: Seq<Seq<char>>, marks: Seq<MixTestMarks>, i: int) -> Seq<
    Seq<char>,
> {
    let line = lines[i];
    let mark = marks[i];
    if is_blank(line) {
        blank_line_output(lines, i)
    } else if passes(marks, i) {
        seq![]
    } else if mark.test_number || in_failure_report(lines, marks, i) {
        seq![line]
    } else if mark.summary || mark.warning || mark.error {
        seq![line]
    } else {
        seq![]
    }
}

/// The output lines for the first `n` input lines.
pub open spec fn kept_lines(lines: Seq<Seq<char>>, marks: Seq<MixTestMarks>, n: nat) -> Seq<
    Seq<char>,
> {
    concat_outputs(|i: int| line_output(lines, marks, i), n)
}

/// The filtered output for `input`.
pub open spec fn filtered(input: Seq<char>) -> Seq<char> {
    let lines = split_lines(input);
    join_lines(kept_lines(lines, marks_of(lines), lines.len()))
}

/// Condenses `lines` given what the patterns say of each of them.
pub fn condense_mix_test(lines: &Vec<String>, marks: &Vec<MixTestMarks>) -> (out: Vec<String>)
    requires
        marks@.len() == lines@.len(),
    ensures
        out.deep_view() == kept_lines(lines.deep_view(), marks@, lines.len() as nat),
{
    let ghost ls = lines.deep_view();
    let ghost ms = marks@;
    let mut out: Vec<String> = Vec::new();
    let mut in_failure_block = false;
    let mut blank_count: usize = 0;
    let n = lines.len();
    for i in 0..n
        invariant
            n == lines@.len() == marks@.len(),
            ls == lines.deep_view(),
            ms == marks@,
            out.deep_view() == kept_lines(ls, ms, i as nat),
            in_failure_block == in_failure_report(ls, ms, i as int),
            blank_count <= i,
            (blank_count > 0) == (i > 0 && is_blank(ls[i - 1])),
    {
        let line = lines[i].as_str();
        let mark = marks[i];
        let ghost before = out.deep_view();
        assert(ls[i as int] == line@);
        // Track blank lines for condensing
        if str_is_blank(line) {
            blank_count = blank_count + 1;
            if blank_count <= 1 {
                out.push(String::new());
            }
        } else {
            blank_count = 0;
            if mark.test_result || mark.passing_test {
                // Skip individual passing test lines; they end a failure report
                in_failure_block = false;
            } else if mark.test_number {
                // A numbered test line opens a failure report
                in_failure_block = true;
                out.push(line.to_string());
            } else if in_failure_block {
                // Keep the lines of a failure report
                out.push(line.to_string());
            } else if mark.summary || mark.warning || mark.error {
                // Preserve summary, warning, and error lines
                out.push(line.to_string());
            }
        }
        assert(out.deep_view() =~= before + line_output(ls, ms, i as int));
    }
    out
}

fn mark_lines(
    lines: &Vec<String>,
    test_result: &Pattern,
    passing_test: &Pattern,
    test_number: &Pattern,
    error: &Pattern,
    summary: &Pattern,
    warning: &Pattern,
) -> (marks: Vec<MixTestMarks>)
    requires
        test_result@ == TEST_RESULT@,
        passing_test@ == PASSING_TEST@,
        test_number@ == TEST_NUMBER@,
        error@ == ERROR@,
        summary@ == SUMMARY@,
        warning@ == WARNING@,
    ensures
        marks@ == marks_of(lines.deep_view()),
{
    let mut marks: Vec<MixTestMarks> = Vec::new();
    let n = lines.len();
    for i in 0..n
        invariant
            n == lines@.len(),
            test_result@ == TEST_RESULT@,
            passing_test@ == PASSING_TEST@,
            test_number@ == TEST_NUMBER@,
            error@ == ERROR@,
            summary@ == SUMMARY@,
            warning@ == WARNING@,
            marks@ == marks_of(lines.deep_view()).take(i as int),
    {
        let line = lines[i].as_str();
        marks.push(
            MixTestMarks {
                test_result: test_result.is_match(line),
                passing_test: passing_test.is_match(line),
                test_number: test_number.is_match(line),
                error: error.is_match(line),
                summary: summary.is_match(line),
                warning: warning.is_match(line),
            },
        );
        assert(marks@ =~= marks_of(lines.deep_view()).take(i as int + 1));
    }
    assert(marks_of(lines.deep_view()).take(n as int) =~= marks_of(lines.deep_view()));
    marks
}

/// Condenses `mix test` output to the failure reports, summaries, warnings
/// and errors; runs of blank lines become one empty line.
pub fn filter_mix_test(input: &str) -> (r: Result<String, FilterError>)
    ensures
        r is Ok <==> patterns_compile(),
        r matches Ok(out) ==> out@ == filtered(input@),
{
    let test_result = match Pattern::compile(TEST_RESULT) {
        Some(p) => p,
        None => return Err(FilterError::InvalidPattern),
    };
    let passing_test = match Pattern::compile(PASSING_TEST) {
        Some(p) => p,
        None => return Err(FilterError::InvalidPattern),
    };
    let test_number = match Pattern::compile(TEST_NUMBER) {
        Some(p) => p,
        None => return Err(FilterError::InvalidPattern),
    };
    let error = match Pattern::compile(ERROR) {
        Some(p) => p,
        None => return Err(FilterError::InvalidPattern),
    };
    let summary = match Pattern::compile(SUMMARY) {
        Some(p) => p,
        None => return Err(FilterError::InvalidPattern),
    };
    let warning = match Pattern::compile(WARNING) {
        Some(p) => p,
        None => return Err(FilterError::InvalidPattern),
    };
    let lines = lines_of(input);
    let marks = mark_lines(
        &lines,
        &test_result,
        &passing_test,
        &test_number,
        &error,
        &summary,
        &warning,
    );
    let out = condense_mix_test(&lines, &marks);
    Ok(join_with_newlines(&out))
}

/// The filter only drops and condenses: there are no more output lines than
/// input lines, and every output line is empty or a non-blank input line
/// that is no passing test.
pub proof fn lemma_output_from_input(lines: Seq<Seq<char>>, marks: Seq<MixTestMarks>)
    requires
        marks.len() == lines.len(),
    ensures
        kept_lines(lines, marks, lines.len()).len() <= lines.len(),
        forall|k: int|
            0 <= k < kept_lines(lines, marks, lines.len()).len() ==> {
                let l = #[trigger] kept_lines(lines, marks, lines.len())[k];
                l.len() == 0 || exists|i: int|
                    0 <= i < lines.len() && l == #[trigger] lines[i] && !is_blank(lines[i])
                        && !passes(marks, i)
            },
{
    let out = |i: int| line_output(lines, marks, i);
    let from_input = |l: Seq<char>|
        l.len() == 0 || exists|i: int|
            0 <= i < lines.len() && l == #[trigger] lines[i] && !is_blank(lines[i])
                && !passes(marks, i);
    assert forall|i: int| 0 <= i < lines.len() implies (#[trigger] out(i)).len() <= 1 by {}
    lemma_concat_len(out, lines.len());
    assert forall|i: int, j: int|
        0 <= i < lines.len() && 0 <= j < out(i).len() implies from_input(#[trigger] out(i)[j]) by {
        if !is_blank(lines[i]) && !passes(marks, i) {
            assert(out(i)[j] == lines[i]);
        }
    }
    lemma_concat_all(out, lines.len(), from_input);
}

proof fn lemma_kept(lines: Seq<Seq<char>>, marks: Seq<MixTestMarks>, i: int)
    requires
        0 <= i < lines.len(),
        line_output(lines, marks, i) == seq![lines[i]],
    ensures
        exists|k: int|
            0 <= k < kept_lines(lines, marks, lines.len()).len() && #[trigger] kept_lines(
                lines,
                marks,
                lines.len(),
            )[k] == lines[i],
{
    let out = |i: int| line_output(lines, marks, i);
    lemma_concat_shows(out, i, 0, lines.len());
    let all = concat_outputs(out, lines.len());
    let k = choose|k: int| 0 <= k < all.len() && #[trigger] all[k] == out(i)[0];
    assert(kept_lines(lines, marks, lines.len()) == all);
    assert(kept_lines(lines, marks, lines.len())[k] == lines[i]);
}

/// Failure reports are kept whole: a numbered test line that is no passing
/// test, and every non-blank line of the report it opens, is kept.
pub proof fn lemma_keeps_failure_reports(lines: Seq<Seq<char>>, marks: Seq<MixTestMarks>, i: int)
    requires
        marks.len() == lines.len(),
        0 <= i < lines.len(),
        !is_blank(lines[i]),
        !passes(marks, i),
        marks[i].test_number || in_failure_report(lines, marks, i),
    ensures
        exists|k: int|
            0 <= k < kept_lines(lines, marks, lines.len()).len() && #[trigger] kept_lines(
                lines,
                marks,
                lines.len(),
            )[k] == lines[i],
{
    lemma_kept(lines, marks, i);
}

/// Summary, warning and error lines are kept, unless they are passing-test
/// lines.
pub proof fn lemma_keeps_summaries(lines: Seq<Seq<char>>, marks: Seq<MixTestMarks>, i: int)
    requires
        marks.len() == lines.len(),
        0 <= i < lines.len(),
        !is_blank(lines[i]),
        !marks[i].test_result,
        !marks[i].passing_test,
        marks[i].summary || marks[i].warning || marks[i].error,
    ensures
        exists|k: int|
            0 <= k < kept_lines(lines, marks, lines.len()).len() && #[trigger] kept_lines(
                lines,
                marks,
                lines.len(),
            )[k] == lines[i],
{
    lemma_kept(lines, marks, i);
}


/// Lines are only dropped, never altered or reordered: the output is the
/// input with runs of blank lines condensed and some lines left out.
pub proof fn lemma_output_is_subsequence(lines: Seq<Seq<char>>, marks: Seq<MixTestMarks>)
    requires
        marks.len() == lines.len(),
    ensures
        is_subsequence(kept_lines(lines, marks, lines.len()), condensed_lines(lines, lines.len())),
{
    let out = |i: int| line_output(lines, marks, i);
    let full = |i: int|
        if is_blank(lines[i]) {
            blank_line_output(lines, i)
        } else {
            seq![lines[i]]
        };
    assert forall|i: int| 0 <= i < lines.len() implies (#[trigger] full(i)).len() <= 1 && (out(i)
        == full(i) || out(i).len() == 0) by {}
    lemma_concat_subsequence(out, full, lines.len());
}

proof fn lemma_failure_report_repeat(
    lines: Seq<Seq<char>>,
    marks: Seq<MixTestMarks>,
    b: int,
    n: int,
)
    requires
        marks.len() == lines.len(),
        0 <= b < lines.len(),
        is_blank(lines[b]),
        0 <= n <= lines.len() + 1,
    ensures
        in_failure_report(repeat_at(lines, b), repeat_at(marks, b), n) == if n <= b + 1 {
            in_failure_report(lines, marks, n)
        } else {
            in_failure_report(lines, marks, n - 1)
        },
    decreases n,
{
    lemma_repeat_at(lines, b);
    lemma_repeat_at(marks, b);
    if n > 0 {
        lemma_failure_report_repeat(lines, marks, b, n - 1);
    }
}

proof fn lemma_kept_lines_repeat(lines: Seq<Seq<char>>, marks: Seq<MixTestMarks>, b: int, m: nat)
    requires
        marks.len() == lines.len(),
        0 <= b < lines.len(),
        is_blank(lines[b]),
        m <= lines.len() + 1,
    ensures
        kept_lines(repeat_at(lines, b), repeat_at(marks, b), m) == if m <= b + 1 {
            kept_lines(lines, marks, m)
        } else {
            kept_lines(lines, marks, (m - 1) as nat)
        },
    decreases m,
{
    let lines2 = repeat_at(lines, b);
    let marks2 = repeat_at(marks, b);
    lemma_repeat_at(lines, b);
    lemma_repeat_at(marks, b);
    if m > 0 {
        let i = m - 1;
        lemma_kept_lines_repeat(lines, marks, b, i as nat);
        lemma_failure_report_repeat(lines, marks, b, i);
        if i <= b {
            assert(line_output(lines2, marks2, i) == line_output(lines, marks, i));
        } else if i == b + 1 {
            assert(line_output(lines2, marks2, i) =~= Seq::<Seq<char>>::empty());
            assert(kept_lines(lines2, marks2, m) =~= kept_lines(lines2, marks2, i as nat));
        } else {
            assert(line_output(lines2, marks2, i) == line_output(lines, marks, i - 1));
        }
    }
}

/// Repeating a blank line leaves the filtered output unchanged.
pub proof fn lemma_repeated_blank_line(input1: Seq<char>, input2: Seq<char>, b: int)
    requires
        0 <= b < split_lines(input1).len(),
        is_blank(split_lines(input1)[b]),
        split_lines(input2) == repeat_at(split_lines(input1), b),
    ensures
        filtered(input2) == filtered(input1),
{
    let lines = split_lines(input1);
    lemma_repeat_at(lines, b);
    assert(marks_of(repeat_at(lines, b)) =~= repeat_at(marks_of(lines), b));
    lemma_kept_lines_repeat(lines, marks_of(lines), b, lines.len() + 1);
}

} // verus!
