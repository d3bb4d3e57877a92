//! Xcodebuild filter - condenses Xcode build tool verbose output.

use vstd::prelude::*;

use crate::pattern::{regex_compiles, regex_finds, FilterError, Pattern};
use crate::text::{
    blank_line_output, concat_outputs, is_blank, lemma_concat_all, lemma_concat_len,
    lemma_concat_shows, condensed_lines, is_subsequence, lemma_concat_subsequence, join_lines, join_with_newlines, lines_of, split_lines,
    str_is_blank,
};

verus! {

/// Verbose compile lines (CompileSwift, CompileC, CompileAsset, Ld, ...).
pub const COMPILE_LINE: &'static str = r"^(Compile|CompileSwift|CompileC|CompileAsset|CompileMetalFile|Ld|ProcessInfoPlistFile|CodeSign|Link|ProcessProductPackaging|GenerateDSYMFile|CopyStringsFile|CreateBuildDirectory)";

/// Error and warning lines.
pub const ERROR_WARNING: &'static str = r"(?i)(error:|warning:|failed|Build failed|fatal|FAILED)";

/// Build complete / result lines.
pub const BUILD_RESULT: &'static str = r"(?i)^(Build complete|Finished|succeeded|failed|Build\s|Xcode)";

/// The arguments handed to `xcodebuild`.
#[derive(Clone, Debug)]
pub struct XcodebuildArgs {
    pub args: Vec<String>,
}

impl XcodebuildArgs {
    /// The command line passed to `xcodebuild`: the arguments as given.
    pub fn to_cmd_args(&self) -> (r: Vec<String>)
        ensures
            r.deep_view() == self.args.deep_view(),
    {
        self.args.clone()
    }
}

/// Whether every pattern of this filter compiles.
pub open spec fn patterns_compile() -> bool {
    &&& regex_compiles(COMPILE_LINE@)
    &&& regex_compiles(ERROR_WARNING@)
    &&& regex_compiles(BUILD_RESULT@)
}

/// What the patterns say of one line.
#[derive(Clone, Copy, Debug)]
pub struct XcodebuildMarks {
    /// The line is a verbose compile line (`COMPILE_LINE`).
    pub compile_line: bool,
    /// The line reports an error or a warning (`ERROR_WARNING`).
    pub error_or_warning: bool,
    /// The line reports a build result (`BUILD_RESULT`).
    pub build_result: bool,
}

/// The marks the patterns give `lines`.
pub open spec fn marks_of(lines: Seq<Seq<char>>) -> Seq<XcodebuildMarks> {
    Seq::new(
        lines.len(),
        |i: int|
            XcodebuildMarks {
                compile_line: regex_finds(COMPILE_LINE@, lines[i]),
                error_or_warning: regex_finds(ERROR_WARNING@, lines[i]),
                build_result: regex_finds(BUILD_RESULT@, lines[i]),
            },
    )
}

/// What input line `i` contributes to the output: a run of blank lines
/// becomes one empty line, compile lines are dropped, every other line is
/// kept (errors, warnings, build results and environment information alike).
pub open spec fn line_output(lines: Seq<Seq<char>>, marks: Seq<XcodebuildMarks>, i: int) -> Seq<
    Seq<char>,
> {
    if is_blank(lines[i]) {
        blank_line_output(lines, i)
    } else if marks[i].compile_line {
        seq![]
    } else {
        seq![lines[i]]
    }
}

/// The output lines for the first `n` input lines.
pub open spec fn kept_lines(lines: Seq<Seq<char>>, marks: Seq<XcodebuildMarks>, n: nat) -> Seq<
    Seq<char>,
> {
    concat_outputs(|i: int| line_output(lines, marks, i), n)
}

/// The filtered output for `input`.
pub open spec fn filtered(input: Seq<char>) -> Seq<char> {
    let lines = split_lines(input);
    join_lines(kept_lines(lines, marks_of(lines), lines.len()))
}

/// Condenses `lines` given what the patterns say of each of them.
pub fn condense_xcodebuild(lines: &Vec<String>, marks: &Vec<XcodebuildMarks>) -> (out: Vec<String>)
    requires
        marks@.len() == lines@.len(),
    ensures
        out.deep_view() == kept_lines(lines.deep_view(), marks@, lines.len() as nat),
{
    let ghost ls = lines.deep_view();
    let mut out: Vec<String> = Vec::new();
    let mut blank_count: usize = 0;
    let n = lines.len();
    for i in 0..n
        invariant
            n == lines@.len() == marks@.len(),
            ls == lines.deep_view(),
            out.deep_view() == kept_lines(ls, marks@, i as nat),
            blank_count <= i,
            (blank_count > 0) == (i > 0 && is_blank(ls[i - 1])),
    {
        let line = lines[i].as_str();
        let mark = marks[i];
        let ghost before = out.deep_view();
        assert(ls[i as int] == line@);
        // Track and condense blank lines
        if str_is_blank(line) {
            blank_count = blank_count + 1;
            if blank_count <= 1 {
                out.push(String::new());
            }
        } else {
            blank_count = 0;
            if mark.compile_line {
                // Skip verbose compile lines
            } else if mark.error_or_warning || mark.build_result {
                // Preserve error, warning, and build result lines
                out.push(line.to_string());
            } else {
                // Keep other lines (environment info, etc.)
                out.push(line.to_string());
            }
        }
        assert(out.deep_view() =~= before + line_output(ls, marks@, i as int));
    }
    out
}

fn mark_lines(
    lines: &Vec<String>,
    compile_line: &Pattern,
    error_warning: &Pattern,
    build_result: &Pattern,
) -> (marks: Vec<XcodebuildMarks>)
    requires
        compile_line@ == COMPILE_LINE@,
        error_warning@ == ERROR_WARNING@,
        build_result@ == BUILD_RESULT@,
    ensures
        marks@ == marks_of(lines.deep_view()),
{
    let mut marks: Vec<XcodebuildMarks> = Vec::new();
    let n = lines.len();
    for i in 0..n
        invariant
            n == lines@.len(),
            compile_line@ == COMPILE_LINE@,
            error_warning@ == ERROR_WARNING@,
            build_result@ == BUILD_RESULT@,
            marks@ == marks_of(lines.deep_view()).take(i as int),
    {
        let line = lines[i].as_str();
        marks.push(
            XcodebuildMarks {
                compile_line: compile_line.is_match(line),
                error_or_warning: error_warning.is_match(line),
                build_result: build_result.is_match(line),
            },
        );
        assert(marks@ =~= marks_of(lines.deep_view()).take(i as int + 1));
    }
    assert(marks_of(lines.deep_view()).take(n as int) =~= marks_of(lines.deep_view()));
    marks
}

/// Condenses `xcodebuild` output: compile lines are dropped, runs of blank
/// lines become one empty line, and everything else is kept.
pub fn filter_xcodebuild(input: &str) -> (r: Result<String, FilterError>)
    ensures
        r is Ok <==> patterns_compile(),
        r matches Ok(out) ==> out@ == filtered(input@),
{
    let compile_line = match Pattern::compile(COMPILE_LINE) {
        Some(p) => p,
        None => return Err(FilterError::InvalidPattern),
    };
    let error_warning = match Pattern::compile(ERROR_WARNING) {
        Some(p) => p,
        None => return Err(FilterError::InvalidPattern),
    };
    let build_result = match Pattern::compile(BUILD_RESULT) {
        Some(p) => p,
        None => return Err(FilterError::InvalidPattern),
    };
    let lines = lines_of(input);
    let marks = mark_lines(&lines, &compile_line, &error_warning, &build_result);
    let out = condense_xcodebuild(&lines, &marks);
    Ok(join_with_newlines(&out))
}

/// The filter only drops and condenses: there are no more output lines than
/// input lines, and every output line is empty or a non-blank input line
/// that is no compile line (so no compile line survives).
pub proof fn lemma_output_from_input(lines: Seq<Seq<char>>, marks: Seq<XcodebuildMarks>)
    requires
        marks.len() == lines.len(),
    ensures
        kept_lines(lines, marks, lines.len()).len() <= lines.len(),
        forall|k: int|
            0 <= k < kept_lines(lines, marks, lines.len()).len() ==> {
                let l = #[trigger] kept_lines(lines, marks, lines.len())[k];
                l.len() == 0 || exists|i: int|
                    0 <= i < lines.len() && l == #[trigger] lines[i] && !is_blank(lines[i])
                        && !marks[i].compile_line
            },
{
    let out = |i: int| line_output(lines, marks, i);
    let from_input = |l: Seq<char>|
        l.len() == 0 || exists|i: int|
            0 <= i < lines.len() && l == #[trigger] lines[i] && !is_blank(lines[i])
                && !marks[i].compile_line;
    assert forall|i: int| 0 <= i < lines.len() implies (#[trigger] out(i)).len() <= 1 by {}
    lemma_concat_len(out, lines.len());
    assert forall|i: int, j: int|
        0 <= i < lines.len() && 0 <= j < out(i).len() implies from_input(#[trigger] out(i)[j]) by {
        if !is_blank(lines[i]) && !marks[i].compile_line {
            assert(out(i)[j] == lines[i]);
        }
    }
    lemma_concat_all(out, lines.len(), from_input);
}

/// Every non-blank input line that is no compile line is kept: errors,
/// warnings and build results among them.
pub proof fn lemma_keeps_other_lines(lines: Seq<Seq<char>>, marks: Seq<XcodebuildMarks>, i: int)
    requires
        marks.len() == lines.len(),
        0 <= i < lines.len(),
        !is_blank(lines[i]),
        !marks[i].compile_line,
    ensures
        exists|k: int|
            0 <= k < kept_lines(lines, marks, lines.len()).len() && #[trigger] kept_lines(
                lines,
                marks,
                lines.len(),
            )[k] == lines[i],
{
    let out = |i: int| line_output(lines, marks, i);
    assert(out(i) == seq![lines[i]]);
    lemma_concat_shows(out, i, 0, lines.len());
    let all = concat_outputs(out, lines.len());
    let k = choose|k: int| 0 <= k < all.len() && #[trigger] all[k] == out(i)[0];
    assert(kept_lines(lines, marks, lines.len()) == all);
    assert(kept_lines(lines, marks, lines.len())[k] == lines[i]);
}


/// Lines are only dropped, never altered or reordered: the output is the
/// input with runs of blank lines condensed and some lines left out.
pub proof fn lemma_output_is_subsequence(lines: Seq<Seq<char>>, marks: Seq<XcodebuildMarks>)
    requires
        marks.len() == lines.len(),
    ensures
        is_subsequence(kept_lines(lines, marks, lines.len()), condensed_lines(lines, lines.len())),
{
    let out = |i: int| line_output(lines, marks, i);
    let full = |i: int|
        if is_blank(lines[i]) {
            blank_line_output(lines, i)
        } else {
            seq![lines[i]]
        };
    assert forall|i: int| 0 <= i < lines.len() implies (#[trigger] full(i)).len() <= 1 && (out(i)
        == full(i) || out(i).len() == 0) by {}
    lemma_concat_subsequence(out, full, lines.len());
}

} // verus!
