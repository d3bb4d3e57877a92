//! Mix run filter - handles `mix run` script execution output.

use vstd::prelude::*;

use crate::pattern::{regex_compiles, regex_finds, FilterError, Pattern};
use crate::text::{
    blank_line_output, concat_outputs, is_blank, lemma_concat_all, lemma_concat_len,
    lemma_concat_shows, condensed_lines, is_subsequence, lemma_concat_subsequence, join_lines, join_with_newlines, lines_of, split_lines,
    str_is_blank, trim, trimmed,
};

verus! {

/// Mix setup and compilation output.
pub const MIX_SETUP: &'static str = r"(?i)^(Resolving|Compiling|Generated|Loading|Starting)";

/// Error lines.
pub const ERROR: &'static str = r"(?i)(error|Error|failed|Failed|fatal)";

/// The arguments handed to `mix run`.
#[derive(Clone, Debug)]
pub struct MixRunArgs {
    pub args: Vec<String>,
}

impl MixRunArgs {
    /// The command line passed to `mix`: `run` followed by the arguments.
    pub fn to_cmd_args(&self) -> (r: Vec<String>)
        ensures
            r.deep_view() == seq!["run"@] + self.args.deep_view(),
    {
        let mut cmd: Vec<String> = Vec::new();
        cmd.push("run".to_string());
        let mut rest = self.args.clone();
        cmd.append(&mut rest);
        assert(cmd.deep_view() =~= seq!["run"@] + self.args.deep_view());
        cmd
    }
}

/// Whether every pattern of this filter compiles.
pub open spec fn patterns_compile() -> bool {
    &&& regex_compiles(MIX_SETUP@)
    &&& regex_compiles(ERROR@)
}

/// What the patterns say of one line.
#[derive(Clone, Copy, Debug)]
pub struct MixRunMarks {
    /// The trimmed line is mix setup output (`MIX_SETUP`).
    pub setup: bool,
    /// The line reports an error (`ERROR`).
    pub error: bool,
}

/// The marks the patterns give `lines`.
pub open spec fn marks_of(lines: Seq<Seq<char>>) -> Seq<MixRunMarks> {
    Seq::new(
        lines.len(),
        |i: int|
            MixRunMarks {
                setup: regex_finds(MIX_SETUP@, trim(lines[i])),
                error: regex_finds(ERROR@, lines[i]),
            },
    )
}

/// Whether the script has not yet started printing before line `n`: every
/// non-blank line before it is setup output.
pub open spec fn in_setup(lines: Seq<Seq<char>>, marks: Seq<MixRunMarks>, n: int) -> bool {
    forall|j: int| 0 <= j < n && !is_blank(#[trigger] lines[j]) ==> marks[j].setup
}

/// What input line `i` contributes to the output: a run of blank lines
/// becomes one empty line, the setup lines before the script's first line of
/// output are dropped, and every later line is kept.
pub open spec fn line_output(lines: Seq<Seq<char>>, marks: Seq<MixRunMarks>, i: int) -> Seq<
    Seq<char>,
> {
    if is_blank(lines[i]) {
        blank_line_output(lines, i)
    } else if in_setup(lines, marks, i + 1) {
        seq![]
    } else {
        seq![lines[i]]
    }
}

/// The output lines for the first `n` input lines.
pub open spec fn kept_lines(lines: Seq<Seq<char>>, marks: Seq<MixRunMarks>, n: nat) -> Seq<
    Seq<char>,
> {
    concat_outputs(|i: int| line_output(lines, marks, i), n)
}

/// The filtered output for `input`.
pub open spec fn filtered(input: Seq<char>) -> Seq<char> {
    let lines = split_lines(input);
    join_lines(kept_lines(lines, marks_of(lines), lines.len()))
}

/// Condenses `lines` given what the patterns say of each of them.
pub fn condense_mix_run(lines: &Vec<String>, marks: &Vec<MixRunMarks>) -> (out: Vec<String>)
    requires
        marks@.len() == lines@.len(),
    ensures
        out.deep_view() == kept_lines(lines.deep_view(), marks@, lines.len() as nat),
{
    let ghost ls = lines.deep_view();
    let ghost ms = marks@;
    let mut out: Vec<String> = Vec::new();
    let mut in_setup_phase = true;
    let mut blank_count: usize = 0;
    let n = lines.len();
    for i in 0..n
        invariant
            n == lines@.len() == marks@.len(),
            ls == lines.deep_view(),
            ms == marks@,
            out.deep_view() == kept_lines(ls, ms, i as nat),
            in_setup_phase == in_setup(ls, ms, i as int),
            blank_count <= i,
            (blank_count > 0) == (i > 0 && is_blank(ls[i - 1])),
    {
        let line = lines[i].as_str();
        let mark = marks[i];
        let ghost before = out.deep_view();
        assert(ls[i as int] == line@);
        // Track blank lines
        if str_is_blank(line) {
            blank_count = blank_count + 1;
            if blank_count <= 1 {
                out.push(String::new());
            }
            assert(in_setup(ls, ms, i as int + 1) == in_setup(ls, ms, i as int)) by {
                if in_setup(ls, ms, i as int) {
                    assert forall|j: int|
                        0 <= j < i + 1 && !is_blank(#[trigger] ls[j]) implies ms[j].setup by {
                        if j < i {
                        }
                    }
                }
            }
        } else {
            blank_count = 0;
            // Check if we're still in setup phase
            if in_setup_phase && mark.setup {
                assert(in_setup(ls, ms, i as int + 1)) by {
                    assert forall|j: int|
                        0 <= j < i + 1 && !is_blank(#[trigger] ls[j]) implies ms[j].setup by {
                        if j < i {
                        }
                    }
                }
            } else {
                assert(!in_setup(ls, ms, i as int + 1)) by {
                    if !in_setup(ls, ms, i as int) {
                        let j = choose|j: int|
                            0 <= j < i && !is_blank(#[trigger] ls[j]) && !ms[j].setup;
                        assert(0 <= j < i + 1 && !is_blank(ls[j]));
                    } else {
                        assert(!is_blank(ls[i as int]));
                    }
                }
                if in_setup_phase {
                    in_setup_phase = false;
                }
                if mark.error {
                    // Preserve error lines
                    out.push(line.to_string());
                } else if !in_setup_phase {
                    // After setup, preserve everything (it's script output)
                    out.push(line.to_string());
                }
            }
        }
        assert(out.deep_view() =~= before + line_output(ls, ms, i as int));
    }
    out
}

fn mark_lines(lines: &Vec<String>, mix_setup: &Pattern, error: &Pattern) -> (marks: Vec<
    MixRunMarks,
>)
    requires
        mix_setup@ == MIX_SETUP@,
        error@ == ERROR@,
    ensures
        marks@ == marks_of(lines.deep_view()),
{
    let mut marks: Vec<MixRunMarks> = Vec::new();
    let n = lines.len();
    for i in 0..n
        invariant
            n == lines@.len(),
            mix_setup@ == MIX_SETUP@,
            error@ == ERROR@,
            marks@ == marks_of(lines.deep_view()).take(i as int),
    {
        let line = lines[i].as_str();
        let trimmed_line = trimmed(line);
        marks.push(
            MixRunMarks {
                setup: mix_setup.is_match(trimmed_line.as_str()),
                error: error.is_match(line),
            },
        );
        assert(marks@ =~= marks_of(lines.deep_view()).take(i as int + 1));
    }
    assert(marks_of(lines.deep_view()).take(n as int) =~= marks_of(lines.deep_view()));
    marks
}

/// Condenses `mix run` output: setup lines before the script's own output
/// are dropped, runs of blank lines become one empty line, and everything
/// else is kept.
pub fn filter_mix_run(input: &str) -> (r: Result<String, FilterError>)
    ensures
        r is Ok <==> patterns_compile(),
        r matches Ok(out) ==> out@ == filtered(input@),
{
    let mix_setup = match Pattern::compile(MIX_SETUP) {
        Some(p) => p,
        None => return Err(FilterError::InvalidPattern),
    };
    let error = match Pattern::compile(ERROR) {
        Some(p) => p,
        None => return Err(FilterError::InvalidPattern),
    };
    let lines = lines_of(input);
    let marks = mark_lines(&lines, &mix_setup, &error);
    let out = condense_mix_run(&lines, &marks);
    Ok(join_with_newlines(&out))
}

/// The filter only drops and condenses: there are no more output lines than
/// input lines, and every output line is empty or a non-blank input line
/// from the script's own output.
pub proof fn lemma_output_from_input(lines: Seq<Seq<char>>, marks: Seq<MixRunMarks>)
    requires
        marks.len() == lines.len(),
    ensures
        kept_lines(lines, marks, lines.len()).len() <= lines.len(),
        forall|k: int|
            0 <= k < kept_lines(lines, marks, lines.len()).len() ==> {
                let l = #[trigger] kept_lines(lines, marks, lines.len())[k];
                l.len() == 0 || exists|i: int|
                    0 <= i < lines.len() && l == #[trigger] lines[i] && !is_blank(lines[i])
                        && !in_setup(lines, marks, i + 1)
            },
{
    let out = |i: int| line_output(lines, marks, i);
    let from_input = |l: Seq<char>|
        l.len() == 0 || exists|i: int|
            0 <= i < lines.len() && l == #[trigger] lines[i] && !is_blank(lines[i])
                && !in_setup(lines, marks, i + 1);
    assert forall|i: int| 0 <= i < lines.len() implies (#[trigger] out(i)).len() <= 1 by {}
    lemma_concat_len(out, lines.len());
    assert forall|i: int, j: int|
        0 <= i < lines.len() && 0 <= j < out(i).len() implies from_input(#[trigger] out(i)[j]) by {
        if !is_blank(lines[i]) && !in_setup(lines, marks, i + 1) {
            assert(out(i)[j] == lines[i]);
        }
    }
    lemma_concat_all(out, lines.len(), from_input);
}

/// Once the script's output has started, every later non-blank line is
/// kept: errors among them.
pub proof fn lemma_keeps_script_output(lines: Seq<Seq<char>>, marks: Seq<MixRunMarks>, i: int)
    requires
        marks.len() == lines.len(),
        0 <= i < lines.len(),
        !is_blank(lines[i]),
        !in_setup(lines, marks, i + 1),
    ensures
        exists|k: int|
            0 <= k < kept_lines(lines, marks, lines.len()).len() && #[trigger] kept_lines(
                lines,
                marks,
                lines.len(),
            )[k] == lines[i],
{
    let out = |i: int| line_output(lines, marks, i);
    assert(out(i) == seq![lines[i]]);
    lemma_concat_shows(out, i, 0, lines.len());
    let all = concat_outputs(out, lines.len());
    let k = choose|k: int| 0 <= k < all.len() && #[trigger] all[k] == out(i)[0];
    assert(kept_lines(lines, marks, lines.len()) == all);
    assert(kept_lines(lines, marks, lines.len())[k] == lines[i]);
}

/// The setup phase only ends: once a non-blank line that is no setup line
/// has been seen, every later line is past it too.
pub proof fn lemma_setup_phase_ends_once(
    lines: Seq<Seq<char>>,
    marks: Seq<MixRunMarks>,
    m: int,
    n: int,
)
    requires
        m <= n,
        !in_setup(lines, marks, m),
    ensures
        !in_setup(lines, marks, n),
{
}


/// Lines are only dropped, never altered or reordered: the output is the
/// input with runs of blank lines condensed and some lines left out.
pub proof fn lemma_output_is_subsequence(lines: Seq<Seq<char>>, marks: Seq<MixRunMarks>)
    requires
        marks.len() == lines.len(),
    ensures
        is_subsequence(kept_lines(lines, marks, lines.len()), condensed_lines(lines, lines.len())),
{
    let out = |i: int| line_output(lines, marks, i);
    let full = |i: int|
        if is_blank(lines[i]) {
            blank_line_output(lines, i)
        } else {
            seq![lines[i]]
        };
    assert forall|i: int| 0 <= i < lines.len() implies (#[trigger] full(i)).len() <= 1 && (out(i)
        == full(i) || out(i).len() == 0) by {}
    lemma_concat_subsequence(out, full, lines.len());
}

} // verus!
