//! Git ls-files filter - truncates large file listings for repos with many
//! tracked files.

use vstd::prelude::*;

use crate::pattern::FilterError;
use crate::text::{
    decimal, decimal_string, join_lines, join_with_newlines, lemma_decimal_no_line_feed,
    lemma_lines_hold_no_line_feed, lemma_split_join_count, lines_of, no_line_feed, split_lines,
};

verus! {

/// Listings of at most this many files pass through unchanged.
pub const SMALL_LISTING: usize = 1000;

/// How many files a truncated listing shows.
pub const SHOWN_FILES: usize = 50;

/// `[<n> more files]`
pub open spec fn more_files_line(n: nat) -> Seq<char> {
    seq!['['] + decimal(n) + " more files]"@
}

/// `Total: <n> files`
pub open spec fn total_line(n: nat) -> Seq<char> {
    "Total: "@ + decimal(n) + " files"@
}

/// The filtered listing: a listing of at most `SMALL_LISTING` lines is
/// returned as it is; a longer one is cut to its first `SHOWN_FILES` lines,
/// followed by the number of files left out and the total.
pub open spec fn listing(input: Seq<char>) -> Seq<char> {
    let lines = split_lines(input);
    if lines.len() <= SMALL_LISTING {
        input
    } else {
        join_lines(
            lines.take(SHOWN_FILES as int).push(
                more_files_line((lines.len() - SHOWN_FILES) as nat),
            ).push(total_line(lines.len())),
        )
    }
}

fn more_files(n: usize) -> (r: String)
    ensures
        r@ == more_files_line(n as nat),
{
    let mut r = String::new();
    r.append("[");
    r.append(decimal_string(n).as_str());
    r.append(" more files]");
    proof {
        reveal_strlit("[");
    }
    assert(r@ =~= more_files_line(n as nat));
    r
}

fn total(n: usize) -> (r: String)
    ensures
        r@ == total_line(n as nat),
{
    let mut r = String::new();
    r.append("Total: ");
    r.append(decimal_string(n).as_str());
    r.append(" files");
    assert(r@ =~= total_line(n as nat));
    r
}

/// Truncates a `git ls-files` listing; small listings pass through unchanged.
pub fn filter_git_ls_files(input: &str) -> (r: Result<String, FilterError>)
    ensures
        r is Ok,
        r matches Ok(out) ==> out@ == listing(input@),
{
    let lines = lines_of(input);
    let line_count = lines.len();

    // For small repos, pass through unchanged
    if line_count <= SMALL_LISTING {
        return Ok(input.to_string());
    }

    // For large repos, show first 50 files + count of remaining
    let shown = SHOWN_FILES;
    let mut output_lines: Vec<String> = Vec::new();
    for i in 0..shown
        invariant
            line_count == lines@.len(),
            shown < line_count,
            output_lines.deep_view() == lines.deep_view().take(i as int),
    {
        let line = lines[i].clone();
        assert(line@ == lines.deep_view()[i as int]);
        let ghost before = output_lines.deep_view();
        output_lines.push(line);
        assert(output_lines.deep_view() =~= before.push(line@));
        assert(output_lines.deep_view() =~= lines.deep_view().take(i as int + 1));
    }

    let remaining = line_count - shown;
    output_lines.push(more_files(remaining));
    output_lines.push(total(line_count));
    let ghost expected = lines.deep_view().take(SHOWN_FILES as int).push(
        more_files_line(remaining as nat),
    ).push(total_line(line_count as nat));
    assert(output_lines.deep_view() =~= expected);
    Ok(join_with_newlines(&output_lines))
}

/// A listing of at most `SMALL_LISTING` lines passes through unchanged.
pub proof fn lemma_small_listing_unchanged(input: Seq<char>)
    requires
        split_lines(input).len() <= SMALL_LISTING,
    ensures
        listing(input) == input,
{
}

/// The lines of a truncated listing: the shown files, then the two summary
/// lines.
pub open spec fn truncated_lines(lines: Seq<Seq<char>>) -> Seq<Seq<char>> {
    lines.take(SHOWN_FILES as int).push(more_files_line((lines.len() - SHOWN_FILES) as nat)).push(
        total_line(lines.len()),
    )
}

proof fn lemma_truncated_lines_hold_no_line_feed(input: Seq<char>)
    requires
        split_lines(input).len() > SMALL_LISTING,
    ensures
        forall|i: int|
            0 <= i < truncated_lines(split_lines(input)).len() ==> no_line_feed(
                #[trigger] truncated_lines(split_lines(input))[i],
            ),
{
    let lines = split_lines(input);
    let out = truncated_lines(lines);
    lemma_lines_hold_no_line_feed(input);
    let remaining = (lines.len() - SHOWN_FILES) as nat;
    lemma_decimal_no_line_feed(remaining);
    lemma_decimal_no_line_feed(lines.len());
    reveal_strlit(" more files]");
    reveal_strlit("Total: ");
    reveal_strlit(" files");
    assert(no_line_feed(more_files_line(remaining)));
    assert(no_line_feed(total_line(lines.len())));
    assert forall|i: int| 0 <= i < out.len() implies no_line_feed(#[trigger] out[i]) by {
        if i < SHOWN_FILES {
            assert(out[i] == lines[i]);
        }
    }
}

/// A truncated listing reads as `SHOWN_FILES` lines of files followed by the
/// two summary lines.
pub proof fn lemma_truncated_listing_line_count(input: Seq<char>)
    requires
        split_lines(input).len() > SMALL_LISTING,
    ensures
        split_lines(listing(input)).len() == SHOWN_FILES + 2,
{
    let lines = split_lines(input);
    lemma_truncated_lines_hold_no_line_feed(input);
    reveal_strlit("Total: ");
    lemma_split_join_count(truncated_lines(lines));
}

/// Filtering a filtered listing changes nothing.
pub proof fn lemma_listing_idempotent(input: Seq<char>)
    ensures
        listing(listing(input)) == listing(input),
{
    if split_lines(input).len() > SMALL_LISTING {
        lemma_truncated_listing_line_count(input);
    }
}

} // verus!
