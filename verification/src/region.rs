//! Removal of the managed region from a text.
//!
//! The region starts at the first line that equals the start marker and
//! reaches to the end marker; lines are compared without their surrounding
//! whitespace. What is left is joined again, runs of blank lines that the
//! removal leaves are collapsed, and trailing whitespace is dropped.

use vstd::prelude::*;
use crate::lines::{line_views, lines, split_lines};
use crate::text::{
    chars_of, is_whitespace, string_of, trim, trim_end, trimmed_eq, trimmed_len,
};

verus! {

/// Whether `line` is the marker line `marker`, surrounding whitespace aside.
pub open spec fn is_marker(line: Seq<char>, marker: Seq<char>) -> bool {
    trim(line) == trim(marker)
}

/// Whether one of the lines up to and including line `upto` is the marker.
pub open spec fn marker_seen(ls: Seq<Seq<char>>, marker: Seq<char>, upto: int) -> bool {
    exists|j: int| 0 <= j <= upto && j < ls.len() && #[trigger] is_marker(ls[j], marker)
}

/// Whether line `i` stays: no start marker has come up to it, or an end
/// marker has come and the line is not itself an end marker.
pub open spec fn keeps_line(ls: Seq<Seq<char>>, start: Seq<char>, end: Seq<char>, i: int) -> bool {
    !marker_seen(ls, start, i) || (marker_seen(ls, end, i) && !is_marker(ls[i], end))
}

/// The lines among the first `n` that stay, each followed by a newline.
pub open spec fn joined(ls: Seq<Seq<char>>, start: Seq<char>, end: Seq<char>, n: nat) -> Seq<char>
    decreases n,
{
    if n == 0 {
        Seq::empty()
    } else {
        let before = joined(ls, start, end, (n - 1) as nat);
        if keeps_line(ls, start, end, n - 1) {
            before + ls[n - 1].push('\n')
        } else {
            before
        }
    }
}

/// Whether the character at `i` is a newline that follows two newlines.
pub open spec fn third_newline(s: Seq<char>, i: int) -> bool {
    i >= 2 && s[i] == '\n' && s[i - 1] == '\n' && s[i - 2] == '\n'
}

/// The first `n` characters of `s` without the newlines that follow two
/// newlines: of each run of newlines the first two stay.
pub open spec fn collapsed_prefix(s: Seq<char>, n: nat) -> Seq<char>
    decreases n,
{
    if n == 0 {
        Seq::empty()
    } else if third_newline(s, n - 1) {
        collapsed_prefix(s, (n - 1) as nat)
    } else {
        collapsed_prefix(s, (n - 1) as nat).push(s[n - 1])
    }
}

/// `s` with every run of blank lines reduced to one blank line.
pub open spec fn collapsed(s: Seq<char>) -> Seq<char> {
    collapsed_prefix(s, s.len())
}

/// The text `text` without its managed region.
pub open spec fn without_region(text: Seq<char>, start: Seq<char>, end: Seq<char>) -> Seq<char> {
    let ls = lines(text);
    trim_end(collapsed(joined(ls, start, end, ls.len())))
}

/// Adds the characters of `src` and a newline to `out`.
fn push_line(out: &mut Vec<char>, src: &Vec<char>)
    ensures
        final(out)@ == old(out)@ + src@.push('\n'),
{
    let mut i: usize = 0;
    assert(out@ =~= old(out)@ + src@.take(0));
    while i < src.len()
        invariant
            i <= src.len(),
            out@ == old(out)@ + src@.take(i as int),
        decreases src.len() - i,
    {
        out.push(src[i]);
        i += 1;
        assert(out@ =~= old(out)@ + src@.take(i as int));
    }
    out.push('\n');
    assert(out@ =~= old(out)@ + src@.push('\n'));
}

/// Joins the lines that stay once the region between the markers is taken
/// out.
pub fn strip_region(ls: &Vec<Vec<char>>, start: &Vec<char>, end: &Vec<char>) -> (out: Vec<char>)
    ensures
        out@ == joined(line_views(ls@), start@, end@, ls@.len()),
{
    let ghost lv = line_views(ls@);
    let mut out: Vec<char> = Vec::new();
    let mut found_start = false;
    let mut found_end = false;
    let mut i: usize = 0;
    while i < ls.len()
        invariant
            i <= ls.len(),
            lv == line_views(ls@),
            found_start == marker_seen(lv, start@, i - 1),
            found_end == marker_seen(lv, end@, i - 1),
            out@ == joined(lv, start@, end@, i as nat),
        decreases ls.len() - i,
    {
        let is_start = trimmed_eq(&ls[i], start);
        let is_end = trimmed_eq(&ls[i], end);
        assert(lv[i as int] == ls@[i as int]@);
        proof {
            if marker_seen(lv, start@, i as int) && !is_start {
                let j = choose|j: int| 0 <= j <= i && j < lv.len() && #[trigger] is_marker(lv[j], start@);
                assert(j <= i - 1);
            }
            if marker_seen(lv, end@, i as int) && !is_end {
                let j = choose|j: int| 0 <= j <= i && j < lv.len() && #[trigger] is_marker(lv[j], end@);
                assert(j <= i - 1);
            }
            if is_start {
                assert(is_marker(lv[i as int], start@));
            }
            if is_end {
                assert(is_marker(lv[i as int], end@));
            }
        }
        found_start = found_start || is_start;
        found_end = found_end || is_end;
        assert(found_start == marker_seen(lv, start@, i as int));
        assert(found_end == marker_seen(lv, end@, i as int));
        if !found_start || (found_end && !is_end) {
            push_line(&mut out, &ls[i]);
        }
        i += 1;
    }
    out
}

/// Reduces every run of three or more newlines to two.
pub fn collapse_blank_runs(v: &Vec<char>) -> (out: Vec<char>)
    ensures
        out@ == collapsed(v@),
{
    let mut out: Vec<char> = Vec::new();
    let mut i: usize = 0;
    while i < v.len()
        invariant
            i <= v.len(),
            out@ == collapsed_prefix(v@, i as nat),
        decreases v.len() - i,
    {
        let third = i >= 2 && v[i] == '\n' && v[i - 1] == '\n' && v[i - 2] == '\n';
        if !third {
            out.push(v[i]);
        }
        i += 1;
    }
    out
}

/// Drops the whitespace at the end of `v`.
pub fn drop_trailing_space(v: Vec<char>) -> (out: Vec<char>)
    ensures
        out@ == trim_end(v@),
{
    let mut out = v;
    assert(out@.take(out.len() as int) == out@);
    while out.len() > 0 && is_whitespace(out[out.len() - 1])
        invariant
            out.len() <= v.len(),
            out@ == v@.take(out.len() as int),
            trimmed_len(v@) == trimmed_len(out@),
        decreases out.len(),
    {
        out.pop();
        assert(out@ == v@.take(out.len() as int));
    }
    out
}

/// Removes the managed region from `text`: the lines from the first line
/// that equals `start_line` up to the line that equals `end_line`, both
/// compared without surrounding whitespace. Runs of blank lines in what is
/// left are reduced to one blank line, and trailing whitespace is dropped.
pub fn remove_lines(text: &str, start_line: &str, end_line: &str) -> (result: String)
    ensures
        result@ == without_region(text@, start_line@, end_line@),
{
    let chars = chars_of(text);
    let start = chars_of(start_line);
    let end = chars_of(end_line);
    let ls = split_lines(&chars);
    let kept = strip_region(&ls, &start, &end);
    let tidy = collapse_blank_runs(&kept);
    let trimmed = drop_trailing_space(tidy);
    string_of(&trimmed)
}

} // verus!
