//! Splitting a text into lines.
//!
//! A line ends at a newline; a carriage return directly before that
//! newline belongs to the line ending. What follows the last newline is a
//! line of its own unless it is empty.

use vstd::prelude::*;

verus! {

/// The index just past the last newline of `s`, or 0 where `s` holds none.
pub open spec fn tail_start(s: Seq<char>) -> nat
    decreases s.len(),
{
    if s.len() == 0 {
        0
    } else if s.last() == '\n' {
        s.len()
    } else {
        tail_start(s.drop_last())
    }
}

/// `line` without the carriage return at its end, if it has one.
pub open spec fn strip_cr(line: Seq<char>) -> Seq<char> {
    if line.len() > 0 && line.last() == '\r' {
        line.drop_last()
    } else {
        line
    }
}

/// The lines of `s` that a newline ends, without their line endings.
pub open spec fn closed_lines(s: Seq<char>) -> Seq<Seq<char>>
    decreases s.len(),
{
    if s.len() == 0 {
        Seq::empty()
    } else if s.last() == '\n' {
        let before = s.drop_last();
        closed_lines(before).push(strip_cr(before.skip(tail_start(before) as int)))
    } else {
        closed_lines(s.drop_last())
    }
}

/// The lines of `s`: those that a newline ends, then what follows the last
/// newline where that is not empty.
pub open spec fn lines(s: Seq<char>) -> Seq<Seq<char>> {
    if tail_start(s) < s.len() {
        closed_lines(s).push(s.skip(tail_start(s) as int))
    } else {
        closed_lines(s)
    }
}

/// The contents of a vector of lines.
pub open spec fn line_views(ls: Seq<Vec<char>>) -> Seq<Seq<char>> {
    Seq::new(ls.len(), |i: int| ls[i]@)
}

pub proof fn lemma_tail_start_bound(s: Seq<char>)
    ensures
        tail_start(s) <= s.len(),
    decreases s.len(),
{
    if s.len() > 0 && s.last() != '\n' {
        lemma_tail_start_bound(s.drop_last());
    }
}

/// Splits `v` into its lines.
pub fn split_lines(v: &Vec<char>) -> (out: Vec<Vec<char>>)
    ensures
        line_views(out@) == lines(v@),
{
    let mut out: Vec<Vec<char>> = Vec::new();
    let mut cur: Vec<char> = Vec::new();
    let mut i: usize = 0;
    assert(line_views(out@) =~= closed_lines(v@.take(0)));
    assert(cur@ =~= v@.take(0).skip(0));
    while i < v.len()
        invariant
            i <= v.len(),
            tail_start(v@.take(i as int)) <= i,
            line_views(out@) == closed_lines(v@.take(i as int)),
            cur@ == v@.take(i as int).skip(tail_start(v@.take(i as int)) as int),
        decreases v.len() - i,
    {
        let c: char = v[i];
        let ghost before = v@.take(i as int);
        let ghost now = v@.take(i + 1);
        assert(now.drop_last() == before);
        assert(now.last() == c);
        if c == '\n' {
            if cur.len() > 0 && cur[cur.len() - 1] == '\r' {
                cur.pop();
            }
            assert(cur@ == strip_cr(before.skip(tail_start(before) as int)));
            let ghost lines_before = line_views(out@);
            out.push(cur);
            cur = Vec::new();
            assert(line_views(out@) =~= lines_before.push(out@.last()@));
            assert(cur@ =~= now.skip(i + 1));
        } else {
            cur.push(c);
            assert(cur@ =~= now.skip(tail_start(before) as int));
        }
        i += 1;
    }
    assert(v@.take(v.len() as int) == v@);
    if cur.len() > 0 {
        let ghost lines_before = line_views(out@);
        out.push(cur);
        assert(line_views(out@) =~= lines_before.push(out@.last()@));
    }
    out
}

} // verus!
