//! What holds of the removal of the managed region, whatever the text.

use vstd::prelude::*;
use crate::lines::{closed_lines, lines, strip_cr, tail_start};
use crate::region::{
    collapsed, collapsed_prefix, is_marker, joined, keeps_line, marker_seen, third_newline,
    without_region,
};
use crate::session::{blocked, end_marker, start_marker, unblocked};
use crate::text::{is_space, lemma_trimmed_len_bound, trim, trim_end, trimmed_len};

verus! {

/// The lines `ls`, each followed by a newline.
pub open spec fn text_of_lines(ls: Seq<Seq<char>>) -> Seq<char>
    decreases ls.len(),
{
    if ls.len() == 0 {
        Seq::empty()
    } else {
        text_of_lines(ls.drop_last()) + ls.last().push('\n')
    }
}

/// Whether none of the lines `ls` is the marker.
pub open spec fn no_marker(ls: Seq<Seq<char>>, marker: Seq<char>) -> bool {
    forall|i: int| 0 <= i < ls.len() ==> !#[trigger] is_marker(ls[i], marker)
}

/// Whether no newline of `s` has a carriage return before it.
pub open spec fn no_cr_before_newline(s: Seq<char>) -> bool {
    forall|i: int| 0 < i < s.len() && #[trigger] s[i] == '\n' ==> s[i - 1] != '\r'
}

/// Whether `s` holds no three newlines in a row.
pub open spec fn no_blank_run(s: Seq<char>) -> bool {
    forall|i: int| 0 <= i < s.len() ==> !#[trigger] third_newline(s, i)
}

proof fn lemma_keeps_all(ls: Seq<Seq<char>>, start: Seq<char>, end: Seq<char>, n: nat)
    requires
        n <= ls.len(),
        forall|i: int| 0 <= i < n ==> !#[trigger] is_marker(ls[i], start),
    ensures
        joined(ls, start, end, n) == text_of_lines(ls.take(n as int)),
    decreases n,
{
    if n > 0 {
        lemma_keeps_all(ls, start, end, (n - 1) as nat);
        assert(ls.take(n as int).drop_last() == ls.take(n - 1));
        assert(ls.take(n as int).last() == ls[n - 1]);
        assert(!marker_seen(ls, start, n - 1));
        assert(keeps_line(ls, start, end, n - 1));
    } else {
        assert(ls.take(0).len() == 0);
    }
}

proof fn lemma_rejoin_closed(s: Seq<char>)
    requires
        no_cr_before_newline(s),
    ensures
        tail_start(s) <= s.len(),
        text_of_lines(closed_lines(s)) + s.skip(tail_start(s) as int) == s,
        tail_start(s) < s.len() ==> s.last() != '\n',
    decreases s.len(),
{
    if s.len() == 0 {
        assert(text_of_lines(closed_lines(s)) + s.skip(0) =~= s);
    } else {
        let before = s.drop_last();
        assert(no_cr_before_newline(before)) by {
            assert forall|i: int| 0 < i < before.len() && #[trigger] before[i] == '\n' implies before[i
                - 1] != '\r' by {
                assert(s[i] == '\n');
            }
        }
        lemma_rejoin_closed(before);
        let tail = before.skip(tail_start(before) as int);
        let cl = closed_lines(before);
        if s.last() == '\n' {
            if tail.len() > 0 {
                assert(tail.last() == s[s.len() - 2]);
                assert(s[s.len() - 1] == '\n');
            }
            assert(strip_cr(tail) == tail);
            assert(closed_lines(s) == cl.push(tail));
            assert(cl.push(tail).drop_last() == cl);
            assert(text_of_lines(closed_lines(s)) == text_of_lines(cl) + tail.push('\n'));
            assert(text_of_lines(cl) + tail.push('\n') =~= (text_of_lines(cl) + tail).push('\n'));
            assert(before.push('\n') =~= s);
            assert(text_of_lines(closed_lines(s)) + s.skip(s.len() as int) =~= s);
        } else {
            assert(s.skip(tail_start(before) as int) =~= tail.push(s.last()));
            assert(text_of_lines(cl) + tail.push(s.last()) =~= (text_of_lines(cl) + tail).push(
                s.last(),
            ));
            assert(before.push(s.last()) =~= s);
        }
    }
}

/// Splitting a text into lines and joining them again gives the text
/// back, with a newline at its end.
pub proof fn lemma_rejoin(s: Seq<char>)
    requires
        no_cr_before_newline(s),
    ensures
        text_of_lines(lines(s)) == if s.len() == 0 || s.last() == '\n' {
            s
        } else {
            s.push('\n')
        },
{
    lemma_rejoin_closed(s);
    let cl = closed_lines(s);
    let tail = s.skip(tail_start(s) as int);
    if tail_start(s) < s.len() {
        assert(cl.push(tail).drop_last() == cl);
        assert(text_of_lines(cl) + tail.push('\n') =~= (text_of_lines(cl) + tail).push('\n'));
    } else {
        assert(text_of_lines(cl) + tail =~= text_of_lines(cl));
        if s.len() > 0 && s.last() != '\n' {
            lemma_tail_reaches_end(s);
        }
    }
}

proof fn lemma_tail_reaches_end(s: Seq<char>)
    requires
        s.len() > 0,
        s.last() != '\n',
    ensures
        tail_start(s) < s.len(),
{
    crate::lines::lemma_tail_start_bound(s.drop_last());
}

proof fn lemma_collapsed_same(s: Seq<char>, n: nat)
    requires
        n <= s.len(),
        no_blank_run(s),
    ensures
        collapsed_prefix(s, n) == s.take(n as int),
    decreases n,
{
    if n > 0 {
        lemma_collapsed_same(s, (n - 1) as nat);
        assert(!third_newline(s, n - 1));
        assert(s.take(n - 1).push(s[n - 1]) =~= s.take(n as int));
    } else {
        assert(s.take(0) =~= Seq::<char>::empty());
    }
}

proof fn lemma_trim_end_newline(s: Seq<char>)
    ensures
        trim_end(s.push('\n')) == trim_end(s),
{
    assert(s.push('\n').drop_last() == s);
    lemma_trimmed_len_bound(s);
    assert(s.push('\n').take(trimmed_len(s) as int) =~= s.take(trimmed_len(s) as int));
}

/// Of a text of which no line is the start marker every line stays: what
/// comes back is its lines joined, with runs of blank lines reduced and
/// without the whitespace at the end.
pub proof fn law_all_lines_stay(text: Seq<char>, start: Seq<char>, end: Seq<char>)
    requires
        no_marker(lines(text), start),
    ensures
        without_region(text, start, end) == trim_end(collapsed(text_of_lines(lines(text)))),
{
    let ls = lines(text);
    lemma_keeps_all(ls, start, end, ls.len());
    assert(ls.take(ls.len() as int) == ls);
}

/// A text of which no line is the start marker comes back as it was, but
/// for the whitespace at its end: given that no newline of it follows a
/// carriage return and that it holds no three newlines in a row. Where it
/// does not begin with whitespace either, what comes back is the text
/// without its surrounding whitespace.
pub proof fn law_no_start_marker(text: Seq<char>, start: Seq<char>, end: Seq<char>)
    requires
        no_marker(lines(text), start),
        no_cr_before_newline(text),
        no_blank_run(text),
    ensures
        without_region(text, start, end) == trim_end(text),
        (text.len() > 0 ==> !is_space(text[0])) ==> without_region(text, start, end) == trim(text),
{
    let ls = lines(text);
    lemma_keeps_all(ls, start, end, ls.len());
    assert(ls.take(ls.len() as int) == ls);
    lemma_rejoin(text);
    let whole = text_of_lines(ls);
    if text.len() == 0 || text.last() == '\n' {
        lemma_collapsed_same(text, text.len());
        assert(text.take(text.len() as int) == text);
    } else {
        assert(no_blank_run(whole)) by {
            assert forall|i: int| 0 <= i < whole.len() implies !#[trigger] third_newline(whole, i) by {
                if i < text.len() {
                    assert(!third_newline(text, i));
                }
            }
        }
        lemma_collapsed_same(whole, whole.len());
        assert(whole.take(whole.len() as int) == whole);
        lemma_trim_end_newline(text);
    }
    lemma_trimmed_len_bound(text);
    if text.len() > 0 ==> !is_space(text[0]) {
        let t = trim_end(text);
        if t.len() > 0 {
            assert(t[0] == text[0]);
        }
        assert(t.skip(0) == t);
    }
}

/// Whether the lines `ls` hold exactly one region: line `a` is the only
/// start marker, line `b` the only end marker, and `b` comes after `a`.
pub open spec fn one_region(
    ls: Seq<Seq<char>>,
    start: Seq<char>,
    end: Seq<char>,
    a: int,
    b: int,
) -> bool {
    &&& 0 <= a < b < ls.len()
    &&& forall|i: int| 0 <= i < ls.len() ==> (#[trigger] is_marker(ls[i], start) <==> i == a)
    &&& forall|i: int| 0 <= i < ls.len() ==> (#[trigger] is_marker(ls[i], end) <==> i == b)
}

proof fn lemma_region_dropped(
    ls: Seq<Seq<char>>,
    start: Seq<char>,
    end: Seq<char>,
    a: int,
    b: int,
    n: nat,
)
    requires
        one_region(ls, start, end, a, b),
        a <= n <= b + 1,
    ensures
        joined(ls, start, end, n) == text_of_lines(ls.take(a)),
    decreases n,
{
    if n == a {
        lemma_keeps_all(ls, start, end, n);
    } else {
        lemma_region_dropped(ls, start, end, a, b, (n - 1) as nat);
        assert(is_marker(ls[a], start));
        assert(marker_seen(ls, start, n - 1));
        if marker_seen(ls, end, n - 1) {
            let j = choose|j: int| 0 <= j <= n - 1 && j < ls.len() && #[trigger] is_marker(ls[j], end);
            assert(j == b);
        }
        assert(!keeps_line(ls, start, end, n - 1));
    }
}

proof fn lemma_rest_kept(
    ls: Seq<Seq<char>>,
    start: Seq<char>,
    end: Seq<char>,
    a: int,
    b: int,
    n: nat,
)
    requires
        one_region(ls, start, end, a, b),
        b + 1 <= n <= ls.len(),
    ensures
        joined(ls, start, end, n) == text_of_lines(ls.take(a) + ls.subrange(b + 1, n as int)),
    decreases n,
{
    if n == b + 1 {
        lemma_region_dropped(ls, start, end, a, b, n);
        assert(ls.take(a) + ls.subrange(b + 1, n as int) =~= ls.take(a));
    } else {
        lemma_rest_kept(ls, start, end, a, b, (n - 1) as nat);
        assert(is_marker(ls[b], end));
        assert(marker_seen(ls, end, n - 1));
        assert(keeps_line(ls, start, end, n - 1));
        let now = ls.take(a) + ls.subrange(b + 1, n as int);
        assert(now.drop_last() =~= ls.take(a) + ls.subrange(b + 1, n - 1));
        assert(now.last() == ls[n - 1]);
    }
}

/// Of a text with exactly one region, from the start marker in line `a`
/// to the end marker in line `b`, the lines before `a` and the lines after
/// `b` come back: joined, with runs of blank lines reduced and without
/// the whitespace at the end.
pub proof fn law_region_removed(text: Seq<char>, start: Seq<char>, end: Seq<char>, a: int, b: int)
    requires
        one_region(lines(text), start, end, a, b),
    ensures
        without_region(text, start, end) == trim_end(
            collapsed(text_of_lines(lines(text).take(a) + lines(text).skip(b + 1))),
        ),
{
    let ls = lines(text);
    lemma_rest_kept(ls, start, end, a, b, ls.len());
    assert(ls.subrange(b + 1, ls.len() as int) == ls.skip(b + 1));
}

/// Whether `l` holds no newline.
pub open spec fn no_newline(l: Seq<char>) -> bool {
    forall|i: int| 0 <= i < l.len() ==> #[trigger] l[i] != '\n'
}

/// Whether `l` ends in a carriage return.
pub open spec fn ends_in_cr(l: Seq<char>) -> bool {
    l.len() > 0 && l.last() == '\r'
}

/// Whether none of the lines that stay is the start marker or ends in a
/// carriage return.
pub open spec fn stays_clean(ls: Seq<Seq<char>>, start: Seq<char>, end: Seq<char>) -> bool {
    forall|i: int|
        0 <= i < ls.len() && #[trigger] keeps_line(ls, start, end, i) ==> !is_marker(ls[i], start)
            && !ends_in_cr(ls[i])
}

proof fn lemma_closed_lines_hold_no_newline(s: Seq<char>)
    ensures
        tail_start(s) <= s.len(),
        no_newline(s.skip(tail_start(s) as int)),
        forall|i: int| 0 <= i < closed_lines(s).len() ==> no_newline(#[trigger] closed_lines(s)[i]),
    decreases s.len(),
{
    if s.len() > 0 {
        let before = s.drop_last();
        lemma_closed_lines_hold_no_newline(before);
        let tail = before.skip(tail_start(before) as int);
        if s.last() == '\n' {
            assert(no_newline(strip_cr(tail))) by {
                assert forall|i: int| 0 <= i < strip_cr(tail).len() implies #[trigger] strip_cr(
                    tail,
                )[i] != '\n' by {
                    assert(strip_cr(tail)[i] == tail[i]);
                }
            }
            assert forall|i: int| 0 <= i < closed_lines(s).len() implies no_newline(
                #[trigger] closed_lines(s)[i],
            ) by {
                if i < closed_lines(before).len() {
                    assert(closed_lines(s)[i] == closed_lines(before)[i]);
                }
            }
        } else {
            assert(s.skip(tail_start(before) as int) =~= tail.push(s.last()));
        }
    }
}

proof fn lemma_lines_hold_no_newline(s: Seq<char>)
    ensures
        forall|i: int| 0 <= i < lines(s).len() ==> no_newline(#[trigger] lines(s)[i]),
{
    lemma_closed_lines_hold_no_newline(s);
    assert forall|i: int| 0 <= i < lines(s).len() implies no_newline(#[trigger] lines(s)[i]) by {
        if i < closed_lines(s).len() {
            assert(lines(s)[i] == closed_lines(s)[i]);
        }
    }
}

proof fn lemma_append_chars(a: Seq<char>, l: Seq<char>)
    requires
        no_newline(l),
        tail_start(a) == a.len(),
    ensures
        closed_lines(a + l) == closed_lines(a),
        tail_start(a + l) == a.len(),
    decreases l.len(),
{
    if l.len() == 0 {
        assert(a + l =~= a);
    } else {
        assert(no_newline(l.drop_last())) by {
            assert forall|i: int| 0 <= i < l.drop_last().len() implies #[trigger] l.drop_last()[i]
                != '\n' by {
                assert(l[i] != '\n');
            }
        }
        lemma_append_chars(a, l.drop_last());
        assert((a + l).drop_last() =~= a + l.drop_last());
        assert((a + l).last() == l[l.len() - 1]);
    }
}

proof fn lemma_append_line(a: Seq<char>, l: Seq<char>)
    requires
        no_newline(l),
        tail_start(a) == a.len(),
    ensures
        closed_lines(a + l.push('\n')) == closed_lines(a).push(strip_cr(l)),
        tail_start(a + l.push('\n')) == (a + l.push('\n')).len(),
{
    lemma_append_chars(a, l);
    let x = a + l.push('\n');
    assert(x.drop_last() =~= a + l);
    assert(x.last() == '\n');
    assert((a + l).skip(a.len() as int) =~= l);
}

proof fn lemma_joined_clean(ls: Seq<Seq<char>>, start: Seq<char>, end: Seq<char>, n: nat)
    requires
        n <= ls.len(),
        stays_clean(ls, start, end),
        forall|i: int| 0 <= i < ls.len() ==> no_newline(#[trigger] ls[i]),
    ensures
        tail_start(joined(ls, start, end, n)) == joined(ls, start, end, n).len(),
        no_marker(closed_lines(joined(ls, start, end, n)), start),
        no_cr_before_newline(joined(ls, start, end, n)),
    decreases n,
{
    if n > 0 {
        let before = joined(ls, start, end, (n - 1) as nat);
        lemma_joined_clean(ls, start, end, (n - 1) as nat);
        if keeps_line(ls, start, end, n - 1) {
            let l = ls[n - 1];
            let j = before + l.push('\n');
            assert(no_newline(l));
            assert(strip_cr(l) == l);
            lemma_append_line(before, l);
            assert forall|i: int| 0 <= i < closed_lines(j).len() implies !#[trigger] is_marker(
                closed_lines(j)[i],
                start,
            ) by {
                if i < closed_lines(before).len() {
                    assert(closed_lines(j)[i] == closed_lines(before)[i]);
                }
            }
            assert forall|i: int| 0 < i < j.len() && #[trigger] j[i] == '\n' implies j[i - 1]
                != '\r' by {
                if i < before.len() {
                    assert(before[i] == '\n');
                } else if i < before.len() + l.len() {
                    assert(l[i - before.len()] != '\n');
                } else if l.len() > 0 {
                    assert(j[i - 1] == l.last());
                } else {
                    assert(j[i - 1] == before.last());
                    if before.last() != '\n' {
                        crate::lines::lemma_tail_start_bound(before.drop_last());
                    }
                }
            }
        }
    }
}

proof fn lemma_collapsed_shape(s: Seq<char>, n: nat)
    requires
        n <= s.len(),
    ensures
        n == 0 ==> collapsed_prefix(s, n).len() == 0,
        n > 0 ==> collapsed_prefix(s, n).len() > 0 && collapsed_prefix(s, n).last() == s[n - 1],
        ({
            let c = collapsed_prefix(s, n);
            c.len() >= 2 && c[c.len() - 1] == '\n' && c[c.len() - 2] == '\n' ==> n >= 2 && s[n - 1]
                == '\n' && s[n - 2] == '\n'
        }),
        no_blank_run(collapsed_prefix(s, n)),
        no_cr_before_newline(s) ==> no_cr_before_newline(collapsed_prefix(s, n)),
    decreases n,
{
    if n > 0 {
        let c0 = collapsed_prefix(s, (n - 1) as nat);
        let c = collapsed_prefix(s, n);
        lemma_collapsed_shape(s, (n - 1) as nat);
        if !third_newline(s, n - 1) {
            assert(c == c0.push(s[n - 1]));
            assert forall|i: int| 0 <= i < c.len() implies !#[trigger] third_newline(c, i) by {
                if i < c0.len() {
                    assert(!third_newline(c0, i));
                }
            }
            if no_cr_before_newline(s) {
                assert forall|i: int| 0 < i < c.len() && #[trigger] c[i] == '\n' implies c[i - 1]
                    != '\r' by {
                    if i < c0.len() {
                        assert(c0[i] == '\n');
                    } else {
                        assert(s[n - 1] == '\n');
                    }
                }
            }
        }
    }
}

proof fn lemma_collapsed_lines(s: Seq<char>, marker: Seq<char>, n: nat)
    requires
        n <= s.len(),
        no_marker(closed_lines(s.take(n as int)), marker),
    ensures
        collapsed_prefix(s, n).skip(tail_start(collapsed_prefix(s, n)) as int) == s.take(
            n as int,
        ).skip(tail_start(s.take(n as int)) as int),
        no_marker(closed_lines(collapsed_prefix(s, n)), marker),
    decreases n,
{
    let now = s.take(n as int);
    let c = collapsed_prefix(s, n);
    if n > 0 {
        let before = s.take(n - 1);
        let c0 = collapsed_prefix(s, (n - 1) as nat);
        assert(now.drop_last() == before);
        assert(now.last() == s[n - 1]);
        assert(no_marker(closed_lines(before), marker)) by {
            assert forall|i: int| 0 <= i < closed_lines(before).len() implies !#[trigger] is_marker(
                closed_lines(before)[i],
                marker,
            ) by {
                assert(closed_lines(now)[i] == closed_lines(before)[i]);
                assert(!is_marker(closed_lines(now)[i], marker));
            }
        }
        lemma_collapsed_lines(s, marker, (n - 1) as nat);
        lemma_collapsed_shape(s, (n - 1) as nat);
        crate::lines::lemma_tail_start_bound(c0);
        crate::lines::lemma_tail_start_bound(before);
        if third_newline(s, n - 1) {
            assert(c0.last() == '\n');
            assert(c.skip(c.len() as int) =~= now.skip(now.len() as int));
        } else if s[n - 1] == '\n' {
            assert(c.drop_last() == c0);
            let last = closed_lines(now).len() - 1;
            assert(!is_marker(closed_lines(now)[last], marker));
            assert forall|i: int| 0 <= i < closed_lines(c).len() implies !#[trigger] is_marker(
                closed_lines(c)[i],
                marker,
            ) by {
                if i < closed_lines(c0).len() {
                    assert(closed_lines(c)[i] == closed_lines(c0)[i]);
                }
            }
            assert(c.skip(c.len() as int) =~= now.skip(now.len() as int));
        } else {
            assert(c.drop_last() == c0);
            assert(c.skip(tail_start(c0) as int) =~= c0.skip(tail_start(c0) as int).push(s[n - 1]));
            assert(now.skip(tail_start(before) as int) =~= before.skip(
                tail_start(before) as int,
            ).push(s[n - 1]));
        }
    } else {
        assert(c.skip(0) =~= now.skip(0));
    }
}

proof fn lemma_trim_space(x: Seq<char>, c: char)
    requires
        is_space(c),
    ensures
        trim(x.push(c)) == trim(x),
{
    assert(x.push(c).drop_last() == x);
    lemma_trimmed_len_bound(x);
    assert(x.push(c).take(trimmed_len(x) as int) =~= x.take(trimmed_len(x) as int));
}

proof fn lemma_drop_space_lines(x: Seq<char>, marker: Seq<char>)
    requires
        x.len() > 0,
        is_space(x.last()),
        no_marker(lines(x), marker),
    ensures
        no_marker(lines(x.drop_last()), marker),
{
    let y = x.drop_last();
    let c = x.last();
    crate::lines::lemma_tail_start_bound(y);
    let tail = y.skip(tail_start(y) as int);
    let lx = lines(x);
    let closed = closed_lines(y);
    if c == '\n' {
        assert(lx == closed.push(strip_cr(tail)));
        assert(!is_marker(lx[closed.len() as int], marker));
        if strip_cr(tail) != tail {
            assert(tail =~= strip_cr(tail).push('\r'));
            lemma_trim_space(strip_cr(tail), '\r');
        }
        assert forall|i: int| 0 <= i < lines(y).len() implies !#[trigger] is_marker(
            lines(y)[i],
            marker,
        ) by {
            if i < closed.len() {
                assert(lines(y)[i] == lx[i]);
                assert(!is_marker(lx[i], marker));
            }
        }
    } else {
        assert(x.skip(tail_start(y) as int) =~= tail.push(c));
        assert(lx == closed.push(tail.push(c)));
        assert(!is_marker(lx[closed.len() as int], marker));
        lemma_trim_space(tail, c);
        assert forall|i: int| 0 <= i < lines(y).len() implies !#[trigger] is_marker(
            lines(y)[i],
            marker,
        ) by {
            if i < closed.len() {
                assert(lines(y)[i] == lx[i]);
                assert(!is_marker(lx[i], marker));
            }
        }
    }
}

proof fn lemma_trim_end_lines(x: Seq<char>, marker: Seq<char>)
    requires
        no_marker(lines(x), marker),
    ensures
        no_marker(lines(trim_end(x)), marker),
    decreases x.len(),
{
    if x.len() > 0 && is_space(x.last()) {
        let y = x.drop_last();
        lemma_drop_space_lines(x, marker);
        lemma_trim_end_lines(y, marker);
        lemma_trimmed_len_bound(y);
        assert(x.take(trimmed_len(y) as int) =~= y.take(trimmed_len(y) as int));
    } else {
        assert(trim_end(x) =~= x);
    }
}

proof fn lemma_trim_end_twice(x: Seq<char>)
    ensures
        trim_end(trim_end(x)) == trim_end(x),
{
    lemma_trimmed_len_bound(x);
    let r = trim_end(x);
    if r.len() > 0 {
        assert(r.last() == x[trimmed_len(x) - 1]);
    }
    assert(r.take(r.len() as int) =~= r);
}

proof fn lemma_prefix_shape(x: Seq<char>, k: int)
    requires
        0 <= k <= x.len(),
    ensures
        no_blank_run(x) ==> no_blank_run(x.take(k)),
        no_cr_before_newline(x) ==> no_cr_before_newline(x.take(k)),
{
    let p = x.take(k);
    if no_blank_run(x) {
        assert forall|i: int| 0 <= i < p.len() implies !#[trigger] third_newline(p, i) by {
            assert(!third_newline(x, i));
        }
    }
    if no_cr_before_newline(x) {
        assert forall|i: int| 0 < i < p.len() && #[trigger] p[i] == '\n' implies p[i - 1] != '\r' by {
            assert(x[i] == '\n');
        }
    }
}

/// What a removal gives holds no start marker line, no newline after a
/// carriage return, no three newlines in a row and no whitespace at its
/// end, and to remove the region from it changes nothing more: given that
/// none of the lines that the first removal keeps is the start marker or
/// ends in a carriage return.
pub proof fn law_removal_twice(text: Seq<char>, start: Seq<char>, end: Seq<char>)
    requires
        stays_clean(lines(text), start, end),
    ensures
        no_marker(lines(without_region(text, start, end)), start),
        no_cr_before_newline(without_region(text, start, end)),
        no_blank_run(without_region(text, start, end)),
        trim_end(without_region(text, start, end)) == without_region(text, start, end),
        without_region(without_region(text, start, end), start, end) == without_region(
            text,
            start,
            end,
        ),
{
    let ls = lines(text);
    lemma_lines_hold_no_newline(text);
    lemma_joined_clean(ls, start, end, ls.len());
    let j = joined(ls, start, end, ls.len());
    let c = collapsed(j);
    assert(j.take(j.len() as int) == j);
    lemma_collapsed_shape(j, j.len());
    lemma_collapsed_lines(j, start, j.len());
    crate::lines::lemma_tail_start_bound(c);
    assert(c.skip(tail_start(c) as int).len() == 0);
    assert(lines(c) == closed_lines(c));
    lemma_trim_end_lines(c, start);
    lemma_trimmed_len_bound(c);
    lemma_prefix_shape(c, trimmed_len(c) as int);
    law_no_start_marker(trim_end(c), start, end);
    lemma_trim_end_twice(c);
}

/// Of a text with exactly one region, from the start marker in line `a`
/// to the end marker in line `b`, and with no line that ends in a carriage
/// return, the removal leaves no start marker line, and a second removal
/// changes nothing more.
pub proof fn law_one_region_removed_for_good(
    text: Seq<char>,
    start: Seq<char>,
    end: Seq<char>,
    a: int,
    b: int,
)
    requires
        one_region(lines(text), start, end, a, b),
        forall|i: int| 0 <= i < lines(text).len() ==> !ends_in_cr(#[trigger] lines(text)[i]),
    ensures
        no_marker(lines(without_region(text, start, end)), start),
        without_region(without_region(text, start, end), start, end) == without_region(
            text,
            start,
            end,
        ),
{
    let ls = lines(text);
    assert forall|i: int| 0 <= i < ls.len() && #[trigger] keeps_line(ls, start, end, i) implies 
        !is_marker(ls[i], start) && !ends_in_cr(ls[i]) by {
        if i == a {
            assert(is_marker(ls[a], start));
            assert(marker_seen(ls, start, a));
            if marker_seen(ls, end, a) {
                let j = choose|j: int| 0 <= j <= a && j < ls.len() && #[trigger] is_marker(ls[j], end);
                assert(j == b);
            }
        }
    }
    law_removal_twice(text, start, end);
}

/// To lift the block leaves no start marker line in the hosts text, and
/// to lift it once more, as a stop and the timer may both do, changes
/// nothing: given that none of the lines that stay is the start marker or
/// ends in a carriage return.
pub proof fn law_lift_twice(hosts: Seq<char>)
    requires
        stays_clean(lines(hosts), start_marker(), end_marker()),
    ensures
        no_marker(lines(unblocked(hosts)), start_marker()),
        unblocked(unblocked(hosts)) == unblocked(hosts),
{
    law_removal_twice(hosts, start_marker(), end_marker());
}

proof fn lemma_lines_after(p: Seq<char>, r: Seq<char>)
    requires
        tail_start(p) == p.len(),
    ensures
        closed_lines(p + r) == closed_lines(p) + closed_lines(r),
        tail_start(p + r) == p.len() + tail_start(r),
        lines(p + r) == closed_lines(p) + lines(r),
    decreases r.len(),
{
    crate::lines::lemma_tail_start_bound(r);
    if r.len() == 0 {
        assert(p + r =~= p);
        assert(closed_lines(p) + closed_lines(r) =~= closed_lines(p));
    } else {
        let r0 = r.drop_last();
        lemma_lines_after(p, r0);
        assert((p + r).drop_last() =~= p + r0);
        assert((p + r).last() == r.last());
        crate::lines::lemma_tail_start_bound(r0);
        if r.last() == '\n' {
            let x = strip_cr(r0.skip(tail_start(r0) as int));
            assert((p + r0).skip((p.len() + tail_start(r0)) as int) =~= r0.skip(tail_start(r0) as int));
            assert(closed_lines(p) + closed_lines(r0).push(x) =~= (closed_lines(p) + closed_lines(
                r0,
            )).push(x));
        }
    }
    let tail = r.skip(tail_start(r) as int);
    assert((p + r).skip((p.len() + tail_start(r)) as int) =~= tail);
    assert(closed_lines(p) + closed_lines(r).push(tail) =~= (closed_lines(p) + closed_lines(r)).push(
        tail,
    ));
}

proof fn lemma_tail_dropped(ls: Seq<Seq<char>>, start: Seq<char>, end: Seq<char>, a: int, n: nat)
    requires
        0 <= a <= n <= ls.len(),
        a < ls.len(),
        is_marker(ls[a], start),
        forall|j: int| 0 <= j < ls.len() - 1 ==> !#[trigger] is_marker(ls[j], end),
    ensures
        joined(ls, start, end, n) == joined(ls, start, end, a as nat),
    decreases n,
{
    if n > a {
        lemma_tail_dropped(ls, start, end, a, (n - 1) as nat);
        assert(marker_seen(ls, start, n - 1));
        if marker_seen(ls, end, n - 1) {
            let j = choose|j: int| 0 <= j <= n - 1 && j < ls.len() && #[trigger] is_marker(ls[j], end);
            assert(j == ls.len() - 1);
        }
        assert(!keeps_line(ls, start, end, n - 1));
    }
}

proof fn lemma_closed_lines_newline(u: Seq<char>, marker: Seq<char>)
    requires
        no_marker(lines(u), marker),
        trim(marker).len() > 0,
    ensures
        tail_start(u.push('\n')) == u.len() + 1,
        closed_lines(u.push('\n')) == closed_lines(u).push(
            strip_cr(u.skip(tail_start(u) as int)),
        ),
        no_marker(closed_lines(u.push('\n')), marker),
{
    let v = u.push('\n');
    assert(v.drop_last() == u);
    crate::lines::lemma_tail_start_bound(u);
    let tail = u.skip(tail_start(u) as int);
    let cl = closed_lines(u);
    assert(!is_marker(strip_cr(tail), marker)) by {
        if tail.len() > 0 {
            assert(lines(u)[cl.len() as int] == tail);
            assert(!is_marker(lines(u)[cl.len() as int], marker));
            if strip_cr(tail) != tail {
                assert(tail =~= strip_cr(tail).push('\r'));
                lemma_trim_space(strip_cr(tail), '\r');
            }
        } else {
            assert(trim(tail) =~= tail);
        }
    }
    assert forall|i: int| 0 <= i < closed_lines(v).len() implies !#[trigger] is_marker(
        closed_lines(v)[i],
        marker,
    ) by {
        if i < cl.len() {
            assert(closed_lines(v)[i] == lines(u)[i]);
            assert(!is_marker(lines(u)[i], marker));
        }
    }
}

proof fn lemma_markers()
    ensures
        trim(start_marker()) == start_marker(),
        trim(end_marker()) == end_marker(),
        start_marker() != end_marker(),
        start_marker().len() > 0,
        end_marker().len() > 0,
        no_newline(start_marker()),
        no_newline(end_marker()),
        !ends_in_cr(start_marker()),
{
    reveal_strlit("# start block");
    reveal_strlit("# end block");
    let s = start_marker();
    let e = end_marker();
    assert(s.len() == 13 && e.len() == 11);
    assert(s[0] == '#' && s[12] == 'k' && e[0] == '#' && e[10] == 'k');
    assert(!is_space('#') && !is_space('k'));
    assert(trimmed_len(s) == s.len());
    assert(trimmed_len(e) == e.len());
    assert(s.take(s.len() as int) =~= s);
    assert(e.take(e.len() as int) =~= e);
    assert(s.skip(0) =~= s);
    assert(e.skip(0) =~= e);
}

proof fn lemma_region_round_trip(hosts: Seq<char>, urls: Seq<char>)
    requires
        no_marker(lines(hosts), start_marker()),
        no_marker(lines(hosts), end_marker()),
        no_cr_before_newline(hosts),
        no_blank_run(hosts),
        trim_end(hosts) == hosts,
        no_marker(lines(urls), end_marker()),
    ensures
        without_region(
            hosts + "\n\n"@ + start_marker() + "\n"@ + urls + "\n"@ + end_marker(),
            start_marker(),
            end_marker(),
        ) == hosts,
{
    let s = start_marker();
    let e = end_marker();
    lemma_markers();
    reveal_strlit("\n\n");
    reveal_strlit("\n");
    lemma_trimmed_len_bound(hosts);
    let h1 = hosts.push('\n');
    let a = h1.push('\n');
    assert(hosts + "\n\n"@ =~= a);
    let p = a + s.push('\n');
    let u1 = urls.push('\n');
    let r = u1 + e;
    let x = hosts + "\n\n"@ + s + "\n"@ + urls + "\n"@ + e;
    assert(x =~= p + r);

    // The lines up to the blank line before the region.
    lemma_closed_lines_newline(hosts, s);
    lemma_closed_lines_newline(hosts, e);
    assert(a.drop_last() == h1);
    assert(h1.skip(h1.len() as int) =~= Seq::<char>::empty());
    let blank = Seq::<char>::empty();
    assert(closed_lines(a) == closed_lines(h1).push(blank));
    assert(trim(blank) =~= blank);
    assert(no_marker(closed_lines(a), s)) by {
        assert forall|i: int| 0 <= i < closed_lines(a).len() implies !#[trigger] is_marker(
            closed_lines(a)[i],
            s,
        ) by {
            if i < closed_lines(h1).len() {
                assert(!is_marker(closed_lines(h1)[i], s));
            }
        }
    }
    assert(no_marker(closed_lines(a), e)) by {
        assert forall|i: int| 0 <= i < closed_lines(a).len() implies !#[trigger] is_marker(
            closed_lines(a)[i],
            e,
        ) by {
            if i < closed_lines(h1).len() {
                assert(!is_marker(closed_lines(h1)[i], e));
            }
        }
    }
    let n_a = closed_lines(a).len() as int;

    // The start marker line, and the lines after it.
    lemma_append_line(a, s);
    assert(strip_cr(s) == s);
    lemma_closed_lines_newline(urls, e);
    lemma_append_chars(u1, e);
    assert(r.skip(u1.len() as int) =~= e);
    assert(lines(r) == closed_lines(u1).push(e));
    lemma_lines_after(p, r);
    let ls = lines(x);
    assert(ls == closed_lines(a).push(s) + closed_lines(u1).push(e));
    assert(ls[n_a] == s);
    assert(ls.take(n_a) =~= closed_lines(a));
    assert forall|j: int| 0 <= j < ls.len() - 1 implies !#[trigger] is_marker(ls[j], e) by {
        if j < n_a {
            assert(!is_marker(closed_lines(a)[j], e));
        } else if j > n_a {
            assert(ls[j] == closed_lines(u1)[j - n_a - 1]);
            assert(!is_marker(closed_lines(u1)[j - n_a - 1], e));
        }
    }
    assert forall|i: int| 0 <= i < n_a implies !#[trigger] is_marker(ls[i], s) by {
        assert(!is_marker(closed_lines(a)[i], s));
    }
    lemma_tail_dropped(ls, s, e, n_a, ls.len());
    lemma_keeps_all(ls, s, e, n_a as nat);

    // What stays is the hosts text and two newlines.
    assert(no_cr_before_newline(a)) by {
        assert forall|i: int| 0 < i < a.len() && #[trigger] a[i] == '\n' implies a[i - 1] != '\r' by {
            if i < hosts.len() {
                assert(hosts[i] == '\n');
            }
        }
    }
    lemma_rejoin_closed(a);
    assert(a.skip(a.len() as int) =~= Seq::<char>::empty());
    assert(text_of_lines(closed_lines(a)) + Seq::<char>::empty() =~= text_of_lines(closed_lines(a)));
    assert(joined(ls, s, e, ls.len()) == a);
    assert(no_blank_run(a)) by {
        assert forall|i: int| 0 <= i < a.len() implies !#[trigger] third_newline(a, i) by {
            if i < hosts.len() {
                assert(!third_newline(hosts, i));
            }
        }
    }
    lemma_collapsed_same(a, a.len());
    assert(a.take(a.len() as int) == a);
    lemma_trim_end_newline(h1);
    lemma_trim_end_newline(hosts);
}

/// A block that is put in place and lifted again gives the hosts text
/// back as it was: given that the hosts text holds no marker line, no
/// newline after a carriage return, no three newlines in a row and no
/// whitespace at its end, and that no line of the deny list is the end
/// marker.
pub proof fn law_block_and_lift(hosts: Seq<char>, urls: Seq<char>)
    requires
        no_marker(lines(hosts), start_marker()),
        no_marker(lines(hosts), end_marker()),
        no_cr_before_newline(hosts),
        no_blank_run(hosts),
        trim_end(hosts) == hosts,
        no_marker(lines(urls), end_marker()),
    ensures
        unblocked(blocked(hosts, urls)) == hosts,
{
    law_no_start_marker(hosts, start_marker(), end_marker());
    lemma_region_round_trip(hosts, urls);
}

/// A block that is put in place over a region that was left behind, and
/// lifted again, gives the hosts text without that region: given that none
/// of the lines that stay is the start marker or ends in a carriage
/// return, and that neither what stays nor the deny list holds an end
/// marker line.
pub proof fn law_block_over_stale_region(hosts: Seq<char>, urls: Seq<char>)
    requires
        stays_clean(lines(hosts), start_marker(), end_marker()),
        no_marker(lines(unblocked(hosts)), end_marker()),
        no_marker(lines(urls), end_marker()),
    ensures
        unblocked(blocked(hosts, urls)) == unblocked(hosts),
{
    law_removal_twice(hosts, start_marker(), end_marker());
    lemma_region_round_trip(unblocked(hosts), urls);
}

} // verus!
