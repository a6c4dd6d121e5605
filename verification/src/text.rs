//! Characters, whitespace and the conversions between strings and
//! character vectors that the rest of the library works on.

use vstd::prelude::*;

verus! {

/// Whether `c` has the Unicode property `White_Space`.
pub open spec fn is_space(c: char) -> bool {
    let n = c as u32;
    ||| 0x09 <= n <= 0x0D
    ||| n == 0x20
    ||| n == 0x85
    ||| n == 0xA0
    ||| n == 0x1680
    ||| 0x2000 <= n <= 0x200A
    ||| n == 0x2028
    ||| n == 0x2029
    ||| n == 0x202F
    ||| n == 0x205F
    ||| n == 0x3000
}

/// Length of `s` without its trailing whitespace.
pub open spec fn trimmed_len(s: Seq<char>) -> nat
    decreases s.len(),
{
    if s.len() > 0 && is_space(s.last()) {
        trimmed_len(s.drop_last())
    } else {
        s.len()
    }
}

/// `s` without its trailing whitespace.
pub open spec fn trim_end(s: Seq<char>) -> Seq<char> {
    s.take(trimmed_len(s) as int)
}

/// Number of whitespace characters that `s` starts with.
pub open spec fn leading_spaces(s: Seq<char>) -> nat
    decreases s.len(),
{
    if s.len() > 0 && is_space(s[0]) {
        1 + leading_spaces(s.drop_first())
    } else {
        0
    }
}

/// `s` without its leading whitespace.
pub open spec fn trim_start(s: Seq<char>) -> Seq<char> {
    s.skip(leading_spaces(s) as int)
}

/// `s` without leading and trailing whitespace.
pub open spec fn trim(s: Seq<char>) -> Seq<char> {
    trim_start(trim_end(s))
}

pub proof fn lemma_trimmed_len_bound(s: Seq<char>)
    ensures
        trimmed_len(s) <= s.len(),
        trimmed_len(s) > 0 ==> !is_space(s[trimmed_len(s) - 1]),
        forall|i: int| trimmed_len(s) <= i < s.len() ==> is_space(#[trigger] s[i]),
    decreases s.len(),
{
    if s.len() > 0 && is_space(s.last()) {
        let t = s.drop_last();
        lemma_trimmed_len_bound(t);
        assert forall|i: int| trimmed_len(s) <= i < s.len() implies is_space(#[trigger] s[i]) by {
            if i < t.len() {
                assert(s[i] == t[i]);
            }
        }
    }
}

/// The whitespace test on one character.
pub fn is_whitespace(c: char) -> (r: bool)
    ensures
        r == is_space(c),
{
    let n: u32 = c as u32;
    (0x09 <= n && n <= 0x0D) || n == 0x20 || n == 0x85 || n == 0xA0 || n == 0x1680 || (0x2000 <= n
        && n <= 0x200A) || n == 0x2028 || n == 0x2029 || n == 0x202F || n == 0x205F || n == 0x3000
}

/// The characters of `s`, in order.
pub fn chars_of(s: &str) -> (v: Vec<char>)
    ensures
        v@ == s@,
{
    let mut v: Vec<char> = Vec::new();
    for c in it: s.chars()
        invariant
            it.seq() == s@,
            v@ == it.seq().take(it.index() as int),
    {
        v.push(c);
    }
    v
}

/// Wraps `String::push`: the character is added at the end of the string,
/// and the characters before it stay as they were.
#[verifier::external_body]
fn push_char(s: &mut String, c: char)
    ensures
        final(s)@ == old(s)@.push(c),
{
    s.push(c);
}

/// The string made of the characters of `v`, in order.
pub fn string_of(v: &Vec<char>) -> (s: String)
    ensures
        s@ == v@,
{
    let mut s = String::new();
    let mut i: usize = 0;
    while i < v.len()
        invariant
            i <= v.len(),
            s@ == v@.take(i as int),
        decreases v.len() - i,
    {
        push_char(&mut s, v[i]);
        i += 1;
        assert(v@.take(i as int) == v@.take(i - 1).push(v@[i - 1]));
    }
    assert(v@.take(v.len() as int) == v@);
    s
}

/// The bounds of `v` without its leading and trailing whitespace.
pub fn trim_bounds(v: &Vec<char>) -> (r: (usize, usize))
    ensures
        r.0 <= r.1 <= v.len(),
        r.1 == trimmed_len(v@),
        trim(v@) == v@.subrange(r.0 as int, r.1 as int),
{
    let mut hi: usize = v.len();
    assert(v@.take(v.len() as int) == v@);
    while hi > 0 && is_whitespace(v[hi - 1])
        invariant
            hi <= v.len(),
            trimmed_len(v@) == trimmed_len(v@.take(hi as int)),
        decreases hi,
    {
        assert(v@.take(hi as int).drop_last() == v@.take(hi - 1));
        hi -= 1;
    }
    let ghost kept = v@.take(hi as int);
    assert(kept.skip(0) == kept);
    let mut lo: usize = 0;
    while lo < hi && is_whitespace(v[lo])
        invariant
            lo <= hi <= v.len(),
            kept == v@.take(hi as int),
            leading_spaces(kept) == lo + leading_spaces(kept.skip(lo as int)),
        decreases hi - lo,
    {
        assert(kept.skip(lo as int).drop_first() == kept.skip(lo + 1));
        lo += 1;
    }
    proof {
        assert(kept.skip(lo as int) == v@.subrange(lo as int, hi as int));
    }
    (lo, hi)
}

/// Whether `a` and `b` are equal once their surrounding whitespace is
/// taken away.
pub fn trimmed_eq(a: &Vec<char>, b: &Vec<char>) -> (r: bool)
    ensures
        r == (trim(a@) == trim(b@)),
{
    let (alo, ahi) = trim_bounds(a);
    let (blo, bhi) = trim_bounds(b);
    if ahi - alo != bhi - blo {
        assert(trim(a@).len() != trim(b@).len());
        return false;
    }
    let n: usize = ahi - alo;
    let mut i: usize = 0;
    while i < n
        invariant
            i <= n,
            n == ahi - alo,
            n == bhi - blo,
            ahi <= a.len(),
            bhi <= b.len(),
            trim(a@) == a@.subrange(alo as int, ahi as int),
            trim(b@) == b@.subrange(blo as int, bhi as int),
            forall|j: int| 0 <= j < i ==> #[trigger] trim(a@)[j] == trim(b@)[j],
        decreases n - i,
    {
        if a[alo + i] != b[blo + i] {
            assert(trim(a@)[i as int] != trim(b@)[i as int]);
            return false;
        }
        i += 1;
    }
    assert(trim(a@) =~= trim(b@));
    true
}

} // verus!
