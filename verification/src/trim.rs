//! Trimming: a text without the whitespace at its two ends.

use vstd::prelude::*;
use crate::chars::{is_whitespace, white_space};

verus! {

/// `s` without its leading whitespace.
pub open spec fn trim_start(s: Seq<char>) -> Seq<char>
    decreases s.len(),
{
    if s.len() > 0 && white_space(s.first()) {
        trim_start(s.drop_first())
    } else {
        s
    }
}

/// `s` without its trailing whitespace.
pub open spec fn trim_end(s: Seq<char>) -> Seq<char>
    decreases s.len(),
{
    if s.len() > 0 && white_space(s.last()) {
        trim_end(s.drop_last())
    } else {
        s
    }
}

/// `s` without its leading and trailing whitespace.
pub open spec fn trim(s: Seq<char>) -> Seq<char> {
    trim_end(trim_start(s))
}

/// Whether `s` neither begins nor ends with whitespace.
pub open spec fn is_trimmed(s: Seq<char>) -> bool {
    s.len() > 0 ==> !white_space(s.first()) && !white_space(s.last())
}

/// Whether every character of `s` is whitespace.
pub open spec fn is_blank(s: Seq<char>) -> bool {
    forall|i: int| 0 <= i < s.len() ==> white_space(#[trigger] s[i])
}

/// Leading whitespace does not show in what `trim_start` returns.
pub proof fn lemma_trim_start_skips(blank: Seq<char>, s: Seq<char>)
    requires
        is_blank(blank),
    ensures
        trim_start(blank + s) == trim_start(s),
    decreases blank.len(),
{
    if blank.len() == 0 {
        assert(blank + s =~= s);
    } else {
        assert((blank + s).first() == blank[0]);
        assert((blank + s).drop_first() =~= blank.drop_first() + s);
        lemma_trim_start_skips(blank.drop_first(), s);
    }
}

/// Trailing whitespace does not show in what `trim_end` returns.
pub proof fn lemma_trim_end_skips(s: Seq<char>, blank: Seq<char>)
    requires
        is_blank(blank),
    ensures
        trim_end(s + blank) == trim_end(s),
    decreases blank.len(),
{
    if blank.len() == 0 {
        assert(s + blank =~= s);
    } else {
        assert((s + blank).last() == blank.last());
        assert((s + blank).drop_last() =~= s + blank.drop_last());
        lemma_trim_end_skips(s, blank.drop_last());
    }
}

/// Trimming removes whatever whitespace stands around a trimmed text, and
/// nothing else.
pub proof fn lemma_trim_padded(before: Seq<char>, s: Seq<char>, after: Seq<char>)
    requires
        is_blank(before),
        is_blank(after),
        is_trimmed(s),
    ensures
        trim(before + s + after) == s,
{
    assert(before + s + after =~= before + (s + after));
    lemma_trim_start_skips(before, s + after);
    if s.len() == 0 {
        assert(s + after =~= after + s);
        lemma_trim_start_skips(after, s);
    } else {
        assert((s + after).first() == s.first());
        lemma_trim_end_skips(s, after);
    }
}

/// Trimming leaves a trimmed text as it is.
pub proof fn lemma_trim_trimmed(s: Seq<char>)
    requires
        is_trimmed(s),
    ensures
        trim(s) == s,
{
    let none = Seq::<char>::empty();
    assert(none + s + none =~= s);
    lemma_trim_padded(none, s, none);
}

/// What `trim_start` returns is the end of its argument, and does not begin
/// with whitespace.
pub proof fn lemma_trim_start_is_suffix(s: Seq<char>)
    ensures
        trim_start(s).len() <= s.len(),
        trim_start(s) == s.skip(s.len() - trim_start(s).len()),
        trim_start(s).len() > 0 ==> !white_space(trim_start(s).first()),
    decreases s.len(),
{
    if s.len() > 0 && white_space(s.first()) {
        let rest = s.drop_first();
        lemma_trim_start_is_suffix(rest);
        assert(rest.skip(rest.len() - trim_start(rest).len()) =~= s.skip(
            s.len() - trim_start(s).len(),
        ));
    } else {
        assert(s.skip(0) =~= s);
    }
}

/// What `trim_end` returns is the beginning of its argument, and does not
/// end with whitespace.
pub proof fn lemma_trim_end_is_prefix(s: Seq<char>)
    ensures
        trim_end(s).len() <= s.len(),
        trim_end(s) == s.take(trim_end(s).len() as int),
        trim_end(s).len() > 0 ==> !white_space(trim_end(s).last()),
    decreases s.len(),
{
    if s.len() > 0 && white_space(s.last()) {
        let rest = s.drop_last();
        lemma_trim_end_is_prefix(rest);
        assert(rest.take(trim_end(rest).len() as int) =~= s.take(trim_end(s).len() as int));
    } else {
        assert(s.take(s.len() as int) =~= s);
    }
}

/// What `trim` returns is trimmed, and is a piece of its argument: the
/// characters from some position `a` up to some position `b`.
pub proof fn lemma_trim_is_piece(s: Seq<char>) -> (bounds: (int, int))
    ensures
        0 <= bounds.0 <= bounds.1 <= s.len(),
        trim(s) == s.subrange(bounds.0, bounds.1),
        is_trimmed(trim(s)),
{
    let tail = trim_start(s);
    lemma_trim_start_is_suffix(s);
    lemma_trim_end_is_prefix(tail);
    let a = s.len() - tail.len();
    let b = a + trim(s).len();
    assert(tail.take(trim(s).len() as int) =~= s.subrange(a, b));
    (a, b)
}

/// Trimming twice is trimming once.
pub proof fn lemma_trim_idempotent(s: Seq<char>)
    ensures
        trim(trim(s)) == trim(s),
{
    lemma_trim_is_piece(s);
    lemma_trim_trimmed(trim(s));
}

/// The bounds of `chars[lo..hi]` once trimmed: the returned pair `(a, b)` is
/// such that `chars[a..b]` is the trimmed text.
pub fn trim_bounds(chars: &Vec<char>, lo: usize, hi: usize) -> (bounds: (usize, usize))
    requires
        lo <= hi <= chars@.len(),
    ensures
        lo <= bounds.0 <= bounds.1 <= hi,
        chars@.subrange(bounds.0 as int, bounds.1 as int) == trim(
            chars@.subrange(lo as int, hi as int),
        ),
{
    let ghost whole = chars@.subrange(lo as int, hi as int);
    let mut a: usize = lo;
    while a < hi && is_whitespace(chars[a])
        invariant
            lo <= a <= hi <= chars@.len(),
            trim_start(chars@.subrange(a as int, hi as int)) == trim_start(whole),
        decreases hi - a,
    {
        assert(chars@.subrange(a as int, hi as int).drop_first() =~= chars@.subrange(
            a + 1,
            hi as int,
        ));
        a += 1;
    }
    let ghost tail = chars@.subrange(a as int, hi as int);
    assert(trim_start(whole) == tail);
    let mut b: usize = hi;
    while a < b && is_whitespace(chars[b - 1])
        invariant
            a <= b <= hi <= chars@.len(),
            trim_end(chars@.subrange(a as int, b as int)) == trim_end(tail),
        decreases b - a,
    {
        assert(chars@.subrange(a as int, b as int).drop_last() =~= chars@.subrange(
            a as int,
            b - 1,
        ));
        b -= 1;
    }
    (a, b)
}

} // verus!
