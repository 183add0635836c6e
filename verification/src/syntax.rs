//! The format, as mathematics: what a text means as a map from keys to
//! values.
//!
//! A text is a sequence of lines separated by line feeds. A line that holds
//! a `=` binds the trimmed text before the first `=` to the trimmed text
//! after it; any other line binds nothing. Lines are read in order, so a
//! later binding of a key replaces an earlier one.

use vstd::prelude::*;
use crate::trim::trim;

verus! {

/// The character that ends a line.
pub const LINE_FEED: char = '\n';

/// The character that separates a key from its value.
pub const DELIMITER: char = '=';

/// The index of the first `c` in `s`, or `s.len()` where `s` holds no `c`.
pub open spec fn find(s: Seq<char>, c: char) -> int
    decreases s.len(),
{
    if s.len() == 0 || s.first() == c {
        0
    } else {
        1 + find(s.drop_first(), c)
    }
}

/// The lines of `s`: the pieces between its line feeds. There is always at
/// least one, and a text that ends in a line feed has an empty last line.
pub open spec fn lines(s: Seq<char>) -> Seq<Seq<char>>
    decreases s.len(),
{
    let n = find(s, LINE_FEED);
    if 0 <= n < s.len() {
        seq![s.take(n)] + lines(s.skip(n + 1))
    } else {
        seq![s]
    }
}

/// The text that has the lines `ls`: they follow one another with a line
/// feed between each two.
pub open spec fn join(ls: Seq<Seq<char>>) -> Seq<char>
    decreases ls.len(),
{
    if ls.len() == 0 {
        Seq::empty()
    } else if ls.len() == 1 {
        ls[0]
    } else {
        ls[0] + seq![LINE_FEED] + join(ls.drop_first())
    }
}

/// The key and the value that `line` binds, if it holds a delimiter.
pub open spec fn line_pair(line: Seq<char>) -> Option<(Seq<char>, Seq<char>)> {
    let d = find(line, DELIMITER);
    if 0 <= d < line.len() {
        Some((trim(line.take(d)), trim(line.skip(d + 1))))
    } else {
        None
    }
}

/// `m` after `line` has been read.
pub open spec fn bind(m: Map<Seq<char>, Seq<char>>, line: Seq<char>) -> Map<Seq<char>, Seq<char>> {
    match line_pair(line) {
        Some((key, value)) => m.insert(key, value),
        None => m,
    }
}

/// The map that reading `ls` from first to last builds.
pub open spec fn bindings(ls: Seq<Seq<char>>) -> Map<Seq<char>, Seq<char>>
    decreases ls.len(),
{
    if ls.len() == 0 {
        Map::empty()
    } else {
        bind(bindings(ls.drop_last()), ls.last())
    }
}

/// Whether `line` binds `key`.
pub open spec fn binds(line: Seq<char>, key: Seq<char>) -> bool {
    line_pair(line) matches Some(pair) && pair.0 == key
}

/// What the text `s` means.
pub open spec fn parse(s: Seq<char>) -> Map<Seq<char>, Seq<char>> {
    bindings(lines(s))
}

/// `find` returns a position at which `c` stands, with no `c` before it, or
/// the length.
pub proof fn lemma_find(s: Seq<char>, c: char)
    ensures
        0 <= find(s, c) <= s.len(),
        find(s, c) < s.len() ==> s[find(s, c)] == c,
        forall|j: int| 0 <= j < find(s, c) ==> s[j] != c,
    decreases s.len(),
{
    if s.len() != 0 && s.first() != c {
        let rest = s.drop_first();
        lemma_find(rest, c);
        assert forall|j: int| 0 <= j < find(s, c) implies s[j] != c by {
            if j > 0 {
                assert(s[j] == rest[j - 1]);
            }
        }
    }
}

/// The only position that is the first `c`, or the length where there is
/// none, is `find`.
pub proof fn lemma_find_unique(s: Seq<char>, c: char, i: int)
    requires
        0 <= i <= s.len(),
        i < s.len() ==> s[i] == c,
        forall|j: int| 0 <= j < i ==> s[j] != c,
    ensures
        find(s, c) == i,
{
    lemma_find(s, c);
    let f = find(s, c);
    if f < i {
        assert(s[f] != c);
    }
}

/// In a text without `c`, `find` returns the length.
pub proof fn lemma_find_absent(s: Seq<char>, c: char)
    requires
        !s.contains(c),
    ensures
        find(s, c) == s.len(),
{
    assert forall|j: int| 0 <= j < s.len() implies s[j] != c by {
        if s[j] == c {
            assert(s.contains(c));
        }
    }
    lemma_find_unique(s, c, s.len() as int);
}

/// A text without line feeds is one line.
pub proof fn lemma_lines_single(s: Seq<char>)
    requires
        !s.contains(LINE_FEED),
    ensures
        lines(s) == seq![s],
{
    lemma_find_absent(s, LINE_FEED);
}

/// The lines of two texts joined by a line feed are the lines of the first,
/// then those of the second.
pub proof fn lemma_lines_joined(a: Seq<char>, b: Seq<char>)
    ensures
        lines(a + seq![LINE_FEED] + b) == lines(a) + lines(b),
    decreases a.len(),
{
    let whole = a + seq![LINE_FEED] + b;
    let n = find(a, LINE_FEED);
    lemma_find(a, LINE_FEED);
    assert forall|j: int| 0 <= j < n implies whole[j] != LINE_FEED by {
        assert(whole[j] == a[j]);
    }
    lemma_find_unique(whole, LINE_FEED, n);
    assert(whole.take(n) =~= a.take(n));
    if n < a.len() {
        let rest = a.skip(n + 1);
        assert(whole.skip(n + 1) =~= rest + seq![LINE_FEED] + b);
        lemma_lines_joined(rest, b);
        assert(seq![a.take(n)] + (lines(rest) + lines(b)) =~= seq![a.take(n)] + lines(rest)
            + lines(b));
    } else {
        assert(a.take(n) =~= a);
        assert(whole.skip(n + 1) =~= b);
    }
}

/// Reading one sequence of lines after another gives the bindings of the
/// first, replaced by those of the second where both bind a key.
pub proof fn lemma_bindings_joined(first: Seq<Seq<char>>, second: Seq<Seq<char>>)
    ensures
        bindings(first + second) == bindings(first).union_prefer_right(bindings(second)),
    decreases second.len(),
{
    if second.len() == 0 {
        assert(first + second =~= first);
        assert(bindings(first).union_prefer_right(bindings(second)) =~= bindings(first));
    } else {
        let init = second.drop_last();
        assert((first + second).drop_last() =~= first + init);
        assert((first + second).last() == second.last());
        lemma_bindings_joined(first, init);
        assert(bind(bindings(first).union_prefer_right(bindings(init)), second.last())
            =~= bindings(first).union_prefer_right(bind(bindings(init), second.last())));
    }
}

/// A key is bound exactly when some line binds it.
pub proof fn lemma_bindings_keys(ls: Seq<Seq<char>>, key: Seq<char>)
    ensures
        bindings(ls).contains_key(key) <==> exists|i: int|
            0 <= i < ls.len() && binds(#[trigger] ls[i], key),
    decreases ls.len(),
{
    if ls.len() > 0 {
        let init = ls.drop_last();
        lemma_bindings_keys(init, key);
        if bindings(ls).contains_key(key) {
            if binds(ls.last(), key) {
                assert(binds(ls[ls.len() - 1], key));
            } else {
                let i = choose|i: int| 0 <= i < init.len() && binds(#[trigger] init[i], key);
                assert(binds(ls[i], key));
            }
        }
        if exists|i: int| 0 <= i < ls.len() && binds(#[trigger] ls[i], key) {
            let i = choose|i: int| 0 <= i < ls.len() && binds(#[trigger] ls[i], key);
            if i < init.len() {
                assert(binds(init[i], key));
            }
        }
    }
}

/// A key is bound to the value on the last line that binds it.
pub proof fn lemma_bindings_last(ls: Seq<Seq<char>>, i: int, key: Seq<char>, value: Seq<char>)
    requires
        0 <= i < ls.len(),
        line_pair(ls[i]) == Some((key, value)),
        forall|j: int| i < j < ls.len() ==> !binds(#[trigger] ls[j], key),
    ensures
        bindings(ls).contains_key(key),
        bindings(ls)[key] == value,
    decreases ls.len(),
{
    if i < ls.len() - 1 {
        let init = ls.drop_last();
        assert(!binds(ls[ls.len() - 1], key));
        assert(init[i] == ls[i]);
        assert forall|j: int| i < j < init.len() implies !binds(#[trigger] init[j], key) by {
            assert(init[j] == ls[j]);
        }
        lemma_bindings_last(init, i, key, value);
    }
}

/// What a key is bound to stands on some line, as that line's value.
pub proof fn lemma_bindings_entry(ls: Seq<Seq<char>>, key: Seq<char>) -> (i: int)
    requires
        bindings(ls).contains_key(key),
    ensures
        0 <= i < ls.len(),
        line_pair(ls[i]) == Some((key, bindings(ls)[key])),
    decreases ls.len(),
{
    if binds(ls.last(), key) {
        ls.len() - 1
    } else {
        let init = ls.drop_last();
        let i = lemma_bindings_entry(init, key);
        assert(init[i] == ls[i]);
        i
    }
}

/// A text is its lines joined, and no line holds a line feed.
pub proof fn lemma_lines_split(s: Seq<char>)
    ensures
        lines(s).len() >= 1,
        join(lines(s)) == s,
        forall|i: int| 0 <= i < lines(s).len() ==> !(#[trigger] lines(s)[i]).contains(LINE_FEED),
    decreases s.len(),
{
    let n = find(s, LINE_FEED);
    lemma_find(s, LINE_FEED);
    if n < s.len() {
        let rest = s.skip(n + 1);
        lemma_lines_split(rest);
        assert(lines(s).drop_first() =~= lines(rest));
        assert(s.take(n) + seq![LINE_FEED] + rest =~= s);
        assert forall|i: int| 0 <= i < lines(s).len() implies !(#[trigger] lines(s)[i]).contains(
            LINE_FEED,
        ) by {
            if i > 0 {
                assert(lines(s)[i] == lines(rest)[i - 1]);
            }
        }
    }
}

/// Texts without line feeds, joined, have themselves as lines.
pub proof fn lemma_lines_of_join(ls: Seq<Seq<char>>)
    requires
        ls.len() >= 1,
        forall|i: int| 0 <= i < ls.len() ==> !(#[trigger] ls[i]).contains(LINE_FEED),
    ensures
        lines(join(ls)) == ls,
    decreases ls.len(),
{
    lemma_lines_single(ls[0]);
    if ls.len() == 1 {
        assert(ls =~= seq![ls[0]]);
    } else {
        let rest = ls.drop_first();
        assert forall|i: int| 0 <= i < rest.len() implies !(#[trigger] rest[i]).contains(
            LINE_FEED,
        ) by {
            assert(rest[i] == ls[i + 1]);
        }
        lemma_lines_of_join(rest);
        lemma_lines_joined(ls[0], join(rest));
        assert(seq![ls[0]] + rest =~= ls);
    }
}

/// A character that a text does not hold stands on none of its lines.
pub proof fn lemma_lines_within(s: Seq<char>, c: char)
    requires
        !s.contains(c),
    ensures
        forall|i: int| 0 <= i < lines(s).len() ==> !(#[trigger] lines(s)[i]).contains(c),
    decreases s.len(),
{
    let n = find(s, LINE_FEED);
    lemma_find(s, LINE_FEED);
    if n < s.len() {
        let line = s.take(n);
        let rest = s.skip(n + 1);
        assert forall|j: int| 0 <= j < line.len() implies line[j] != c by {
            assert(s.contains(s[j]));
        }
        assert forall|j: int| 0 <= j < rest.len() implies rest[j] != c by {
            assert(s.contains(s[n + 1 + j]));
        }
        lemma_lines_within(rest, c);
        assert forall|i: int| 0 <= i < lines(s).len() implies !(#[trigger] lines(s)[i]).contains(
            c,
        ) by {
            if i > 0 {
                assert(lines(s)[i] == lines(rest)[i - 1]);
            }
        }
    }
}

/// Only finitely many keys are bound.
pub proof fn lemma_bindings_finite(ls: Seq<Seq<char>>)
    ensures
        bindings(ls).dom().finite(),
    decreases ls.len(),
{
    if ls.len() > 0 {
        lemma_bindings_finite(ls.drop_last());
    }
}

} // verus!
