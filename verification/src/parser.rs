//! The parser: from a text to the variable map that it means.

use vstd::prelude::*;
use crate::chars::{string_from, to_chars};
use crate::syntax::{bind, bindings, find, lemma_find_unique, lines, parse, DELIMITER, LINE_FEED};
use crate::trim::{trim, trim_bounds};
use crate::variable_map::VariableMap;

verus! {

/// The position of the first `c` in `chars[lo..hi]`, or `hi` where there is
/// none.
fn find_in(chars: &Vec<char>, lo: usize, hi: usize, c: char) -> (i: usize)
    requires
        lo <= hi <= chars@.len(),
    ensures
        lo <= i <= hi,
        i == lo + find(chars@.subrange(lo as int, hi as int), c),
{
    let mut i: usize = lo;
    while i < hi && chars[i] != c
        invariant
            lo <= i <= hi <= chars@.len(),
            forall|j: int| lo <= j < i ==> chars@[j] != c,
        decreases hi - i,
    {
        i += 1;
    }
    proof {
        lemma_find_unique(chars@.subrange(lo as int, hi as int), c, i - lo);
    }
    i
}

/// The text `chars[lo..hi]`, trimmed.
fn trimmed(chars: &Vec<char>, lo: usize, hi: usize) -> (s: String)
    requires
        lo <= hi <= chars@.len(),
    ensures
        s@ == trim(chars@.subrange(lo as int, hi as int)),
{
    let (a, b) = trim_bounds(chars, lo, hi);
    string_from(chars, a, b)
}

/// Reads the line `chars[lo..hi]` into `map`.
fn read_line(map: VariableMap, chars: &Vec<char>, lo: usize, hi: usize) -> (read: VariableMap)
    requires
        lo <= hi <= chars@.len(),
    ensures
        read@ == bind(map@, chars@.subrange(lo as int, hi as int)),
{
    let ghost line = chars@.subrange(lo as int, hi as int);
    let d = find_in(chars, lo, hi, DELIMITER);
    if d < hi {
        let key = trimmed(chars, lo, d);
        let value = trimmed(chars, d + 1, hi);
        proof {
            assert(line.take(d - lo) =~= chars@.subrange(lo as int, d as int));
            assert(line.skip(d - lo + 1) =~= chars@.subrange(d + 1, hi as int));
        }
        map.with(key, value)
    } else {
        map
    }
}

/// Parses `contents` into a variable map.
///
/// The contents are split into lines at each line feed. A line that holds a
/// `=` binds the text before the first `=` to the text after it, both
/// trimmed of whitespace; a line without `=` is skipped. Where a key is bound
/// more than once, the last binding stands.
pub fn get_variable_map(contents: String) -> (map: VariableMap)
    ensures
        map@ == parse(contents@),
{
    let chars = to_chars(contents.as_str());
    let n = chars.len();
    let mut map = VariableMap::new();
    let mut start: usize = 0;
    let ghost mut done: Seq<Seq<char>> = Seq::empty();
    assert(chars@.skip(0) =~= chars@);
    loop
        invariant_except_break
            n == chars@.len(),
            start <= n,
            lines(chars@) == done + lines(chars@.skip(start as int)),
            map@ == bindings(done),
        ensures
            map@ == parse(chars@),
        decreases n - start,
    {
        let end = find_in(&chars, start, n, LINE_FEED);
        map = read_line(map, &chars, start, end);
        proof {
            let rest = chars@.skip(start as int);
            let line = chars@.subrange(start as int, end as int);
            assert(rest =~= chars@.subrange(start as int, n as int));
            assert(rest.take(end - start) =~= line);
            assert(done.push(line).drop_last() =~= done);
            if end < n {
                assert(rest.skip(end - start + 1) =~= chars@.skip(end + 1));
                assert(done + lines(rest) =~= done.push(line) + lines(chars@.skip(end + 1)));
            } else {
                assert(line =~= rest);
                assert(done + lines(rest) =~= done.push(line));
            }
            done = done.push(line);
        }
        if end == n {
            break ;
        }
        start = end + 1;
    }
    map
}

} // verus!
