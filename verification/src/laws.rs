//! Laws of the format: what holds of `parse`, and so of every variable map
//! that `get_variable_map` returns, whatever the text.

use vstd::prelude::*;
use crate::chars::white_space;
use crate::syntax::{
    bind, bindings, binds, find, lemma_bindings_entry, lemma_bindings_finite,
    lemma_bindings_joined, lemma_bindings_keys, lemma_bindings_last, lemma_find, lemma_find_unique,
    lemma_lines_joined, lemma_lines_single, lemma_lines_split, lemma_lines_within, line_pair,
    lines, parse, DELIMITER, LINE_FEED,
};
use crate::trim::{is_blank, is_trimmed, lemma_trim_is_piece, lemma_trim_padded};

verus! {

/// Whether `s` is spacing within a line: whitespace without a line feed.
pub open spec fn is_spacing(s: Seq<char>) -> bool {
    is_blank(s) && !s.contains(LINE_FEED)
}

/// The one-line text that assigns `value` to `key`, with spacing around
/// each of them.
pub open spec fn assignment(
    lead: Seq<char>,
    key: Seq<char>,
    gap: Seq<char>,
    indent: Seq<char>,
    value: Seq<char>,
    trail: Seq<char>,
) -> Seq<char> {
    lead + key + gap + seq![DELIMITER] + indent + value + trail
}

/// Whether `key` and `value` can be written on one line and read back
/// unchanged: the key holds no delimiter, neither holds a line feed, and
/// neither begins or ends with whitespace. The value may hold delimiters.
pub open spec fn is_plain_pair(key: Seq<char>, value: Seq<char>) -> bool {
    &&& !key.contains(DELIMITER)
    &&& !key.contains(LINE_FEED)
    &&& !value.contains(LINE_FEED)
    &&& is_trimmed(key)
    &&& is_trimmed(value)
}

/// Two texts without `c`, one after the other, are a text without `c`.
proof fn lemma_concat_lacks(a: Seq<char>, b: Seq<char>, c: char)
    requires
        !a.contains(c),
        !b.contains(c),
    ensures
        !(a + b).contains(c),
{
    if (a + b).contains(c) {
        let i = choose|i: int| 0 <= i < (a + b).len() && (a + b)[i] == c;
        if i < a.len() {
            assert(a.contains(a[i]));
        } else {
            assert(b.contains(b[i - a.len()]));
        }
    }
}

/// The delimiter is not whitespace, so no blank text holds it.
proof fn lemma_blank_lacks_delimiter(s: Seq<char>)
    requires
        is_blank(s),
    ensures
        !s.contains(DELIMITER),
{
    if s.contains(DELIMITER) {
        let i = choose|i: int| 0 <= i < s.len() && s[i] == DELIMITER;
        assert(white_space(s[i]));
    }
}

/// A line that assigns `value` to `key`, however spaced, binds `key` to
/// `value` and nothing else.
proof fn lemma_assignment(
    lead: Seq<char>,
    key: Seq<char>,
    gap: Seq<char>,
    indent: Seq<char>,
    value: Seq<char>,
    trail: Seq<char>,
)
    requires
        is_plain_pair(key, value),
        is_spacing(lead),
        is_spacing(gap),
        is_spacing(indent),
        is_spacing(trail),
    ensures
        parse(assignment(lead, key, gap, indent, value, trail)) == Map::<
            Seq<char>,
            Seq<char>,
        >::empty().insert(key, value),
{
    let line = assignment(lead, key, gap, indent, value, trail);
    let left = lead + key + gap;
    let right = indent + value + trail;
    assert(line =~= left + seq![DELIMITER] + right);
    assert(!line.contains(LINE_FEED)) by {
        lemma_concat_lacks(lead, key, LINE_FEED);
        lemma_concat_lacks(lead + key, gap, LINE_FEED);
        assert(!seq![DELIMITER].contains(LINE_FEED));
        lemma_concat_lacks(left, seq![DELIMITER], LINE_FEED);
        lemma_concat_lacks(left + seq![DELIMITER], indent, LINE_FEED);
        lemma_concat_lacks(left + seq![DELIMITER] + indent, value, LINE_FEED);
        lemma_concat_lacks(left + seq![DELIMITER] + indent + value, trail, LINE_FEED);
    }
    lemma_lines_single(line);
    assert(seq![line].drop_last() =~= Seq::<Seq<char>>::empty());
    assert(bindings(Seq::<Seq<char>>::empty()) == Map::<Seq<char>, Seq<char>>::empty());
    assert(bindings(seq![line]) == bind(Map::empty(), line));
    assert(!left.contains(DELIMITER)) by {
        lemma_blank_lacks_delimiter(lead);
        lemma_blank_lacks_delimiter(gap);
        lemma_concat_lacks(lead, key, DELIMITER);
        lemma_concat_lacks(lead + key, gap, DELIMITER);
    }
    assert forall|j: int| 0 <= j < left.len() implies line[j] != DELIMITER by {
        assert(left.contains(left[j]));
    }
    lemma_find_unique(line, DELIMITER, left.len() as int);
    assert(line.take(left.len() as int) =~= left);
    assert(line.skip(left.len() as int + 1) =~= right);
    lemma_trim_padded(lead, key, gap);
    lemma_trim_padded(indent, value, trail);
}

/// A pair that is written on one line is read back as it was written:
/// for every key and value that holds no line feed and neither begins nor
/// ends with whitespace, where the key holds no `=`, the text `key=value`
/// binds `key` to `value` and nothing else. Only the first `=` on the line
/// separates, so the value may hold more of them.
pub proof fn lemma_round_trip(key: Seq<char>, value: Seq<char>)
    requires
        is_plain_pair(key, value),
    ensures
        parse(key + seq![DELIMITER] + value) == Map::<Seq<char>, Seq<char>>::empty().insert(
            key,
            value,
        ),
        parse(key + seq![DELIMITER] + value).contains_key(key),
        parse(key + seq![DELIMITER] + value)[key] == value,
{
    let none = Seq::<char>::empty();
    assert(assignment(none, key, none, none, value, none) =~= key + seq![DELIMITER] + value);
    lemma_assignment(none, key, none, none, value, none);
}

/// Spacing does not count: whitespace other than line feeds, put before the
/// key, between the key and the `=`, between the `=` and the value, and
/// after the value, leaves the meaning of the line `key=value` as it is.
pub proof fn lemma_spacing_ignored(
    lead: Seq<char>,
    key: Seq<char>,
    gap: Seq<char>,
    indent: Seq<char>,
    value: Seq<char>,
    trail: Seq<char>,
)
    requires
        is_plain_pair(key, value),
        is_spacing(lead),
        is_spacing(gap),
        is_spacing(indent),
        is_spacing(trail),
    ensures
        parse(assignment(lead, key, gap, indent, value, trail)) == parse(
            key + seq![DELIMITER] + value,
        ),
        parse(assignment(lead, key, gap, indent, value, trail)) == Map::<
            Seq<char>,
            Seq<char>,
        >::empty().insert(key, value),
{
    lemma_assignment(lead, key, gap, indent, value, trail);
    lemma_round_trip(key, value);
}

/// Lines are read in order, and the last binding of a key stands: two texts
/// joined by a line feed mean what the first means, replaced by what the
/// second means wherever the second binds the key too.
pub proof fn lemma_later_lines_win(first: Seq<char>, second: Seq<char>)
    ensures
        parse(first + seq![LINE_FEED] + second) == parse(first).union_prefer_right(parse(second)),
{
    lemma_lines_joined(first, second);
    lemma_bindings_joined(lines(first), lines(second));
}

/// Where two lines bind the same key, the second one stands.
pub proof fn lemma_last_write_wins(key: Seq<char>, first: Seq<char>, second: Seq<char>)
    requires
        is_plain_pair(key, first),
        is_plain_pair(key, second),
    ensures
        parse(key + seq![DELIMITER] + first + seq![LINE_FEED] + (key + seq![DELIMITER] + second))
            == Map::<Seq<char>, Seq<char>>::empty().insert(key, second),
{
    lemma_round_trip(key, first);
    lemma_round_trip(key, second);
    lemma_later_lines_win(key + seq![DELIMITER] + first, key + seq![DELIMITER] + second);
    assert(Map::<Seq<char>, Seq<char>>::empty().insert(key, first).union_prefer_right(
        Map::<Seq<char>, Seq<char>>::empty().insert(key, second),
    ) =~= Map::<Seq<char>, Seq<char>>::empty().insert(key, second));
}

/// A text without any `=` binds nothing, so no key is found in it.
pub proof fn lemma_noise_dropped(s: Seq<char>)
    requires
        !s.contains(DELIMITER),
    ensures
        parse(s) == Map::<Seq<char>, Seq<char>>::empty(),
        forall|key: Seq<char>| !parse(s).contains_key(key),
{
    lemma_lines_within(s, DELIMITER);
    assert forall|key: Seq<char>| !parse(s).contains_key(key) by {
        lemma_bindings_keys(lines(s), key);
        if parse(s).contains_key(key) {
            let i = choose|i: int| 0 <= i < lines(s).len() && binds(#[trigger] lines(s)[i], key);
            let line = lines(s)[i];
            lemma_find(line, DELIMITER);
            assert(line.contains(line[find(line, DELIMITER)]));
        }
    }
    assert(parse(s) =~= Map::<Seq<char>, Seq<char>>::empty());
}

/// Every entry comes from a line: a key is bound exactly when some line of
/// the text holds a `=` and has that key before the first one.
pub proof fn lemma_entry_iff_line(s: Seq<char>, key: Seq<char>)
    ensures
        parse(s).contains_key(key) <==> exists|i: int|
            0 <= i < lines(s).len() && binds(#[trigger] lines(s)[i], key),
{
    lemma_bindings_keys(lines(s), key);
}

/// A key is bound to the value of the last line that binds it.
pub proof fn lemma_last_line_stands(s: Seq<char>, i: int, key: Seq<char>, value: Seq<char>)
    requires
        0 <= i < lines(s).len(),
        line_pair(lines(s)[i]) == Some((key, value)),
        forall|j: int| i < j < lines(s).len() ==> !binds(#[trigger] lines(s)[j], key),
    ensures
        parse(s).contains_key(key),
        parse(s)[key] == value,
{
    lemma_bindings_last(lines(s), i, key, value);
}

/// Keys and values are stored trimmed, a key holds no `=`, and neither
/// holds a line feed.
pub proof fn lemma_entries_trimmed(s: Seq<char>, key: Seq<char>)
    requires
        parse(s).contains_key(key),
    ensures
        is_trimmed(key),
        is_trimmed(parse(s)[key]),
        !key.contains(DELIMITER),
        !key.contains(LINE_FEED),
        !parse(s)[key].contains(LINE_FEED),
{
    let value = parse(s)[key];
    let i = lemma_bindings_entry(lines(s), key);
    let line = lines(s)[i];
    lemma_lines_split(s);
    let d = find(line, DELIMITER);
    lemma_find(line, DELIMITER);
    let left = line.take(d);
    let right = line.skip(d + 1);
    let (a, b) = lemma_trim_is_piece(left);
    assert forall|j: int| 0 <= j < key.len() implies key[j] != DELIMITER && key[j]
        != LINE_FEED by {
        assert(key[j] == line[a + j]);
        assert(line.contains(line[a + j]));
    }
    let (a, b) = lemma_trim_is_piece(right);
    assert forall|j: int| 0 <= j < value.len() implies value[j] != LINE_FEED by {
        assert(value[j] == line[d + 1 + a + j]);
        assert(line.contains(line[d + 1 + a + j]));
    }
}

/// A text binds finitely many keys.
pub proof fn lemma_parse_finite(s: Seq<char>)
    ensures
        parse(s).dom().finite(),
{
    lemma_bindings_finite(lines(s));
}

} // verus!
