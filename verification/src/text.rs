//! Verified text splitting: the line- and field-oriented parsing that the
//! browser applies to the device bridge's output and to directory paths.

use vstd::prelude::*;

verus! {

/// Index of the first occurrence of `c` in `s` at or after `from`, or
/// `s.len()` if there is none.
pub open spec fn first_index_from(s: Seq<char>, c: char, from: int) -> int
    decreases s.len() - from,
{
    if from < 0 || from >= s.len() {
        s.len() as int
    } else if s[from] == c {
        from
    } else {
        first_index_from(s, c, from + 1)
    }
}

/// The first occurrence is the position `m` before which `c` never appears
/// and at which it appears, unless the string ends first.
pub proof fn lemma_first_index_is(s: Seq<char>, c: char, from: int, m: int)
    requires
        0 <= from <= m <= s.len(),
        forall|k: int| from <= k < m ==> s[k] != c,
        m == s.len() || s[m] == c,
    ensures
        first_index_from(s, c, from) == m,
    decreases m - from,
{
    if from < m {
        lemma_first_index_is(s, c, from + 1, m);
    }
}

/// The first occurrence lies between `from` and the string's end, and `c`
/// does not appear before it.
pub proof fn lemma_first_index_bounds(s: Seq<char>, c: char, from: int)
    requires
        0 <= from <= s.len(),
    ensures
        from <= first_index_from(s, c, from) <= s.len(),
        first_index_from(s, c, from) < s.len() ==> s[first_index_from(s, c, from)] == c,
        forall|k: int| from <= k < first_index_from(s, c, from) ==> s[k] != c,
    decreases s.len() - from,
{
    if from < s.len() && s[from] != c {
        lemma_first_index_bounds(s, c, from + 1);
    }
}

#[via_fn]
proof fn split_by_decreases(s: Seq<char>, sep: char) {
    lemma_first_index_bounds(s, sep, 0);
}

/// The pieces of `s` between occurrences of `sep`: `k` separators yield
/// `k + 1` pieces, empty pieces included.
pub open spec fn split_by(s: Seq<char>, sep: char) -> Seq<Seq<char>>
    decreases s.len() via split_by_decreases
{
    let p = first_index_from(s, sep, 0);
    if p == s.len() {
        seq![s]
    } else {
        seq![s.subrange(0, p)] + split_by(s.subrange(p + 1, s.len() as int), sep)
    }
}

/// There is always at least the one piece.
pub proof fn lemma_split_by_not_empty(s: Seq<char>, sep: char)
    ensures
        split_by(s, sep).len() >= 1,
{
}

/// How many times `c` occurs in `s`.
pub open spec fn count_char(s: Seq<char>, c: char) -> nat
    decreases s.len(),
{
    if s.len() == 0 {
        0
    } else {
        count_char(s.drop_last(), c) + if s.last() == c {
            1nat
        } else {
            0nat
        }
    }
}

/// Index of the last occurrence of `c` in `s`, or `-1` if there is none.
pub open spec fn last_index_of(s: Seq<char>, c: char) -> int
    decreases s.len(),
{
    if s.len() == 0 {
        -1
    } else if s.last() == c {
        s.len() - 1
    } else {
        last_index_of(s.drop_last(), c)
    }
}

/// The last occurrence is the position `m` at which `c` appears and after
/// which it never does.
pub proof fn lemma_last_index_is(s: Seq<char>, c: char, m: int)
    requires
        0 <= m < s.len(),
        s[m] == c,
        forall|k: int| m < k < s.len() ==> s[k] != c,
    ensures
        last_index_of(s, c) == m,
    decreases s.len(),
{
    if s.last() != c {
        assert(m < s.len() - 1);
        lemma_last_index_is(s.drop_last(), c, m);
    }
}

/// Absence of `c` everywhere puts the last occurrence at `-1`.
pub proof fn lemma_last_index_none(s: Seq<char>, c: char)
    requires
        forall|k: int| 0 <= k < s.len() ==> s[k] != c,
    ensures
        last_index_of(s, c) == -1,
    decreases s.len(),
{
    if s.len() > 0 {
        lemma_last_index_none(s.drop_last(), c);
    }
}

/// Splits `s` at every newline, preserving empty lines, as the browser does
/// with the device bridge's output: `k` newlines yield `k + 1` lines.
pub fn split_lines(s: &str) -> (lines: Vec<String>)
    ensures
        lines@.map_values(|l: String| l@) == split_by(s@, '\n'),
{
    let n = s.unicode_len();
    let mut lines: Vec<String> = Vec::new();
    let mut start: usize = 0;
    let mut i: usize = 0;
    proof {
        assert(s@.subrange(0, n as int) =~= s@);
        assert(lines@.map_values(|l: String| l@) + split_by(s@, '\n') =~= split_by(s@, '\n'));
    }
    while i < n
        invariant
            start <= i <= n,
            n == s@.len(),
            forall|k: int| start <= k < i ==> s@[k] != '\n',
            split_by(s@, '\n') == lines@.map_values(|l: String| l@) + split_by(
                s@.subrange(start as int, n as int),
                '\n',
            ),
        decreases n - i,
    {
        let c = s.get_char(i);
        if c == '\n' {
            let piece = String::from_str(s.substring_char(start, i));
            proof {
                let rest = s@.subrange(start as int, n as int);
                lemma_first_index_is(rest, '\n', 0, i - start);
                assert(rest.subrange(0, i - start) =~= s@.subrange(start as int, i as int));
                assert(rest.subrange(i - start + 1, rest.len() as int) =~= s@.subrange(
                    i as int + 1,
                    n as int,
                ));
                assert(split_by(rest, '\n') == seq![s@.subrange(start as int, i as int)]
                    + split_by(s@.subrange(i as int + 1, n as int), '\n'));
                assert((lines@.push(piece)).map_values(|l: String| l@) =~= lines@.map_values(
                    |l: String| l@,
                ).push(piece@));
                assert(lines@.map_values(|l: String| l@).push(s@.subrange(
                    start as int,
                    i as int,
                )) + split_by(s@.subrange(i as int + 1, n as int), '\n') =~= lines@.map_values(
                    |l: String| l@,
                ) + split_by(rest, '\n'));
            }
            lines.push(piece);
            start = i + 1;
        }
        i += 1;
    }
    let piece = String::from_str(s.substring_char(start, n));
    proof {
        let rest = s@.subrange(start as int, n as int);
        lemma_first_index_is(rest, '\n', 0, rest.len() as int);
        assert(split_by(rest, '\n') == seq![rest]);
        assert((lines@.push(piece)).map_values(|l: String| l@) =~= lines@.map_values(
            |l: String| l@,
        ).push(piece@));
        assert(lines@.map_values(|l: String| l@).push(rest) =~= lines@.map_values(|l: String| l@)
            + seq![rest]);
    }
    lines.push(piece);
    lines
}

} // verus!
