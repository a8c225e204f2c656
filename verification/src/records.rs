//! The delimited record format of the synonym table: one record per line,
//! the synonym, a semicolon, the canonical word.

use vstd::prelude::*;

verus! {

/// A character with the Unicode property White_Space.
pub open spec fn is_space(c: char) -> bool {
    ||| ('\u{9}' <= c && c <= '\u{d}')
    ||| c == ' '
    ||| c == '\u{85}'
    ||| c == '\u{a0}'
    ||| c == '\u{1680}'
    ||| ('\u{2000}' <= c && c <= '\u{200a}')
    ||| c == '\u{2028}'
    ||| c == '\u{2029}'
    ||| c == '\u{202f}'
    ||| c == '\u{205f}'
    ||| c == '\u{3000}'
}

/// Whether `c` has the Unicode property White_Space.
pub fn space(c: char) -> (b: bool)
    ensures
        b == is_space(c),
{
    ('\u{9}' <= c && c <= '\u{d}') || c == ' ' || c == '\u{85}' || c == '\u{a0}' || c
        == '\u{1680}' || ('\u{2000}' <= c && c <= '\u{200a}') || c == '\u{2028}' || c
        == '\u{2029}' || c == '\u{202f}' || c == '\u{205f}' || c == '\u{3000}'
}

/// The place of the first semicolon at or after `from`, or the length of
/// `s` where there is none.
pub open spec fn field_end(s: Seq<char>, from: int) -> int
    decreases s.len() - from,
{
    if from < 0 || from >= s.len() || s[from] == ';' {
        from
    } else {
        field_end(s, from + 1)
    }
}

/// The first place at or after `from`, and before `to`, that holds no
/// white space; `to` where there is none.
pub open spec fn skip_space(s: Seq<char>, from: int, to: int) -> int
    decreases to - from,
{
    if 0 <= from < to <= s.len() && is_space(s[from]) {
        skip_space(s, from + 1, to)
    } else {
        from
    }
}

/// The end of `s[from..to]` without the white space at its end.
pub open spec fn drop_space(s: Seq<char>, from: int, to: int) -> int
    decreases to - from,
{
    if 0 <= from < to <= s.len() && is_space(s[to - 1]) {
        drop_space(s, from, to - 1)
    } else {
        to
    }
}

/// `s[from..to]` without the white space at either end.
pub open spec fn trimmed(s: Seq<char>, from: int, to: int) -> Seq<char> {
    let a = skip_space(s, from, to);
    s.subrange(a, drop_space(s, a, to))
}

/// The synonym and the canonical word of a record: its first two fields,
/// trimmed. A line without a semicolon is no record.
pub open spec fn record_of(line: Seq<char>) -> Option<(Seq<char>, Seq<char>)> {
    let a = field_end(line, 0);
    if a >= line.len() {
        None
    } else {
        Some((trimmed(line, 0, a), trimmed(line, a + 1, field_end(line, a + 1))))
    }
}

/// Every line is a record.
pub open spec fn all_records(lines: Seq<Seq<char>>) -> bool {
    forall|i: int| 0 <= i < lines.len() ==> (#[trigger] record_of(lines[i])) is Some
}

/// The synonym map that the records build, the later record winning.
pub open spec fn table_of(lines: Seq<Seq<char>>) -> Map<Seq<char>, Seq<char>>
    decreases lines.len(),
{
    if lines.len() == 0 {
        Map::empty()
    } else {
        let rest = table_of(lines.drop_last());
        match record_of(lines.last()) {
            Some((synonym, word)) => rest.insert(synonym, word),
            None => rest,
        }
    }
}

/// The line that records `synonym` as a synonym of `word`.
pub open spec fn record_line(synonym: Seq<char>, word: Seq<char>) -> Seq<char> {
    synonym + seq![';'] + word + seq!['\n']
}

/// A word that the format keeps as it is: it holds no semicolon, and no
/// white space at either end.
pub open spec fn plain(w: Seq<char>) -> bool {
    &&& forall|i: int| 0 <= i < w.len() ==> w[i] != ';'
    &&& w.len() > 0 ==> !is_space(w[0]) && !is_space(w[w.len() - 1])
}

/// Where no semicolon stands in `s[from..to]`, and one stands at `to` or
/// `s` ends there, the field that starts at `from` ends at `to`.
pub proof fn lemma_field_end(s: Seq<char>, from: int, to: int)
    requires
        0 <= from <= to <= s.len(),
        forall|t: int| from <= t < to ==> s[t] != ';',
        to == s.len() || s[to] == ';',
    ensures
        field_end(s, from) == to,
    decreases to - from,
{
    if from < to {
        lemma_field_end(s, from + 1, to);
    }
}

/// The record line of two plain words is read back as those two words.
pub proof fn lemma_record_line(synonym: Seq<char>, word: Seq<char>)
    requires
        plain(synonym),
        plain(word),
    ensures
        record_of(record_line(synonym, word)) == Some((synonym, word)),
{
    let line = record_line(synonym, word);
    let a = synonym.len() as int;
    let n = line.len() as int;
    assert(n == a + word.len() + 2);
    assert(line[a] == ';');
    assert(line[n - 1] == '\n');
    assert forall|t: int| 0 <= t < a implies line[t] != ';' by {
        assert(line[t] == synonym[t]);
    }
    assert forall|t: int| a + 1 <= t < n implies line[t] != ';' by {
        if t < n - 1 {
            assert(line[t] == word[t - a - 1]);
        }
    }
    lemma_field_end(line, 0, a);
    lemma_field_end(line, a + 1, n);
    if a > 0 {
        assert(line[0] == synonym[0]);
        assert(line[a - 1] == synonym[a - 1]);
    }
    assert(skip_space(line, 0, a) == 0);
    assert(drop_space(line, 0, a) == a);
    assert(line.subrange(0, a) =~= synonym);
    if word.len() > 0 {
        assert(line[a + 1] == word[0]);
        assert(line[n - 2] == word[word.len() - 1]);
        assert(skip_space(line, a + 1, n) == a + 1);
        assert(drop_space(line, a + 1, n - 1) == n - 1);
        assert(drop_space(line, a + 1, n) == n - 1);
        assert(line.subrange(a + 1, n - 1) =~= word);
    } else {
        assert(skip_space(line, a + 2, n) == a + 2);
        assert(skip_space(line, a + 1, n) == n);
        assert(drop_space(line, n, n) == n);
        assert(line.subrange(n, n) =~= word);
    }
}

/// The end of the field that starts at `from`.
pub fn find_field_end(chars: &Vec<char>, from: usize) -> (to: usize)
    requires
        from <= chars@.len(),
    ensures
        to == field_end(chars@, from as int),
        from <= to <= chars@.len(),
{
    let mut j: usize = from;
    while j < chars.len() && chars[j] != ';'
        invariant
            from <= j <= chars@.len(),
            field_end(chars@, j as int) == field_end(chars@, from as int),
        decreases chars@.len() - j,
    {
        j += 1;
    }
    j
}

/// The bounds of `chars[from..to]` without the white space at either end.
pub fn trim_bounds(chars: &Vec<char>, from: usize, to: usize) -> (r: (usize, usize))
    requires
        from <= to <= chars@.len(),
    ensures
        from <= r.0 <= r.1 <= to,
        chars@.subrange(r.0 as int, r.1 as int) == trimmed(chars@, from as int, to as int),
{
    let mut a: usize = from;
    while a < to && space(chars[a])
        invariant
            from <= a <= to <= chars@.len(),
            skip_space(chars@, a as int, to as int) == skip_space(chars@, from as int, to as int),
        decreases to - a,
    {
        a += 1;
    }
    let mut b: usize = to;
    while a < b && space(chars[b - 1])
        invariant
            a <= b <= to <= chars@.len(),
            drop_space(chars@, a as int, b as int) == drop_space(chars@, a as int, to as int),
        decreases b - a,
    {
        b -= 1;
    }
    (a, b)
}

} // verus!
