//! The rules of a run as they are loaded: the separators, and the noise
//! words in ascending order.

use crate::errors::LoadFromFileError;
use crate::text::{chars_of, push_char, string_views};
use vstd::prelude::*;
use vstd::seq_lib::to_multiset_insert;

verus! {

/// From place `i` on, `a` comes before `b` in the dictionary or equals
/// it: at the first place where they differ `a` holds the smaller
/// character, or `a` ends there.
pub open spec fn precedes_from(a: Seq<char>, b: Seq<char>, i: int) -> bool
    decreases a.len() - i,
{
    if i < 0 || i >= a.len() {
        true
    } else if i >= b.len() {
        false
    } else if a[i] != b[i] {
        a[i] < b[i]
    } else {
        precedes_from(a, b, i + 1)
    }
}

/// `a` comes before `b` in the dictionary, or equals it.
pub open spec fn word_le(a: Seq<char>, b: Seq<char>) -> bool {
    precedes_from(a, b, 0)
}

/// The words stand in ascending order.
pub open spec fn sorted_words(words: Seq<Seq<char>>) -> bool {
    forall|i: int, j: int| 0 <= i < j < words.len() ==> word_le(words[i], words[j])
}

/// The characters stand in ascending order.
pub open spec fn sorted_chars(chars: Seq<char>) -> bool {
    forall|i: int, j: int| 0 <= i < j < chars.len() ==> chars[i] <= chars[j]
}

/// Of two words, one comes before the other or equals it.
pub proof fn lemma_le_total(a: Seq<char>, b: Seq<char>, i: int)
    requires
        0 <= i,
    ensures
        precedes_from(a, b, i) || precedes_from(b, a, i),
    decreases a.len() - i,
{
    if i < a.len() && i < b.len() && a[i] == b[i] {
        lemma_le_total(a, b, i + 1);
    }
}

/// The order of words is transitive.
pub proof fn lemma_le_transitive(a: Seq<char>, b: Seq<char>, c: Seq<char>, i: int)
    requires
        0 <= i,
        precedes_from(a, b, i),
        precedes_from(b, c, i),
    ensures
        precedes_from(a, c, i),
    decreases a.len() - i,
{
    if i < a.len() && i < b.len() && i < c.len() && a[i] == b[i] && b[i] == c[i] {
        lemma_le_transitive(a, b, c, i + 1);
    }
}

/// Two words that agree up to place `i`, and from there on each come
/// before the other or equal it, are the same word.
pub proof fn lemma_le_antisymmetric(a: Seq<char>, b: Seq<char>, i: int)
    requires
        0 <= i <= a.len(),
        i <= b.len(),
        forall|t: int| 0 <= t < i ==> a[t] == b[t],
        precedes_from(a, b, i),
        precedes_from(b, a, i),
    ensures
        a == b,
    decreases a.len() - i,
{
    if i < a.len() {
        lemma_le_antisymmetric(a, b, i + 1);
    } else {
        assert(a =~= b);
    }
}

/// Whether `a` comes before `b` in the dictionary, or equals it.
pub fn word_before(a: &Vec<char>, b: &Vec<char>) -> (r: bool)
    ensures
        r == word_le(a@, b@),
{
    let mut i: usize = 0;
    while i < a.len()
        invariant
            i <= a@.len(),
            precedes_from(a@, b@, i as int) == word_le(a@, b@),
        decreases a@.len() - i,
    {
        if i >= b.len() {
            return false;
        }
        if a[i] != b[i] {
            return a[i] < b[i];
        }
        i += 1;
    }
    true
}

/// The line without its line feeds.
pub open spec fn without_line_feeds(line: Seq<char>) -> Seq<char>
    decreases line.len(),
{
    if line.len() == 0 {
        line
    } else if line.last() == '\n' {
        without_line_feeds(line.drop_last())
    } else {
        without_line_feeds(line.drop_last()).push(line.last())
    }
}

/// The noise words that the lines hold, one on each line.
pub open spec fn noise_of(lines: Seq<Seq<char>>) -> Seq<Seq<char>> {
    Seq::new(lines.len(), |i: int| without_line_feeds(lines[i]))
}

/// The first character of each line.
pub open spec fn firsts_of(lines: Seq<Seq<char>>) -> Seq<char> {
    Seq::new(lines.len(), |i: int| lines[i][0])
}

/// No line is empty.
pub open spec fn all_filled(lines: Seq<Seq<char>>) -> bool {
    forall|i: int| 0 <= i < lines.len() ==> (#[trigger] lines[i]).len() > 0
}

/// The word of one line: the line without its line feeds.
pub fn noise_word(line: &str) -> (w: String)
    ensures
        w@ == without_line_feeds(line@),
{
    let chars = chars_of(line);
    let mut w = String::new();
    let mut i: usize = 0;
    assert(chars@.take(0) =~= Seq::<char>::empty());
    while i < chars.len()
        invariant
            i <= chars@.len(),
            w@ == without_line_feeds(chars@.take(i as int)),
        decreases chars@.len() - i,
    {
        assert(chars@.take(i + 1).drop_last() =~= chars@.take(i as int));
        if chars[i] != '\n' {
            push_char(&mut w, chars[i]);
        }
        i += 1;
    }
    assert(chars@.take(i as int) =~= chars@);
    w
}

/// Puts `word` into the ascending `sorted`, behind the words that come
/// before it or equal it.
pub fn insert_word(sorted: &mut Vec<String>, word: String)
    requires
        sorted_words(string_views(old(sorted)@)),
    ensures
        sorted_words(string_views(final(sorted)@)),
        string_views(final(sorted)@).to_multiset() == string_views(
            old(sorted)@,
        ).to_multiset().insert(word@),
{
    let ghost before = string_views(sorted@);
    let chars = chars_of(word.as_str());
    let mut p: usize = 0;
    let mut found = false;
    while p < sorted.len() && !found
        invariant
            p <= sorted@.len(),
            before == string_views(sorted@),
            chars@ == word@,
            forall|t: int| 0 <= t < p ==> word_le(before[t], word@),
            found ==> p < sorted@.len() && !word_le(before[p as int], word@),
        decreases sorted@.len() - p + (if found { 0int } else { 1int }),
    {
        let here = chars_of(sorted[p].as_str());
        if word_before(&here, &chars) {
            p += 1;
        } else {
            found = true;
        }
    }
    sorted.insert(p, word);
    proof {
        let after = string_views(sorted@);
        assert(after =~= before.insert(p as int, word@));
        to_multiset_insert(before, p as int, word@);
        assert forall|i: int, j: int| 0 <= i < j < after.len() implies word_le(
            after[i],
            after[j],
        ) by {
            if j == p {
                assert(after[i] == before[i]);
            } else if i == p {
                assert(after[j] == before[j - 1]);
                assert(!word_le(before[p as int], word@));
                lemma_le_total(before[p as int], word@, 0);
                if j - 1 > p {
                    assert(word_le(before[p as int], before[j - 1]));
                }
                lemma_le_total(before[p as int], before[j - 1], 0);
                lemma_le_transitive(word@, before[p as int], before[j - 1], 0);
            } else {
                let i0 = if i < p { i } else { i - 1 };
                let j0 = if j < p { j } else { j - 1 };
                assert(after[i] == before[i0] && after[j] == before[j0]);
            }
        }
    }
}

/// The noise words of the lines, a word on each line, in ascending order.
pub fn noise_words_from_lines(lines: &Vec<String>) -> (words: Vec<String>)
    ensures
        sorted_words(string_views(words@)),
        string_views(words@).to_multiset() == noise_of(string_views(lines@)).to_multiset(),
{
    let ghost all = noise_of(string_views(lines@));
    let mut words: Vec<String> = Vec::new();
    let mut i: usize = 0;
    assert(all.take(0) =~= Seq::<Seq<char>>::empty());
    assert(string_views(words@) =~= Seq::<Seq<char>>::empty());
    while i < lines.len()
        invariant
            i <= lines@.len(),
            all == noise_of(string_views(lines@)),
            sorted_words(string_views(words@)),
            string_views(words@).to_multiset() == all.take(i as int).to_multiset(),
        decreases lines@.len() - i,
    {
        let w = noise_word(lines[i].as_str());
        proof {
            assert(all.take(i + 1) =~= all.take(i as int).push(w@));
            vstd::seq_lib::to_multiset_build(all.take(i as int), w@);
        }
        insert_word(&mut words, w);
        i += 1;
    }
    assert(all.take(i as int) =~= all);
    words
}

/// Puts `c` into the ascending `sorted`, behind the characters that are
/// not greater.
pub fn insert_char(sorted: &mut Vec<char>, c: char)
    requires
        sorted_chars(old(sorted)@),
    ensures
        sorted_chars(final(sorted)@),
        final(sorted)@.to_multiset() == old(sorted)@.to_multiset().insert(c),
{
    let ghost before = sorted@;
    let mut p: usize = 0;
    while p < sorted.len() && sorted[p] <= c
        invariant
            p <= sorted@.len(),
            before == sorted@,
            forall|t: int| 0 <= t < p ==> before[t] <= c,
        decreases sorted@.len() - p,
    {
        p += 1;
    }
    sorted.insert(p, c);
    proof {
        let after = sorted@;
        to_multiset_insert(before, p as int, c);
        assert forall|i: int, j: int| 0 <= i < j < after.len() implies after[i] <= after[j] by {
            let i0 = if i < p { i } else { i - 1 };
            let j0 = if j < p { j } else { j - 1 };
            if i != p {
                assert(after[i] == before[i0]);
            }
            if j != p {
                assert(after[j] == before[j0]);
            }
            if i == p && j - 1 > p {
                assert(before[p as int] <= before[j - 1]);
            }
        }
    }
}

/// The separators of the lines, the first character of each line, in
/// ascending order. An empty line is a format error.
pub fn separators_from_lines(lines: &Vec<String>) -> (r: Result<Vec<char>, LoadFromFileError>)
    ensures
        match r {
            Ok(seps) => all_filled(string_views(lines@)) && sorted_chars(seps@)
                && seps@.to_multiset() == firsts_of(string_views(lines@)).to_multiset(),
            Err(LoadFromFileError::FormatError(msg)) => !all_filled(string_views(lines@))
                && msg@ == "Char not found"@,
            Err(LoadFromFileError::IOError(_)) => false,
        },
{
    let ghost views = string_views(lines@);
    let ghost all = firsts_of(views);
    let mut seps: Vec<char> = Vec::new();
    let mut i: usize = 0;
    assert(all.take(0) =~= Seq::<char>::empty());
    while i < lines.len()
        invariant
            i <= lines@.len(),
            views == string_views(lines@),
            all == firsts_of(views),
            forall|t: int| 0 <= t < i ==> (#[trigger] views[t]).len() > 0,
            sorted_chars(seps@),
            seps@.to_multiset() == all.take(i as int).to_multiset(),
        decreases lines@.len() - i,
    {
        let chars = chars_of(lines[i].as_str());
        if chars.len() == 0 {
            assert(views[i as int].len() == 0);
            return Err(LoadFromFileError::FormatError("Char not found".to_owned()));
        }
        let c = chars[0];
        proof {
            assert(all.take(i + 1) =~= all.take(i as int).push(c));
            vstd::seq_lib::to_multiset_build(all.take(i as int), c);
        }
        insert_char(&mut seps, c);
        i += 1;
    }
    assert(all.take(i as int) =~= all);
    Ok(seps)
}

} // verus!
