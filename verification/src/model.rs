//! The mathematical model: tokens of a line, the words they are counted as,
//! and word counts as maps from words to natural numbers.

use crate::collapser::canonical_form;
use crate::text::{all_digits, lowercase_of};
use vstd::prelude::*;

verus! {

/// The pieces of `line` between separators. Two separators in a row, or one
/// at either end, give an empty piece.
pub open spec fn split_tokens(line: Seq<char>, seps: Seq<char>) -> Seq<Seq<char>>
    decreases line.len(),
{
    if line.len() == 0 {
        seq![Seq::<char>::empty()]
    } else {
        let prev = split_tokens(line.drop_last(), seps);
        if seps.contains(line.last()) {
            prev.push(Seq::<char>::empty())
        } else {
            prev.drop_last().push(prev.last().push(line.last()))
        }
    }
}

/// A line has one token more than it has separators, so at least one.
pub proof fn lemma_split_len(line: Seq<char>, seps: Seq<char>)
    ensures
        1 <= split_tokens(line, seps).len() <= line.len() + 1,
    decreases line.len(),
{
    if line.len() > 0 {
        lemma_split_len(line.drop_last(), seps);
    }
}

/// A leading tab, carriage return or line feed.
pub open spec fn is_lead(c: char) -> bool {
    c == '\t' || c == '\r' || c == '\n'
}

/// The token without one leading tab, carriage return or line feed, and
/// then without a trailing carriage return and line feed.
pub open spec fn strip_token(t: Seq<char>) -> Seq<char> {
    let a = if t.len() > 0 && is_lead(t[0]) {
        t.subrange(1, t.len() as int)
    } else {
        t
    };
    if a.len() >= 2 && a[a.len() - 2] == '\r' && a[a.len() - 1] == '\n' {
        a.subrange(0, a.len() - 2)
    } else {
        a
    }
}

/// The stripped token is kept: it has two characters or more, not all of
/// them digits.
pub open spec fn countable(t: Seq<char>) -> bool {
    t.len() >= 2 && !all_digits(t)
}

/// What a lower-cased token is counted as: nothing where it is a noise
/// word, else its canonical form.
pub open spec fn lowered_word(
    lowered: Seq<char>,
    noise: Seq<Seq<char>>,
    synonyms: Map<Seq<char>, Seq<char>>,
) -> Option<Seq<char>> {
    if noise.contains(lowered) {
        None
    } else {
        Some(canonical_form(synonyms, lowered))
    }
}

/// What a token is counted as, if it is counted at all.
pub open spec fn token_word(
    token: Seq<char>,
    noise: Seq<Seq<char>>,
    synonyms: Map<Seq<char>, Seq<char>>,
) -> Option<Seq<char>> {
    let t = strip_token(token);
    if countable(t) {
        lowered_word(lowercase_of(t), noise, synonyms)
    } else {
        None
    }
}

/// The words that a sequence of tokens is counted as, in order.
pub open spec fn words_of_tokens(
    tokens: Seq<Seq<char>>,
    noise: Seq<Seq<char>>,
    synonyms: Map<Seq<char>, Seq<char>>,
) -> Seq<Seq<char>>
    decreases tokens.len(),
{
    if tokens.len() == 0 {
        Seq::<Seq<char>>::empty()
    } else {
        let prev = words_of_tokens(tokens.drop_last(), noise, synonyms);
        match token_word(tokens.last(), noise, synonyms) {
            Some(w) => prev.push(w),
            None => prev,
        }
    }
}

/// The words that a line is counted as, in order.
pub open spec fn line_words(
    line: Seq<char>,
    seps: Seq<char>,
    noise: Seq<Seq<char>>,
    synonyms: Map<Seq<char>, Seq<char>>,
) -> Seq<Seq<char>> {
    words_of_tokens(split_tokens(line, seps), noise, synonyms)
}

/// The count of `w`: zero for a word that is not a key.
pub open spec fn count_of(m: Map<Seq<char>, nat>, w: Seq<char>) -> nat {
    if m.contains_key(w) {
        m[w]
    } else {
        0
    }
}

/// The counts with `delta` added to the count of `w`.
pub open spec fn bump(m: Map<Seq<char>, nat>, w: Seq<char>, delta: nat) -> Map<Seq<char>, nat> {
    m.insert(w, count_of(m, w) + delta)
}

/// The counts after each of `words` has been counted once.
pub open spec fn tally(m: Map<Seq<char>, nat>, words: Seq<Seq<char>>) -> Map<Seq<char>, nat>
    decreases words.len(),
{
    if words.len() == 0 {
        m
    } else {
        bump(tally(m, words.drop_last()), words.last(), 1)
    }
}

/// The sum of two counts, word by word.
pub open spec fn merge_counts(a: Map<Seq<char>, nat>, b: Map<Seq<char>, nat>) -> Map<
    Seq<char>,
    nat,
> {
    Map::new(
        |w: Seq<char>| a.contains_key(w) || b.contains_key(w),
        |w: Seq<char>| count_of(a, w) + count_of(b, w),
    )
}

/// How often `w` occurs in `words`.
pub open spec fn occurrences(words: Seq<Seq<char>>, w: Seq<char>) -> nat
    decreases words.len(),
{
    if words.len() == 0 {
        0
    } else {
        occurrences(words.drop_last(), w) + (if words.last() == w {
            1nat
        } else {
            0nat
        })
    }
}

/// Counting words adds to each count the number of times the word occurs,
/// and makes keys of exactly the words that occur.
pub proof fn lemma_tally_counts(m: Map<Seq<char>, nat>, words: Seq<Seq<char>>, w: Seq<char>)
    ensures
        count_of(tally(m, words), w) == count_of(m, w) + occurrences(words, w),
        tally(m, words).contains_key(w) <==> m.contains_key(w) || words.contains(w),
        occurrences(words, w) <= words.len(),
    decreases words.len(),
{
    if words.len() > 0 {
        lemma_tally_counts(m, words.drop_last(), w);
        if words.contains(w) {
            let i = choose|i: int| 0 <= i < words.len() && words[i] == w;
            if i < words.len() - 1 {
                assert(words.drop_last()[i] == w);
            }
        }
        if words.drop_last().contains(w) {
            let i = choose|i: int| 0 <= i < words.len() - 1 && words.drop_last()[i] == w;
            assert(words[i] == w);
        }
    }
}

/// Counting one sequence of words after another is counting them all.
pub proof fn lemma_tally_concat(m: Map<Seq<char>, nat>, a: Seq<Seq<char>>, b: Seq<Seq<char>>)
    ensures
        tally(m, a + b) == tally(tally(m, a), b),
    decreases b.len(),
{
    if b.len() == 0 {
        assert(a + b =~= a);
    } else {
        assert((a + b).drop_last() =~= a + b.drop_last());
        lemma_tally_concat(m, a, b.drop_last());
    }
}

/// Counting into existing counts is merging them with a count from empty.
pub proof fn lemma_tally_is_merge(m: Map<Seq<char>, nat>, words: Seq<Seq<char>>)
    ensures
        tally(m, words) == merge_counts(m, tally(Map::empty(), words)),
{
    let e = Map::<Seq<char>, nat>::empty();
    let left = tally(m, words);
    let right = merge_counts(m, tally(e, words));
    assert forall|w: Seq<char>| #[trigger] left.contains_key(w) == right.contains_key(w) by {
        lemma_tally_counts(m, words, w);
        lemma_tally_counts(e, words, w);
    }
    assert forall|w: Seq<char>| left.contains_key(w) implies #[trigger] left[w] == right[w] by {
        lemma_tally_counts(m, words, w);
        lemma_tally_counts(e, words, w);
    }
    assert(tally(m, words) =~= merge_counts(m, tally(e, words)));
}

/// Merging counts does not depend on the order of the two.
pub proof fn lemma_merge_commutative(a: Map<Seq<char>, nat>, b: Map<Seq<char>, nat>)
    ensures
        merge_counts(a, b) == merge_counts(b, a),
{
    assert(merge_counts(a, b) =~= merge_counts(b, a));
}

/// Merging counts does not depend on how they are grouped.
pub proof fn lemma_merge_associative(
    a: Map<Seq<char>, nat>,
    b: Map<Seq<char>, nat>,
    c: Map<Seq<char>, nat>,
)
    ensures
        merge_counts(merge_counts(a, b), c) == merge_counts(a, merge_counts(b, c)),
{
    assert(merge_counts(merge_counts(a, b), c) =~= merge_counts(a, merge_counts(b, c)));
}

/// Merging with empty counts changes nothing.
pub proof fn lemma_merge_empty(a: Map<Seq<char>, nat>)
    ensures
        merge_counts(a, Map::empty()) == a,
        merge_counts(Map::empty(), a) == a,
{
    assert(merge_counts(a, Map::empty()) =~= a);
    assert(merge_counts(Map::empty(), a) =~= a);
}

/// A dropped token leaves no word, so there are no more words than tokens.
pub proof fn lemma_words_len(
    tokens: Seq<Seq<char>>,
    noise: Seq<Seq<char>>,
    synonyms: Map<Seq<char>, Seq<char>>,
)
    ensures
        words_of_tokens(tokens, noise, synonyms).len() <= tokens.len(),
    decreases tokens.len(),
{
    if tokens.len() > 0 {
        lemma_words_len(tokens.drop_last(), noise, synonyms);
    }
}

/// Whether `token` is counted, and counted as `w`: stripped, it has two
/// characters or more, is no number, and in lower case is no noise word;
/// `w` is the canonical form of that lower-case word.
pub open spec fn counted_as(
    token: Seq<char>,
    noise: Seq<Seq<char>>,
    synonyms: Map<Seq<char>, Seq<char>>,
    w: Seq<char>,
) -> bool {
    let t = strip_token(token);
    &&& t.len() >= 2
    &&& !all_digits(t)
    &&& !noise.contains(lowercase_of(t))
    &&& w == canonical_form(synonyms, lowercase_of(t))
}

/// Every word that is counted comes from a token that passed the filters:
/// short tokens, numbers and noise words are never counted. Where no
/// synonym is bound to a noise word, no counted word is a noise word.
pub proof fn lemma_counted_words_pass_filters(
    tokens: Seq<Seq<char>>,
    noise: Seq<Seq<char>>,
    synonyms: Map<Seq<char>, Seq<char>>,
    w: Seq<char>,
)
    requires
        words_of_tokens(tokens, noise, synonyms).contains(w),
    ensures
        exists|i: int| 0 <= i < tokens.len() && counted_as(#[trigger] tokens[i], noise, synonyms, w),
        (forall|k: Seq<char>| #[trigger]
            synonyms.contains_key(k) ==> !noise.contains(synonyms[k])) ==> !noise.contains(w),
    decreases tokens.len(),
{
    let words = words_of_tokens(tokens, noise, synonyms);
    let i = choose|i: int| 0 <= i < words.len() && words[i] == w;
    if tokens.len() > 0 {
        let prev = words_of_tokens(tokens.drop_last(), noise, synonyms);
        if i < prev.len() {
            assert(prev[i] == w);
            lemma_counted_words_pass_filters(tokens.drop_last(), noise, synonyms, w);
            let j = choose|j: int|
                0 <= j < tokens.drop_last().len() && counted_as(
                    #[trigger] tokens.drop_last()[j],
                    noise,
                    synonyms,
                    w,
                );
            assert(counted_as(tokens[j], noise, synonyms, w));
        } else {
            assert(counted_as(tokens[tokens.len() - 1], noise, synonyms, w));
        }
    }
}

/// The words that a document is counted as: those of its lines, in order.
pub open spec fn words_of_lines(
    lines: Seq<Seq<char>>,
    seps: Seq<char>,
    noise: Seq<Seq<char>>,
    synonyms: Map<Seq<char>, Seq<char>>,
) -> Seq<Seq<char>>
    decreases lines.len(),
{
    if lines.len() == 0 {
        Seq::<Seq<char>>::empty()
    } else {
        words_of_lines(lines.drop_last(), seps, noise, synonyms) + line_words(
            lines.last(),
            seps,
            noise,
            synonyms,
        )
    }
}

/// The words of the lines that `assign` gives to worker `j`, in order.
pub open spec fn share_words(
    lines: Seq<Seq<char>>,
    assign: spec_fn(int) -> int,
    j: int,
    seps: Seq<char>,
    noise: Seq<Seq<char>>,
    synonyms: Map<Seq<char>, Seq<char>>,
) -> Seq<Seq<char>>
    decreases lines.len(),
{
    if lines.len() == 0 {
        Seq::<Seq<char>>::empty()
    } else {
        let prev = share_words(lines.drop_last(), assign, j, seps, noise, synonyms);
        if assign(lines.len() - 1) == j {
            prev + line_words(lines.last(), seps, noise, synonyms)
        } else {
            prev
        }
    }
}

/// The counts that each of `n` workers ends with under `assign`.
pub open spec fn shares(
    lines: Seq<Seq<char>>,
    assign: spec_fn(int) -> int,
    n: nat,
    seps: Seq<char>,
    noise: Seq<Seq<char>>,
    synonyms: Map<Seq<char>, Seq<char>>,
) -> Seq<Map<Seq<char>, nat>> {
    Seq::new(
        n,
        |j: int| tally(Map::empty(), share_words(lines, assign, j, seps, noise, synonyms)),
    )
}

/// All the counts of `parts` merged, from the first to the last.
pub open spec fn merge_all(parts: Seq<Map<Seq<char>, nat>>) -> Map<Seq<char>, nat>
    decreases parts.len(),
{
    if parts.len() == 0 {
        Map::empty()
    } else {
        merge_counts(merge_all(parts.drop_last()), parts.last())
    }
}

/// Merging more counts into one of the parts is merging them into the whole.
pub proof fn lemma_merge_all_update(
    parts: Seq<Map<Seq<char>, nat>>,
    j: int,
    x: Map<Seq<char>, nat>,
)
    requires
        0 <= j < parts.len(),
    ensures
        merge_all(parts.update(j, merge_counts(parts[j], x))) == merge_counts(merge_all(parts), x),
    decreases parts.len(),
{
    let upd = parts.update(j, merge_counts(parts[j], x));
    let rest = merge_all(parts.drop_last());
    if j == parts.len() - 1 {
        assert(upd.drop_last() =~= parts.drop_last());
        assert(merge_counts(rest, merge_counts(parts[j], x)) =~= merge_counts(
            merge_counts(rest, parts[j]),
            x,
        ));
    } else {
        assert(upd.drop_last() =~= parts.drop_last().update(
            j,
            merge_counts(parts.drop_last()[j], x),
        ));
        lemma_merge_all_update(parts.drop_last(), j, x);
        assert(merge_counts(merge_counts(rest, x), parts.last()) =~= merge_counts(
            merge_counts(rest, parts.last()),
            x,
        ));
    }
}

/// A word's count in the merge of the first `k` parts is at most its count
/// in the merge of them all.
pub proof fn lemma_merge_all_prefix(parts: Seq<Map<Seq<char>, nat>>, k: int, w: Seq<char>)
    requires
        0 <= k <= parts.len(),
    ensures
        count_of(merge_all(parts.take(k)), w) <= count_of(merge_all(parts), w),
    decreases parts.len(),
{
    if k == parts.len() {
        assert(parts.take(k) =~= parts);
    } else {
        assert(parts.take(k) =~= parts.drop_last().take(k));
        lemma_merge_all_prefix(parts.drop_last(), k, w);
    }
}

/// However the lines of a document are dealt out to one or more workers,
/// the merged counts of the workers are the counts of the whole document.
pub proof fn lemma_partition_independent(
    lines: Seq<Seq<char>>,
    assign: spec_fn(int) -> int,
    n: nat,
    seps: Seq<char>,
    noise: Seq<Seq<char>>,
    synonyms: Map<Seq<char>, Seq<char>>,
)
    requires
        n >= 1,
        forall|i: int| 0 <= i < lines.len() ==> 0 <= #[trigger] assign(i) < n,
    ensures
        merge_all(shares(lines, assign, n, seps, noise, synonyms)) == tally(
            Map::empty(),
            words_of_lines(lines, seps, noise, synonyms),
        ),
    decreases lines.len(),
{
    let e = Map::<Seq<char>, nat>::empty();
    let now = shares(lines, assign, n, seps, noise, synonyms);
    if lines.len() == 0 {
        lemma_merge_all_empty(now);
    } else {
        let rest = lines.drop_last();
        let before = shares(rest, assign, n, seps, noise, synonyms);
        let a = assign(lines.len() - 1);
        let lw = line_words(lines.last(), seps, noise, synonyms);
        let x = tally(e, lw);
        lemma_partition_independent(rest, assign, n, seps, noise, synonyms);
        lemma_tally_concat(e, share_words(rest, assign, a, seps, noise, synonyms), lw);
        lemma_tally_is_merge(before[a], lw);
        assert(now =~= before.update(a, merge_counts(before[a], x)));
        lemma_merge_all_update(before, a, x);
        lemma_tally_concat(e, words_of_lines(rest, seps, noise, synonyms), lw);
        lemma_tally_is_merge(merge_all(before), lw);
    }
}

/// Parts that are all empty merge to empty counts.
pub proof fn lemma_merge_all_empty(parts: Seq<Map<Seq<char>, nat>>)
    requires
        forall|j: int| 0 <= j < parts.len() ==> parts[j] == Map::<Seq<char>, nat>::empty(),
    ensures
        merge_all(parts) == Map::<Seq<char>, nat>::empty(),
    decreases parts.len(),
{
    if parts.len() > 0 {
        lemma_merge_all_empty(parts.drop_last());
        lemma_merge_empty(Map::empty());
    }
}

/// The size of a text: its characters, and one more for each line.
pub open spec fn text_size(lines: Seq<Seq<char>>) -> nat
    decreases lines.len(),
{
    if lines.len() == 0 {
        0
    } else {
        text_size(lines.drop_last()) + lines.last().len() + 1
    }
}

/// A text is at least as large as any of its beginnings, and has no more
/// lines than its size.
pub proof fn lemma_text_size_take(lines: Seq<Seq<char>>, i: int)
    requires
        0 <= i <= lines.len(),
    ensures
        text_size(lines.take(i)) <= text_size(lines),
        lines.len() <= text_size(lines),
    decreases lines.len(),
{
    if lines.len() > 0 {
        lemma_text_size_take(lines.drop_last(), if i < lines.len() { i } else { 0 });
        if i < lines.len() {
            assert(lines.take(i) =~= lines.drop_last().take(i));
        } else {
            assert(lines.take(i) =~= lines);
        }
    } else {
        assert(lines.take(i) =~= lines);
    }
}

/// A text has no more words than its size, in whole and in every share.
pub proof fn lemma_words_within_size(
    lines: Seq<Seq<char>>,
    assign: spec_fn(int) -> int,
    j: int,
    seps: Seq<char>,
    noise: Seq<Seq<char>>,
    synonyms: Map<Seq<char>, Seq<char>>,
)
    ensures
        words_of_lines(lines, seps, noise, synonyms).len() <= text_size(lines),
        share_words(lines, assign, j, seps, noise, synonyms).len() <= text_size(lines),
    decreases lines.len(),
{
    if lines.len() > 0 {
        lemma_words_within_size(lines.drop_last(), assign, j, seps, noise, synonyms);
        lemma_split_len(lines.last(), seps);
        lemma_words_len(split_tokens(lines.last(), seps), noise, synonyms);
    }
}

/// Every key of a document's counts comes from a token of one of its
/// lines that passed the filters: short tokens, numbers and noise words
/// never become keys. Where no synonym is bound to a noise word, no key is
/// a noise word.
pub proof fn lemma_keys_pass_filters(
    lines: Seq<Seq<char>>,
    seps: Seq<char>,
    noise: Seq<Seq<char>>,
    synonyms: Map<Seq<char>, Seq<char>>,
    w: Seq<char>,
)
    requires
        tally(Map::empty(), words_of_lines(lines, seps, noise, synonyms)).contains_key(w),
    ensures
        exists|i: int, j: int|
            0 <= i < lines.len() && 0 <= j < split_tokens(lines[i], seps).len() && counted_as(
                #[trigger] split_tokens(lines[i], seps)[j],
                noise,
                synonyms,
                w,
            ),
        (forall|k: Seq<char>| #[trigger]
            synonyms.contains_key(k) ==> !noise.contains(synonyms[k])) ==> !noise.contains(w),
{
    lemma_tally_counts(Map::empty(), words_of_lines(lines, seps, noise, synonyms), w);
    lemma_line_of_word(lines, seps, noise, synonyms, w);
    let i = choose|i: int|
        0 <= i < lines.len() && (#[trigger] line_words(lines[i], seps, noise, synonyms)).contains(w);
    lemma_counted_words_pass_filters(split_tokens(lines[i], seps), noise, synonyms, w);
    let j = choose|j: int|
        0 <= j < split_tokens(lines[i], seps).len() && counted_as(
            #[trigger] split_tokens(lines[i], seps)[j],
            noise,
            synonyms,
            w,
        );
    assert(counted_as(split_tokens(lines[i], seps)[j], noise, synonyms, w));
}

/// A word of a document is a word of one of its lines.
pub proof fn lemma_line_of_word(
    lines: Seq<Seq<char>>,
    seps: Seq<char>,
    noise: Seq<Seq<char>>,
    synonyms: Map<Seq<char>, Seq<char>>,
    w: Seq<char>,
)
    requires
        words_of_lines(lines, seps, noise, synonyms).contains(w),
    ensures
        exists|i: int|
            0 <= i < lines.len() && (#[trigger] line_words(lines[i], seps, noise, synonyms)).contains(
                w,
            ),
    decreases lines.len(),
{
    let all = words_of_lines(lines, seps, noise, synonyms);
    let t = choose|t: int| 0 <= t < all.len() && all[t] == w;
    if lines.len() > 0 {
        let rest = words_of_lines(lines.drop_last(), seps, noise, synonyms);
        let last = line_words(lines.last(), seps, noise, synonyms);
        if t < rest.len() {
            assert(rest[t] == w);
            lemma_line_of_word(lines.drop_last(), seps, noise, synonyms, w);
            let i = choose|i: int|
                0 <= i < lines.drop_last().len() && (#[trigger] line_words(
                    lines.drop_last()[i],
                    seps,
                    noise,
                    synonyms,
                )).contains(w);
            assert(line_words(lines[i], seps, noise, synonyms).contains(w));
        } else {
            assert(last[t - rest.len()] == w);
            assert(line_words(lines[lines.len() - 1], seps, noise, synonyms).contains(w));
        }
    }
}

} // verus!
