//! The line accumulator: a counter of the words of the lines it is given.

use crate::collapser::{canonical_form, Collapser};
use crate::model::{
    bump, count_of, countable, counted_as, is_lead, lemma_counted_words_pass_filters,
    lemma_split_len, lemma_tally_counts, line_words, lowered_word, merge_counts, split_tokens,
    strip_token, tally, token_word, words_of_tokens,
};
use crate::rules::{
    lemma_le_antisymmetric, lemma_le_total, lemma_le_transitive, sorted_words, word_before, word_le,
};
use crate::table::WordTable;
use crate::text::{chars_of, digits_only, lowercase, string_of, string_views};
use std::sync::Arc;
use vstd::prelude::*;

verus! {

/// The tokens as sequences of characters.
pub open spec fn token_views(tokens: Seq<Vec<char>>) -> Seq<Seq<char>> {
    Seq::new(tokens.len(), |i: int| tokens[i]@)
}

/// The counts `a`, with the counts of `b` added for the words in `keys`.
pub open spec fn partial_merge(
    a: Map<Seq<char>, nat>,
    b: Map<Seq<char>, nat>,
    keys: Seq<Seq<char>>,
) -> Map<Seq<char>, nat> {
    Map::new(
        |w: Seq<char>| a.contains_key(w) || keys.contains(w),
        |w: Seq<char>|
            count_of(a, w) + (if keys.contains(w) {
                count_of(b, w)
            } else {
                0
            }),
    )
}

/// Counts the words of lines, under shared and unchanging rules: the
/// separators, the noise words and the synonym table.
pub struct WordCounter {
    hm: WordTable<u64>,
    separators: Arc<Vec<char>>,
    noise_words: Arc<Vec<String>>,
    collapser: Arc<Collapser>,
    rows_processed: u64,
}

impl WordCounter {
    /// The counts, as a map from each counted word to its count.
    pub closed spec fn view(&self) -> Map<Seq<char>, nat> {
        Map::new(|k: Seq<char>| self.hm@.contains_key(k), |k: Seq<char>| self.hm@[k] as nat)
    }

    /// The counted words in the order in which they were first counted.
    pub closed spec fn order(&self) -> Seq<Seq<char>> {
        self.hm.order()
    }

    /// The separator characters.
    pub closed spec fn seps(&self) -> Seq<char> {
        self.separators@
    }

    /// The noise words.
    pub closed spec fn noise(&self) -> Seq<Seq<char>> {
        string_views(self.noise_words@)
    }

    /// The synonym map.
    pub closed spec fn synonyms(&self) -> Map<Seq<char>, Seq<char>> {
        self.collapser@
    }

    /// The number of lines processed.
    pub closed spec fn rows(&self) -> nat {
        self.rows_processed as nat
    }

    /// The counter's table and its synonym table are well formed, and the
    /// noise words stand in ascending order.
    pub closed spec fn wf(&self) -> bool {
        &&& self.hm.wf()
        &&& self.collapser.wf()
        &&& sorted_words(self.noise())
    }

    /// Two counters work under the same rules.
    pub open spec fn same_rules(&self, other: &WordCounter) -> bool {
        &&& self.seps() == other.seps()
        &&& self.noise() == other.noise()
        &&& self.synonyms() == other.synonyms()
    }

    /// The counted words are the keys of the counts, each listed once.
    pub proof fn lemma_order(&self)
        requires
            self.wf(),
        ensures
            self.order().no_duplicates(),
            forall|w: Seq<char>| self@.contains_key(w) <==> #[trigger] self.order().contains(w),
            self@.dom().finite(),
            self@.dom().len() == self.order().len(),
    {
        self.order().unique_seq_to_set();
        vstd::seq_lib::seq_to_set_is_finite(self.order());
        assert(self@.dom() =~= self.order().to_set());
    }

    /// A counter that has counted nothing.
    pub fn new(
        separators: Arc<Vec<char>>,
        noise_words: Arc<Vec<String>>,
        collapser: Arc<Collapser>,
    ) -> (wc: WordCounter)
        requires
            collapser.wf(),
            sorted_words(string_views(noise_words@)),
        ensures
            wc.wf(),
            wc@ == Map::<Seq<char>, nat>::empty(),
            wc.order() == Seq::<Seq<char>>::empty(),
            wc.rows() == 0,
            wc.seps() == separators@,
            wc.noise() == string_views(noise_words@),
            wc.synonyms() == collapser@,
    {
        let wc = WordCounter {
            hm: WordTable::new(),
            separators: separators,
            noise_words: noise_words,
            rows_processed: 0u64,
            collapser: collapser,
        };
        assert(wc@ =~= Map::<Seq<char>, nat>::empty());
        wc
    }

    /// The number of lines processed so far.
    pub fn rows_processed(&self) -> (n: u64)
        ensures
            n == self.rows(),
    {
        self.rows_processed
    }

    /// The number of distinct words counted.
    pub fn len(&self) -> (n: usize)
        requires
            self.wf(),
        ensures
            n == self.order().len(),
            n == self@.dom().len(),
    {
        proof {
            self.lemma_order();
        }
        self.hm.len()
    }

    /// The count of `word`: zero where it was never counted.
    pub fn count(&self, word: &str) -> (n: u64)
        ensures
            n == count_of(self@, word@),
    {
        match self.hm.get(word) {
            Some(n) => n,
            None => 0,
        }
    }

    /// The word that was counted `i`-th for the first time.
    pub fn word_at(&self, i: usize) -> (w: &String)
        requires
            self.wf(),
            i < self.order().len(),
        ensures
            w@ == self.order()[i as int],
            self@.contains_key(w@),
    {
        let w = self.hm.key_at(i);
        assert(self.hm.order().contains(self.hm.order()[i as int]));
        w
    }

    /// Whether `c` is one of the separators.
    pub fn is_separator(&self, c: char) -> (b: bool)
        ensures
            b == self.seps().contains(c),
    {
        let mut i: usize = 0;
        while i < self.separators.len()
            invariant
                i <= self.separators@.len(),
                forall|j: int| 0 <= j < i ==> self.separators@[j] != c,
            decreases self.separators@.len() - i,
        {
            if self.separators[i] == c {
                return true;
            }
            i += 1;
        }
        false
    }

    /// Whether `word` is one of the noise words, letter for letter. The
    /// ascending noise words are searched by halving.
    pub fn is_noise(&self, word: &String) -> (b: bool)
        requires
            self.wf(),
        ensures
            b == self.noise().contains(word@),
    {
        let chars = chars_of(word.as_str());
        let mut lo: usize = 0;
        let mut hi: usize = self.noise_words.len();
        while lo < hi
            invariant
                lo <= hi <= self.noise().len(),
                self.noise().len() == self.noise_words@.len(),
                self.noise() == string_views(self.noise_words@),
                chars@ == word@,
                sorted_words(self.noise()),
                forall|t: int| 0 <= t < lo ==> !word_le(word@, #[trigger] self.noise()[t]),
                forall|t: int|
                    hi <= t < self.noise().len() ==> !word_le(#[trigger] self.noise()[t], word@),
            decreases hi - lo,
        {
            let mid = lo + (hi - lo) / 2;
            let here = chars_of(self.noise_words[mid].as_str());
            assert(here@ == self.noise()[mid as int]);
            let not_after = word_before(&here, &chars);
            let not_before = word_before(&chars, &here);
            if not_after && not_before {
                proof {
                    lemma_le_antisymmetric(here@, chars@, 0);
                }
                return true;
            }
            if not_after {
                assert forall|t: int| 0 <= t < mid + 1 implies !word_le(
                    word@,
                    #[trigger] self.noise()[t],
                ) by {
                    if word_le(word@, self.noise()[t]) {
                        if t < mid {
                            assert(word_le(self.noise()[t], self.noise()[mid as int]));
                            lemma_le_transitive(word@, self.noise()[t], here@, 0);
                        }
                    }
                }
                lo = mid + 1;
            } else {
                assert forall|t: int| mid <= t < self.noise().len() implies !word_le(
                    #[trigger] self.noise()[t],
                    word@,
                ) by {
                    if word_le(self.noise()[t], word@) {
                        if t > mid {
                            assert(word_le(self.noise()[mid as int], self.noise()[t]));
                            lemma_le_transitive(here@, self.noise()[t], word@, 0);
                        }
                    }
                }
                hi = mid;
            }
        }
        proof {
            lemma_le_total(word@, word@, 0);
        }
        false
    }

    /// Splits a line at every separator.
    pub fn split(&self, s: &str) -> (tokens: Vec<Vec<char>>)
        ensures
            token_views(tokens@) == split_tokens(s@, self.seps()),
    {
        let chars = chars_of(s);
        let mut done: Vec<Vec<char>> = Vec::new();
        let mut cur: Vec<char> = Vec::new();
        let mut i: usize = 0;
        assert(chars@.take(0) =~= Seq::<char>::empty());
        assert(token_views(done@).push(cur@) =~= seq![Seq::<char>::empty()]);
        while i < chars.len()
            invariant
                i <= chars@.len(),
                split_tokens(chars@.take(i as int), self.seps()) == token_views(done@).push(cur@),
            decreases chars@.len() - i,
        {
            let c = chars[i];
            let ghost prev = token_views(done@).push(cur@);
            let ghost before = cur@;
            assert(chars@.take(i + 1).drop_last() =~= chars@.take(i as int));
            assert(chars@.take(i + 1).last() == c);
            if self.is_separator(c) {
                done.push(cur);
                cur = Vec::new();
                assert(token_views(done@).push(cur@) =~= prev.push(Seq::<char>::empty()));
            } else {
                cur.push(c);
                assert(token_views(done@).push(cur@) =~= prev.drop_last().push(
                    prev.last().push(c),
                ));
            }
            i += 1;
        }
        assert(chars@.take(i as int) =~= chars@);
        let ghost prev = token_views(done@).push(cur@);
        done.push(cur);
        assert(token_views(done@) =~= prev);
        done
    }

    /// The stripped token, where it is kept: two characters or more, not
    /// all of them digits.
    pub fn countable_part(token: &Vec<char>) -> (r: Option<String>)
        ensures
            match r {
                Some(s) => countable(strip_token(token@)) && s@ == strip_token(token@),
                None => !countable(strip_token(token@)),
            },
    {
        let mut from: usize = 0;
        let mut to: usize = token.len();
        if to > 0 && (token[0] == '\t' || token[0] == '\r' || token[0] == '\n') {
            from = 1;
        }
        let ghost a = token@.subrange(from as int, to as int);
        assert(a =~= if token@.len() > 0 && is_lead(token@[0]) {
            token@.subrange(1, token@.len() as int)
        } else {
            token@
        });
        if to - from >= 2 && token[to - 2] == '\r' && token[to - 1] == '\n' {
            to = to - 2;
            assert(token@.subrange(from as int, to as int) =~= a.subrange(0, a.len() - 2));
        }
        assert(token@.subrange(from as int, to as int) == strip_token(token@));
        if to - from < 2 {
            return None;
        }
        if digits_only(token, from, to) {
            return None;
        }
        Some(string_of(token, from, to))
    }

    /// Adds `count` to the count of `word`. No count ever decreases, and a
    /// word not yet counted starts at `count`.
    pub fn register_word(&mut self, word: String, count: u64)
        requires
            old(self).wf(),
            count_of(old(self)@, word@) + count <= u64::MAX,
        ensures
            final(self).wf(),
            final(self)@ == bump(old(self)@, word@, count as nat),
            forall|w: Seq<char>| count_of(final(self)@, w) >= count_of(old(self)@, w),
            !old(self)@.contains_key(word@) ==> final(self)@[word@] == count,
            final(self).order() == (if old(self)@.contains_key(word@) {
                old(self).order()
            } else {
                old(self).order().push(word@)
            }),
            final(self).rows() == old(self).rows(),
            final(self).same_rules(old(self)),
    {
        let value = match self.hm.get(word.as_str()) {
            None => 0u64,
            Some(num) => num,
        };
        self.hm.insert(word, value + count);
        assert(self@ =~= bump(old(self)@, word@, count as nat));
    }

    /// Counts a lower-cased token, unless it is a noise word: under its
    /// canonical word where it is a synonym, else as it stands.
    pub fn count_lowered(&mut self, lowered: String)
        requires
            old(self).wf(),
            forall|w: Seq<char>| count_of(old(self)@, w) < u64::MAX,
        ensures
            final(self).wf(),
            final(self)@ == (match lowered_word(
                lowered@,
                old(self).noise(),
                old(self).synonyms(),
            ) {
                Some(w) => bump(old(self)@, w, 1),
                None => old(self)@,
            }),
            !old(self).noise().contains(lowered@) ==> final(self)@.contains_key(
                canonical_form(old(self).synonyms(), lowered@),
            ),
            final(self).rows() == old(self).rows(),
            final(self).same_rules(old(self)),
    {
        if !self.is_noise(&lowered) {
            let word = self.collapser.canonical(lowered);
            self.register_word(word, 1u64);
        }
    }

    /// Counts one token of a line, if it is to be counted.
    pub fn process_token(&mut self, token: &Vec<char>)
        requires
            old(self).wf(),
            forall|w: Seq<char>| count_of(old(self)@, w) < u64::MAX,
        ensures
            final(self).wf(),
            final(self)@ == (match token_word(token@, old(self).noise(), old(self).synonyms()) {
                Some(w) => bump(old(self)@, w, 1),
                None => old(self)@,
            }),
            final(self).rows() == old(self).rows(),
            final(self).same_rules(old(self)),
    {
        match Self::countable_part(token) {
            Some(kept) => {
                let toc = lowercase(kept.as_str());
                self.count_lowered(toc);
            },
            None => {},
        }
    }

    /// Counts the words of one line: the line is split at the separators;
    /// each token is stripped, dropped where it is short, a number or a
    /// noise word, and counted under its canonical lower-case form.
    pub fn process_line(&mut self, s: &str)
        requires
            old(self).wf(),
            old(self).rows() < u64::MAX,
            forall|w: Seq<char>| count_of(old(self)@, w) + s@.len() < u64::MAX,
        ensures
            final(self).wf(),
            final(self)@ == tally(
                old(self)@,
                line_words(s@, old(self).seps(), old(self).noise(), old(self).synonyms()),
            ),
            forall|w: Seq<char>| #[trigger]
                final(self)@.contains_key(w) && !old(self)@.contains_key(w) ==> exists|i: int|
                    0 <= i < split_tokens(s@, old(self).seps()).len() && counted_as(
                        #[trigger] split_tokens(s@, old(self).seps())[i],
                        old(self).noise(),
                        old(self).synonyms(),
                        w,
                    ),
            final(self).rows() == old(self).rows() + 1,
            final(self).same_rules(old(self)),
    {
        self.rows_processed += 1u64;
        assert(self@ == old(self)@);
        let tokens = self.split(s);
        proof {
            lemma_split_len(s@, self.seps());
        }
        let ghost toks = token_views(tokens@);
        let mut k: usize = 0;
        assert(toks.take(0) =~= Seq::<Seq<char>>::empty());
        while k < tokens.len()
            invariant
                k <= tokens@.len(),
                toks == token_views(tokens@),
                toks.len() <= s@.len() + 1,
                self.wf(),
                self.same_rules(old(self)),
                self.rows() == old(self).rows() + 1,
                self@ == tally(
                    old(self)@,
                    words_of_tokens(toks.take(k as int), old(self).noise(), old(self).synonyms()),
                ),
                forall|w: Seq<char>| count_of(self@, w) <= count_of(old(self)@, w) + k,
                forall|w: Seq<char>| count_of(old(self)@, w) + s@.len() < u64::MAX,
            decreases tokens@.len() - k,
        {
            assert(toks.take(k + 1).drop_last() =~= toks.take(k as int));
            assert(toks.take(k + 1).last() == tokens@[k as int]@);
            let ghost before = self@;
            assert forall|w: Seq<char>| count_of(self@, w) < u64::MAX by {
                assert(count_of(self@, w) <= count_of(old(self)@, w) + k);
                assert(count_of(old(self)@, w) + s@.len() < u64::MAX);
            }
            self.process_token(&tokens[k]);
            proof {
                let noise = old(self).noise();
                let syn = old(self).synonyms();
                let counted = words_of_tokens(toks.take(k as int), noise, syn);
                match token_word(tokens@[k as int]@, noise, syn) {
                    Some(w) => {
                        assert(counted.push(w).drop_last() =~= counted);
                    },
                    None => {},
                }
            }
            assert forall|w: Seq<char>| count_of(self@, w) <= count_of(old(self)@, w) + k + 1 by {
                assert(count_of(before, w) <= count_of(old(self)@, w) + k);
            }
            k += 1;
        }
        assert(toks.take(k as int) =~= toks);
        proof {
            let noise = old(self).noise();
            let syn = old(self).synonyms();
            assert forall|w: Seq<char>| #[trigger]
                self@.contains_key(w) && !old(self)@.contains_key(w) implies exists|i: int|
                0 <= i < toks.len() && counted_as(#[trigger] toks[i], noise, syn, w) by {
                lemma_tally_counts(old(self)@, words_of_tokens(toks, noise, syn), w);
                lemma_counted_words_pass_filters(toks, noise, syn, w);
            }
        }
    }

    /// Adds every count of `other` to the count of the same word here.
    pub fn merge(&mut self, other: &WordCounter)
        requires
            old(self).wf(),
            other.wf(),
            forall|w: Seq<char>| count_of(old(self)@, w) + count_of(other@, w) <= u64::MAX,
        ensures
            final(self).wf(),
            final(self)@ == merge_counts(old(self)@, other@),
            final(self).rows() == old(self).rows(),
            final(self).same_rules(old(self)),
    {
        let n = other.hm.len();
        let mut i: usize = 0;
        assert(self@ =~= partial_merge(old(self)@, other@, other.order().take(0)));
        while i < n
            invariant
                i <= n,
                n == other.order().len(),
                other.wf(),
                self.wf(),
                self.same_rules(old(self)),
                self.rows() == old(self).rows(),
                self@ == partial_merge(old(self)@, other@, other.order().take(i as int)),
                forall|w: Seq<char>| count_of(old(self)@, w) + count_of(other@, w) <= u64::MAX,
            decreases n - i,
        {
            let key = other.hm.key_at(i);
            let ghost keys = other.order().take(i as int);
            let ghost next = other.order().take(i + 1);
            assert(other.order().contains(key@)) by {
                assert(other.order()[i as int] == key@);
            }
            assert(!keys.contains(key@)) by {
                if keys.contains(key@) {
                    let j = choose|j: int| 0 <= j < keys.len() && keys[j] == key@;
                    assert(other.order()[j] == other.order()[i as int]);
                }
            }
            assert(next =~= keys.push(key@));
            assert forall|w: Seq<char>| #[trigger] next.contains(w) <==> (keys.contains(w) || w
                == key@) by {
                if keys.contains(w) {
                    let j = choose|j: int| 0 <= j < keys.len() && keys[j] == w;
                    assert(next[j] == w);
                }
                if w == key@ {
                    assert(next[i as int] == w);
                }
            }
            let val = other.count(key.as_str());
            assert(count_of(self@, key@) == count_of(old(self)@, key@));
            self.register_word(key.clone(), val);
            assert(self@ =~= partial_merge(old(self)@, other@, next));
            i += 1;
        }
        assert(other.order().take(n as int) =~= other.order());
        assert(self@ =~= merge_counts(old(self)@, other@));
    }
}

} // verus!
