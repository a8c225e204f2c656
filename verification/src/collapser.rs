//! The synonym table: which words are folded into which canonical word.

use crate::errors::LoadFromFileError;
use crate::records::{
    all_records, find_field_end, lemma_record_line, plain, record_line, record_of, table_of,
    trim_bounds,
};
use crate::table::WordTable;
use crate::text::{chars_of, push_char, push_text, string_of, string_views};
use vstd::prelude::*;

verus! {

/// The word that `w` stands for under the synonym map `m`: its canonical
/// word where `w` is a known synonym, and `w` itself where it is not.
pub open spec fn canonical_form(m: Map<Seq<char>, Seq<char>>, w: Seq<char>) -> Seq<char> {
    if m.contains_key(w) {
        m[w]
    } else {
        w
    }
}

/// Collapsing twice gives what collapsing once gives, for every word whose
/// canonical word is not in turn bound to a different canonical word.
pub proof fn lemma_collapse_idempotent(m: Map<Seq<char>, Seq<char>>, w: Seq<char>)
    requires
        m.contains_key(w) ==> canonical_form(m, m[w]) == m[w],
    ensures
        canonical_form(m, canonical_form(m, w)) == canonical_form(m, w),
{
}

/// The record lines of the synonyms `keys` under the synonym map `m`.
pub open spec fn record_lines(keys: Seq<Seq<char>>, m: Map<Seq<char>, Seq<char>>) -> Seq<
    Seq<char>,
> {
    Seq::new(keys.len(), |i: int| record_line(keys[i], m[keys[i]]))
}

/// The record lines of plain words are all records, and build the map
/// that binds each of `keys` as `m` does.
pub proof fn lemma_record_lines(keys: Seq<Seq<char>>, m: Map<Seq<char>, Seq<char>>)
    requires
        forall|i: int| 0 <= i < keys.len() ==> plain(#[trigger] keys[i]) && plain(m[keys[i]]),
    ensures
        all_records(record_lines(keys, m)),
        table_of(record_lines(keys, m)) == Map::new(
            |k: Seq<char>| keys.contains(k),
            |k: Seq<char>| m[k],
        ),
    decreases keys.len(),
{
    let lines = record_lines(keys, m);
    let built = Map::new(|k: Seq<char>| keys.contains(k), |k: Seq<char>| m[k]);
    assert forall|i: int| 0 <= i < lines.len() implies (#[trigger] record_of(lines[i])) is Some by {
        assert(plain(keys[i]));
        lemma_record_line(keys[i], m[keys[i]]);
    }
    if keys.len() == 0 {
        assert(table_of(lines) =~= built);
    } else {
        let rest = keys.drop_last();
        assert forall|i: int| 0 <= i < rest.len() implies plain(#[trigger] rest[i]) && plain(
            m[rest[i]],
        ) by {
            assert(plain(keys[i]));
        }
        lemma_record_lines(rest, m);
        assert(lines.drop_last() =~= record_lines(rest, m));
        assert(plain(keys[keys.len() - 1]));
        lemma_record_line(keys.last(), m[keys.last()]);
        assert forall|k: Seq<char>| keys.contains(k) <==> (rest.contains(k) || k == keys.last()) by {
            if keys.contains(k) {
                let i = choose|i: int| 0 <= i < keys.len() && keys[i] == k;
                if i < rest.len() {
                    assert(rest[i] == k);
                }
            }
            if rest.contains(k) {
                let i = choose|i: int| 0 <= i < rest.len() && rest[i] == k;
                assert(keys[i] == k);
            }
            if k == keys.last() {
                assert(keys[keys.len() - 1] == k);
            }
        }
        assert(table_of(lines) =~= built);
    }
}

/// A table of canonical words and of the synonyms bound to them.
pub struct Collapser {
    std_words: Vec<String>,
    slots: WordTable<usize>,
}

impl Default for Collapser {
    fn default() -> (c: Collapser)
        ensures
            c.wf(),
            c@ == Map::<Seq<char>, Seq<char>>::empty(),
    {
        Collapser::new()
    }
}

impl Collapser {
    /// The canonical words, in the order in which they were first added.
    pub closed spec fn words(&self) -> Seq<Seq<char>> {
        Seq::new(self.std_words@.len(), |i: int| self.std_words@[i]@)
    }

    /// The synonyms, in the order in which they were first bound.
    pub closed spec fn synonyms(&self) -> Seq<Seq<char>> {
        self.slots.order()
    }

    /// The table as a map from each synonym to its canonical word.
    pub closed spec fn view(&self) -> Map<Seq<char>, Seq<char>> {
        Map::new(
            |k: Seq<char>| self.slots@.contains_key(k),
            |k: Seq<char>| self.words()[self.slots@[k] as int],
        )
    }

    /// Every synonym points at an existing canonical word, and is listed once.
    pub closed spec fn wf(&self) -> bool {
        &&& self.slots.wf()
        &&& forall|k: Seq<char>| #[trigger]
            self.slots@.contains_key(k) ==> self.slots@[k] < self.std_words@.len()
    }

    /// The synonyms listed are exactly the keys of the map, each once, and
    /// every canonical word in use is among `words`.
    pub proof fn lemma_wf_facts(&self)
        requires
            self.wf(),
        ensures
            self.synonyms().no_duplicates(),
            forall|k: Seq<char>| self@.contains_key(k) <==> #[trigger] self.synonyms().contains(k),
            forall|k: Seq<char>| #[trigger] self@.contains_key(k) ==> self.words().contains(self@[k]),
    {
        assert forall|k: Seq<char>| #[trigger] self@.contains_key(k) implies self.words().contains(
            self@[k],
        ) by {
            assert(self.slots@.contains_key(k));
            assert(self.words()[self.slots@[k] as int] == self@[k]);
        }
    }

    /// The table in its record format: a line for each synonym, in the
    /// order in which the synonyms were first bound.
    pub open spec fn saved(&self) -> Seq<Seq<char>> {
        record_lines(self.synonyms(), self@)
    }

    /// Saving a table and loading it again gives a table that collapses
    /// every word as the first does, where its words are plain: free of
    /// semicolons, and of white space at either end.
    pub proof fn lemma_round_trip(&self)
        requires
            self.wf(),
            forall|k: Seq<char>| #[trigger] self@.contains_key(k) ==> plain(k) && plain(self@[k]),
        ensures
            all_records(self.saved()),
            table_of(self.saved()) == self@,
    {
        self.lemma_wf_facts();
        let keys = self.synonyms();
        assert forall|i: int| 0 <= i < keys.len() implies plain(#[trigger] keys[i]) && plain(
            self@[keys[i]],
        ) by {
            assert(keys.contains(keys[i]));
        }
        lemma_record_lines(keys, self@);
        assert(self@ =~= Map::new(|k: Seq<char>| keys.contains(k), |k: Seq<char>| self@[k]));
    }

    /// An empty table: no word is a synonym.
    pub fn new() -> (c: Collapser)
        ensures
            c.wf(),
            c@ == Map::<Seq<char>, Seq<char>>::empty(),
            c.words() == Seq::<Seq<char>>::empty(),
            c.synonyms() == Seq::<Seq<char>>::empty(),
    {
        let c = Collapser { std_words: Vec::new(), slots: WordTable::new() };
        assert(c@ =~= Map::<Seq<char>, Seq<char>>::empty());
        assert(c.words() =~= Seq::<Seq<char>>::empty());
        c
    }

    /// The slot of the canonical word `word`, if it has one.
    fn position(&self, word: &String) -> (r: Option<usize>)
        ensures
            match r {
                Some(i) => i < self.words().len() && self.words()[i as int] == word@,
                None => !self.words().contains(word@),
            },
    {
        let mut i: usize = 0;
        while i < self.std_words.len()
            invariant
                i <= self.std_words@.len(),
                forall|j: int| 0 <= j < i ==> self.words()[j] != word@,
            decreases self.std_words@.len() - i,
        {
            if self.std_words[i] == *word {
                return Some(i);
            }
            i += 1;
        }
        None
    }

    /// Binds `synonim` to the canonical word `word`, replacing an earlier
    /// binding of `synonim`. A canonical word that is new gets the next slot.
    pub fn add(&mut self, word: &str, synonim: &str)
        requires
            old(self).wf(),
        ensures
            final(self).wf(),
            final(self)@ == old(self)@.insert(synonim@, word@),
            final(self).words() == (if old(self).words().contains(word@) {
                old(self).words()
            } else {
                old(self).words().push(word@)
            }),
            final(self).synonyms() == (if old(self)@.contains_key(synonim@) {
                old(self).synonyms()
            } else {
                old(self).synonyms().push(synonim@)
            }),
    {
        let ghost before = self.words();
        let owned = word.to_owned();
        let pos = match self.position(&owned) {
            None => {
                self.std_words.push(owned);
                self.std_words.len() - 1
            },
            Some(val) => val,
        };
        assert(self.words() =~= if before.contains(word@) {
            before
        } else {
            before.push(word@)
        });
        assert(forall|i: int| 0 <= i < before.len() ==> self.words()[i] == before[i]);
        self.slots.insert(synonim.to_owned(), pos);
        assert(self@ =~= old(self)@.insert(synonim@, word@));
    }

    /// The table that a sequence of records builds, each line holding a
    /// synonym, a semicolon and the canonical word. Fields are trimmed, and
    /// fields after the second are ignored. A line without a semicolon is
    /// a format error.
    pub fn from_lines(lines: &Vec<String>) -> (r: Result<Collapser, LoadFromFileError>)
        ensures
            match r {
                Ok(c) => all_records(string_views(lines@)) && c.wf() && c@ == table_of(
                    string_views(lines@),
                ),
                Err(LoadFromFileError::FormatError(msg)) => !all_records(string_views(lines@))
                    && msg@ == "Second word not found"@,
                Err(LoadFromFileError::IOError(_)) => false,
            },
    {
        let ghost views = string_views(lines@);
        let mut c = Collapser::new();
        let mut i: usize = 0;
        assert(views.take(0) =~= Seq::<Seq<char>>::empty());
        while i < lines.len()
            invariant
                i <= lines@.len(),
                views == string_views(lines@),
                c.wf(),
                all_records(views.take(i as int)),
                c@ == table_of(views.take(i as int)),
            decreases lines@.len() - i,
        {
            let chars = chars_of(lines[i].as_str());
            assert(chars@ == views[i as int]);
            let a = find_field_end(&chars, 0);
            if a >= chars.len() {
                assert(record_of(views[i as int]) is None);
                return Err(LoadFromFileError::FormatError("Second word not found".to_owned()));
            }
            let b = find_field_end(&chars, a + 1);
            let (s0, s1) = trim_bounds(&chars, 0, a);
            let (w0, w1) = trim_bounds(&chars, a + 1, b);
            let synonym = string_of(&chars, s0, s1);
            let word = string_of(&chars, w0, w1);
            c.add(word.as_str(), synonym.as_str());
            proof {
                let next = views.take(i + 1);
                assert(next.drop_last() =~= views.take(i as int));
                assert(next.last() == views[i as int]);
                assert forall|t: int| 0 <= t < next.len() implies (#[trigger] record_of(
                    next[t],
                )) is Some by {
                    if t < i {
                        assert(views.take(i as int)[t] == next[t]);
                    }
                }
            }
            i += 1;
        }
        assert(views.take(i as int) =~= views);
        Ok(c)
    }

    /// The table in its record format: for each synonym a line that holds
    /// the synonym, a semicolon, its canonical word and a line feed.
    pub fn to_lines(&self) -> (lines: Vec<String>)
        requires
            self.wf(),
        ensures
            string_views(lines@) == self.saved(),
    {
        let mut lines: Vec<String> = Vec::new();
        let n = self.slots.len();
        let mut i: usize = 0;
        while i < n
            invariant
                i <= n,
                n == self.synonyms().len(),
                self.wf(),
                lines@.len() == i,
                forall|t: int|
                    0 <= t < i ==> (#[trigger] lines@[t])@ == record_line(
                        self.synonyms()[t],
                        self@[self.synonyms()[t]],
                    ),
            decreases n - i,
        {
            let synonym = self.slots.key_at(i);
            assert(self.synonyms().contains(self.synonyms()[i as int]));
            let mut s: String = String::new();
            push_text(&mut s, synonym.as_str());
            push_char(&mut s, ';');
            match self.collapse(synonym.as_str()) {
                Some(word) => {
                    push_text(&mut s, word);
                },
                None => {},
            }
            push_char(&mut s, '\n');
            assert(s@ =~= record_line(self.synonyms()[i as int], self@[self.synonyms()[i as int]]));
            lines.push(s);
            i += 1;
        }
        assert(string_views(lines@) =~= self.saved());
        lines
    }

    /// The canonical word of `s` where `s` is a known synonym, else `None`.
    pub fn collapse(&self, s: &str) -> (r: Option<&str>)
        requires
            self.wf(),
        ensures
            match r {
                Some(c) => self@.contains_key(s@) && c@ == self@[s@],
                None => !self@.contains_key(s@),
            },
    {
        match self.slots.get(s) {
            None => None,
            Some(idx) => Some(self.std_words[idx].as_str()),
        }
    }

    /// The word that `word` is counted as: its canonical word, or itself.
    pub fn canonical(&self, word: String) -> (r: String)
        requires
            self.wf(),
        ensures
            r@ == canonical_form(self@, word@),
    {
        match self.collapse(word.as_str()) {
            Some(c) => c.to_owned(),
            None => word,
        }
    }
}

} // verus!
