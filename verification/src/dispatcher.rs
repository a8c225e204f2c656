//! The dispatcher: lines go round-robin to a fixed number of accumulators,
//! whose counts are then merged into one.

use crate::collapser::Collapser;
use crate::model::{
    count_of, lemma_merge_all_prefix, lemma_partition_independent, lemma_tally_concat,
    lemma_tally_counts, lemma_text_size_take, lemma_words_within_size, line_words, merge_all,
    share_words, shares, tally, text_size, words_of_lines,
};
use crate::rules::sorted_words;
use crate::text::string_views;
use crate::word_counter::WordCounter;
use std::sync::Arc;
use vstd::prelude::*;

verus! {

/// `Arc::clone`: one more handle to the same shared value.
#[verifier::external_body]
fn share<T>(a: &Arc<T>) -> (r: Arc<T>)
    ensures
        r == *a,
{
    Arc::clone(a)
}

/// Round-robin: line `i` goes to worker `i mod n`.
pub open spec fn round_robin(n: int) -> spec_fn(int) -> int {
    |i: int| i % n
}

/// The worker that line `line` goes to, of `workers` workers.
pub fn assigned_worker(line: usize, workers: usize) -> (j: usize)
    requires
        workers >= 1,
    ensures
        j == round_robin(workers as int)(line as int),
        j < workers,
{
    line % workers
}

/// The counts of the accumulators as maps.
pub open spec fn counter_views(workers: Seq<WordCounter>) -> Seq<Map<Seq<char>, nat>> {
    Seq::new(workers.len(), |j: int| workers[j]@)
}

/// Counts the words of a document with `workers` accumulators: line `i`
/// goes to accumulator `i mod workers`, and the counts of all accumulators
/// are merged. The result is the count of the whole document, whatever the
/// number of accumulators.
#[verifier::loop_isolation(false)]
pub fn process_document(
    document: &Vec<String>,
    separators: Arc<Vec<char>>,
    noise_words: Arc<Vec<String>>,
    collapser: Arc<Collapser>,
    workers: usize,
) -> (total: WordCounter)
    requires
        workers >= 1,
        collapser.wf(),
        sorted_words(string_views(noise_words@)),
        text_size(string_views(document@)) <= u64::MAX,
    ensures
        total.wf(),
        total@ == tally(
            Map::empty(),
            words_of_lines(
                string_views(document@),
                separators@,
                string_views(noise_words@),
                collapser@,
            ),
        ),
        total@ == merge_all(
            shares(
                string_views(document@),
                round_robin(workers as int),
                workers as nat,
                separators@,
                string_views(noise_words@),
                collapser@,
            ),
        ),
        total.rows() == 0,
        total.seps() == separators@,
        total.noise() == string_views(noise_words@),
        total.synonyms() == collapser@,
{
    let ghost lines = string_views(document@);
    let ghost seps = separators@;
    let ghost noise = string_views(noise_words@);
    let ghost syn = collapser@;
    let ghost assign = round_robin(workers as int);
    let ghost e = Map::<Seq<char>, nat>::empty();
    let mut pool: Vec<WordCounter> = Vec::new();
    let mut j: usize = 0;
    while j < workers
        invariant
            j <= workers,
            pool@.len() == j,
            collapser.wf(),
            seps == separators@,
            noise == string_views(noise_words@),
            syn == collapser@,
            forall|t: int|
                0 <= t < j ==> {
                    &&& (#[trigger] pool@[t]).wf()
                    &&& pool@[t]@ == e
                    &&& pool@[t].rows() == 0
                    &&& pool@[t].seps() == seps
                    &&& pool@[t].noise() == noise
                    &&& pool@[t].synonyms() == syn
                },
        decreases workers - j,
    {
        pool.push(WordCounter::new(share(&separators), share(&noise_words), share(&collapser)));
        j += 1;
    }
    let mut i: usize = 0;
    assert(lines.take(0) =~= Seq::<Seq<char>>::empty());
    while i < document.len()
        invariant
            i <= document@.len(),
            workers >= 1,
            pool@.len() == workers,
            lines == string_views(document@),
            assign == round_robin(workers as int),
            text_size(lines) <= u64::MAX,
            forall|t: int|
                0 <= t < workers ==> {
                    &&& (#[trigger] pool@[t]).wf()
                    &&& pool@[t]@ == tally(
                        e,
                        share_words(lines.take(i as int), assign, t, seps, noise, syn),
                    )
                    &&& pool@[t].rows() <= i
                    &&& pool@[t].seps() == seps
                    &&& pool@[t].noise() == noise
                    &&& pool@[t].synonyms() == syn
                },
        decreases document@.len() - i,
    {
        let a = assigned_worker(i, workers);
        let ghost sofar = lines.take(i as int);
        let ghost next = lines.take(i + 1);
        let ghost mine = share_words(sofar, assign, a as int, seps, noise, syn);
        let ghost lw = line_words(lines[i as int], seps, noise, syn);
        proof {
            assert(next.drop_last() =~= sofar);
            assert(next.last() == lines[i as int]);
            lemma_text_size_take(lines, i + 1);
            lemma_text_size_take(lines, i as int);
            lemma_words_within_size(sofar, assign, a as int, seps, noise, syn);
            assert(text_size(next) == text_size(sofar) + lines[i as int].len() + 1);
            assert(document@[i as int]@ == lines[i as int]);
            assert(pool@[a as int]@ == tally(e, mine));
            assert forall|w: Seq<char>|
                count_of(pool@[a as int]@, w) + document@[i as int]@.len() < u64::MAX by {
                lemma_tally_counts(e, mine, w);
            }
            lemma_tally_concat(e, mine, lw);
        }
        pool[a].process_line(document[i].as_str());
        i += 1;
    }
    assert(lines.take(i as int) =~= lines);
    let ghost parts = shares(lines, assign, workers as nat, seps, noise, syn);
    assert(counter_views(pool@) =~= parts);
    proof {
        lemma_partition_independent(lines, assign, workers as nat, seps, noise, syn);
        lemma_words_within_size(lines, assign, 0, seps, noise, syn);
    }
    let mut total = WordCounter::new(separators, noise_words, collapser);
    let mut k: usize = 0;
    assert(parts.take(0) =~= Seq::<Map<Seq<char>, nat>>::empty());
    while k < workers
        invariant
            k <= workers,
            pool@.len() == workers,
            parts.len() == workers,
            parts == counter_views(pool@),
            forall|t: int| 0 <= t < workers ==> (#[trigger] pool@[t]).wf(),
            total.wf(),
            total@ == merge_all(parts.take(k as int)),
            total.rows() == 0,
            total.seps() == seps,
            total.noise() == noise,
            total.synonyms() == syn,
            merge_all(parts) == tally(e, words_of_lines(lines, seps, noise, syn)),
            words_of_lines(lines, seps, noise, syn).len() <= u64::MAX,
        decreases workers - k,
    {
        proof {
            assert(parts.take(k + 1).drop_last() =~= parts.take(k as int));
            assert(parts.take(k + 1).last() == pool@[k as int]@);
            assert forall|w: Seq<char>|
                count_of(total@, w) + count_of(pool@[k as int]@, w) <= u64::MAX by {
                lemma_merge_all_prefix(parts, k + 1, w);
                assert(merge_all(parts.take(k + 1)) == crate::model::merge_counts(
                    merge_all(parts.take(k as int)),
                    pool@[k as int]@,
                ));
                lemma_tally_counts(e, words_of_lines(lines, seps, noise, syn), w);
            }
        }
        total.merge(&pool[k]);
        k += 1;
    }
    assert(parts.take(k as int) =~= parts);
    total
}

/// The size of the document, where it fits the range of a count: the
/// number of its characters, and one more for each line.
pub fn document_size(document: &Vec<String>) -> (r: Option<u64>)
    ensures
        match r {
            Some(n) => n == text_size(string_views(document@)),
            None => text_size(string_views(document@)) > u64::MAX,
        },
{
    let ghost lines = string_views(document@);
    let mut size: u64 = 0;
    let mut i: usize = 0;
    assert(lines.take(0) =~= Seq::<Seq<char>>::empty());
    while i < document.len()
        invariant
            i <= document@.len(),
            lines == string_views(document@),
            size == text_size(lines.take(i as int)),
        decreases document@.len() - i,
    {
        let len = document[i].as_str().unicode_len();
        proof {
            assert(lines.take(i + 1).drop_last() =~= lines.take(i as int));
            assert(lines.take(i + 1).last() == document@[i as int]@);
            lemma_text_size_take(lines, i + 1);
        }
        if len as u64 >= u64::MAX - size {
            return None;
        }
        size = size + len as u64 + 1;
        i += 1;
    }
    assert(lines.take(i as int) =~= lines);
    Some(size)
}

/// Counts the words of a document as `process_document` does, where the
/// document is small enough for every count to stay in range; `None`
/// where it is not.
pub fn try_process_document(
    document: &Vec<String>,
    separators: Arc<Vec<char>>,
    noise_words: Arc<Vec<String>>,
    collapser: Arc<Collapser>,
    workers: usize,
) -> (r: Option<WordCounter>)
    requires
        workers >= 1,
        collapser.wf(),
        sorted_words(string_views(noise_words@)),
    ensures
        r is Some <==> text_size(string_views(document@)) <= u64::MAX,
        r matches Some(total) ==> {
            &&& total.wf()
            &&& total@ == tally(
                Map::empty(),
                words_of_lines(
                    string_views(document@),
                    separators@,
                    string_views(noise_words@),
                    collapser@,
                ),
            )
            &&& total.rows() == 0
            &&& total.seps() == separators@
            &&& total.noise() == string_views(noise_words@)
            &&& total.synonyms() == collapser@
        },
{
    match document_size(document) {
        Some(_) => Some(process_document(document, separators, noise_words, collapser, workers)),
        None => None,
    }
}

} // verus!
