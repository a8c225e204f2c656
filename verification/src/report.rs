//! The ranking as JSON text: an array of pairs, each a word and its count.

use rustc_serialize::json::EncoderError;
use vstd::prelude::*;

verus! {

/// `rustc_serialize::json::EncoderError`: carried through, never looked into.
#[verifier::external_type_specification]
#[verifier::external_body]
pub struct ExEncoderError(EncoderError);

/// What the encoder makes of a list of words with their counts: the JSON
/// text that it writes, or `None` where it fails on them.
pub uninterp spec fn json_text(entries: Seq<(Seq<char>, u64)>) -> Option<Seq<char>>;

/// The entries with each word as a sequence of characters.
pub open spec fn entry_views(entries: Seq<(String, u64)>) -> Seq<(Seq<char>, u64)> {
    Seq::new(entries.len(), |i: int| (entries[i].0@, entries[i].1))
}

/// `rustc_serialize::json::encode`: whether it succeeds, and the text
/// that it then returns, depend on the entries alone; the result is what
/// the encoder makes of them.
#[verifier::external_body]
fn encode_entries(entries: &Vec<(String, u64)>) -> (r: Result<String, EncoderError>)
    ensures
        match r {
            Ok(s) => json_text(entry_views(entries@)) == Some(s@),
            Err(_) => json_text(entry_views(entries@)) is None,
        },
{
    rustc_serialize::json::encode(entries)
}

/// The text of an encoding that succeeded, and `None` for one that failed.
pub fn encoded_text(outcome: Result<String, EncoderError>) -> (r: Option<String>)
    ensures
        match outcome {
            Ok(s) => r == Some(s),
            Err(_) => r is None,
        },
{
    match outcome {
        Ok(s) => Some(s),
        Err(_) => None,
    }
}

/// The ranking as JSON text: what the encoder makes of the entries, so
/// `None` exactly where the encoder fails on them.
pub fn ranking_json(entries: &Vec<(String, u64)>) -> (r: Option<String>)
    ensures
        match r {
            Some(s) => json_text(entry_views(entries@)) == Some(s@),
            None => json_text(entry_views(entries@)) is None,
        },
{
    encoded_text(encode_entries(entries))
}

} // verus!
