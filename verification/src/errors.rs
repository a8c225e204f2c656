//! The ways in which a run, or the loading of its rules, can fail.

use crate::word_counter::WordCounter;
use std::io;
use std::sync::mpsc;
use vstd::prelude::*;
use vstd::std_specs::convert::FromSpecImpl;

verus! {

/// `std::io::Error`: carried through, never looked into.
#[verifier::external_type_specification]
#[verifier::external_body]
pub struct ExIoError(io::Error);

/// `std::sync::mpsc::SendError`: carried through with what could not be sent.
#[verifier::external_type_specification]
#[verifier::external_body]
#[verifier::reject_recursive_types(T)]
pub struct ExSendError<T>(mpsc::SendError<T>);

/// `std::sync::mpsc::RecvError`: carried through, never looked into.
#[verifier::external_type_specification]
#[verifier::external_body]
pub struct ExRecvError(mpsc::RecvError);

/// Why a document could not be counted. Any of these ends the whole run:
/// there is no partial result.
#[allow(clippy::enum_variant_names)]
#[derive(Debug)]
pub enum ProcessFileError {
    /// The document could not be read.
    IOError(io::Error),
    /// A line could not be delivered to its accumulator.
    SendError(mpsc::SendError<String>),
    /// An accumulator could not hand over its counts.
    RelinquishError(mpsc::SendError<WordCounter>),
    /// The counts of an accumulator could not be collected.
    RecvError(mpsc::RecvError),
}

impl From<io::Error> for ProcessFileError {
    fn from(err: io::Error) -> (r: ProcessFileError) {
        ProcessFileError::IOError(err)
    }
}

impl FromSpecImpl<io::Error> for ProcessFileError {
    open spec fn obeys_from_spec() -> bool {
        true
    }

    open spec fn from_spec(err: io::Error) -> ProcessFileError {
        ProcessFileError::IOError(err)
    }
}

impl From<mpsc::SendError<WordCounter>> for ProcessFileError {
    fn from(err: mpsc::SendError<WordCounter>) -> (r: ProcessFileError) {
        ProcessFileError::RelinquishError(err)
    }
}

impl FromSpecImpl<mpsc::SendError<WordCounter>> for ProcessFileError {
    open spec fn obeys_from_spec() -> bool {
        true
    }

    open spec fn from_spec(err: mpsc::SendError<WordCounter>) -> ProcessFileError {
        ProcessFileError::RelinquishError(err)
    }
}

impl From<mpsc::RecvError> for ProcessFileError {
    fn from(err: mpsc::RecvError) -> (r: ProcessFileError) {
        ProcessFileError::RecvError(err)
    }
}

impl FromSpecImpl<mpsc::RecvError> for ProcessFileError {
    open spec fn obeys_from_spec() -> bool {
        true
    }

    open spec fn from_spec(err: mpsc::RecvError) -> ProcessFileError {
        ProcessFileError::RecvError(err)
    }
}

impl From<mpsc::SendError<String>> for ProcessFileError {
    fn from(err: mpsc::SendError<String>) -> (r: ProcessFileError) {
        ProcessFileError::SendError(err)
    }
}

impl FromSpecImpl<mpsc::SendError<String>> for ProcessFileError {
    open spec fn obeys_from_spec() -> bool {
        true
    }

    open spec fn from_spec(err: mpsc::SendError<String>) -> ProcessFileError {
        ProcessFileError::SendError(err)
    }
}

/// Why the rules of a run could not be loaded.
#[allow(clippy::enum_variant_names)]
#[derive(Debug)]
pub enum LoadFromFileError {
    /// A source of rules could not be read.
    IOError(io::Error),
    /// A record is malformed; the text says what is wrong with it.
    FormatError(String),
}

impl From<io::Error> for LoadFromFileError {
    fn from(err: io::Error) -> (r: LoadFromFileError) {
        LoadFromFileError::IOError(err)
    }
}

impl FromSpecImpl<io::Error> for LoadFromFileError {
    open spec fn obeys_from_spec() -> bool {
        true
    }

    open spec fn from_spec(err: io::Error) -> LoadFromFileError {
        LoadFromFileError::IOError(err)
    }
}

} // verus!
