//! Reading one metric file as a value of the type that its reader asks for.
//!
//! Every read takes the whole text of the file, drops the white space around
//! it and interprets the rest: as it stands, as an unsigned integer of 8 or of
//! 64 bits, or as a flag that is set by any integer above zero.

use crate::text::{parse_u64, parse_u8, trim, trimmed, unsigned};
use crate::tree::{file_text, FileTree, IoFailure, NodeView};
use vstd::prelude::*;

verus! {

/// Why a metric could not be read.
#[derive(Debug)]
pub enum ReadError {
    /// The file could not be read.
    Io(IoFailure),
    /// The text of the file is not a value of the type asked for; the
    /// description says why.
    Parse(String),
}

/// `ReadError` with its description as a sequence of characters.
pub enum ReadErrorView {
    Io(IoFailure),
    Parse(Seq<char>),
}

impl View for ReadError {
    type V = ReadErrorView;

    open spec fn view(&self) -> ReadErrorView {
        match self {
            ReadError::Io(e) => ReadErrorView::Io(*e),
            ReadError::Parse(description) => ReadErrorView::Parse(description@),
        }
    }
}

/// The outcome of a read, value and error each by its view.
pub open spec fn viewed<T: View>(outcome: Result<T, ReadError>) -> Result<T::V, ReadErrorView> {
    match outcome {
        Ok(value) => Ok(value@),
        Err(e) => Err(e@),
    }
}

/// The trimmed text of the file at `path`.
pub open spec fn read_text(tree: Map<Seq<char>, NodeView>, path: Seq<char>) -> Result<
    Seq<char>,
    ReadErrorView,
> {
    match file_text(tree, path) {
        Ok(text) => Ok(trimmed(text)),
        Err(e) => Err(ReadErrorView::Io(e)),
    }
}

/// The trimmed text of the file at `path` as an unsigned integer up to `max`.
pub open spec fn read_unsigned(tree: Map<Seq<char>, NodeView>, path: Seq<char>, max: nat) -> Result<
    nat,
    ReadErrorView,
> {
    match file_text(tree, path) {
        Ok(text) => match unsigned(trimmed(text), max) {
            Ok(value) => Ok(value),
            Err(failure) => Err(ReadErrorView::Parse(failure.description())),
        },
        Err(e) => Err(ReadErrorView::Io(e)),
    }
}

/// The file at `path` as an unsigned integer of 8 bits.
pub open spec fn read_u8(tree: Map<Seq<char>, NodeView>, path: Seq<char>) -> Result<
    u8,
    ReadErrorView,
> {
    match read_unsigned(tree, path, u8::MAX as nat) {
        Ok(value) => Ok(value as u8),
        Err(e) => Err(e),
    }
}

/// The file at `path` as an unsigned integer of 64 bits.
pub open spec fn read_u64(tree: Map<Seq<char>, NodeView>, path: Seq<char>) -> Result<
    u64,
    ReadErrorView,
> {
    match read_unsigned(tree, path, u64::MAX as nat) {
        Ok(value) => Ok(value as u64),
        Err(e) => Err(e),
    }
}

/// The file at `path` as a flag: set where its integer of 8 bits is above zero.
pub open spec fn read_bool(tree: Map<Seq<char>, NodeView>, path: Seq<char>) -> Result<
    bool,
    ReadErrorView,
> {
    match read_u8(tree, path) {
        Ok(value) => Ok(value > 0),
        Err(e) => Err(e),
    }
}

/// A source of values of type `T`.
pub trait Reader<T: View> {
    /// What a read gives when the filesystem shows `tree`.
    spec fn reading(&self, tree: Map<Seq<char>, NodeView>) -> Result<T::V, ReadErrorView>;

    /// Reads the value out of `tree`.
    fn read(&self, tree: &FileTree) -> (outcome: Result<T, ReadError>)
        ensures
            viewed(outcome) == self.reading(tree@),
    ;
}

/// The reader of one file, known by its path.
#[derive(Debug)]
pub struct FileReader(String);

impl View for FileReader {
    type V = Seq<char>;

    closed spec fn view(&self) -> Seq<char> {
        self.0@
    }
}

impl FileReader {
    /// The reader of the file at `path`.
    pub fn from(path: String) -> (reader: FileReader)
        ensures
            reader@ == path@,
    {
        FileReader(path)
    }

    /// The path of the file.
    pub fn path(&self) -> (path: &String)
        ensures
            path@ == self@,
    {
        &self.0
    }

    fn read_str(&self, tree: &FileTree) -> (outcome: Result<String, ReadError>)
        ensures
            match outcome {
                Ok(text) => file_text(tree@, self@) == Ok::<Seq<char>, IoFailure>(text@),
                Err(e) => file_text(tree@, self@) matches Err(failure) && e@
                    == ReadErrorView::Io(failure),
            },
    {
        match tree.read_to_string(self.0.as_str()) {
            Ok(text) => Ok(text),
            Err(e) => Err(ReadError::Io(e)),
        }
    }
}

impl Reader<String> for FileReader {
    open spec fn reading(&self, tree: Map<Seq<char>, NodeView>) -> Result<Seq<char>, ReadErrorView> {
        read_text(tree, self@)
    }

    fn read(&self, tree: &FileTree) -> (outcome: Result<String, ReadError>) {
        match self.read_str(tree) {
            Ok(text) => Ok(trim(text.as_str())),
            Err(e) => Err(e),
        }
    }
}

impl Reader<u8> for FileReader {
    open spec fn reading(&self, tree: Map<Seq<char>, NodeView>) -> Result<u8, ReadErrorView> {
        read_u8(tree, self@)
    }

    fn read(&self, tree: &FileTree) -> (outcome: Result<u8, ReadError>) {
        match self.read_str(tree) {
            Ok(text) => {
                let body = trim(text.as_str());
                match parse_u8(body.as_str()) {
                    Ok(value) => Ok(value),
                    Err(failure) => Err(ReadError::Parse(failure.describe())),
                }
            },
            Err(e) => Err(e),
        }
    }
}

impl Reader<u64> for FileReader {
    open spec fn reading(&self, tree: Map<Seq<char>, NodeView>) -> Result<u64, ReadErrorView> {
        read_u64(tree, self@)
    }

    fn read(&self, tree: &FileTree) -> (outcome: Result<u64, ReadError>) {
        match self.read_str(tree) {
            Ok(text) => {
                let body = trim(text.as_str());
                match parse_u64(body.as_str()) {
                    Ok(value) => Ok(value),
                    Err(failure) => Err(ReadError::Parse(failure.describe())),
                }
            },
            Err(e) => Err(e),
        }
    }
}

impl Reader<bool> for FileReader {
    open spec fn reading(&self, tree: Map<Seq<char>, NodeView>) -> Result<bool, ReadErrorView> {
        read_bool(tree, self@)
    }

    fn read(&self, tree: &FileTree) -> (outcome: Result<bool, ReadError>) {
        let number: Result<u8, ReadError> = self.read(tree);
        match number {
            Ok(value) => Ok(value > 0),
            Err(e) => Err(e),
        }
    }
}

} // verus!
