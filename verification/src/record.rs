//! File records and the errors the store reports.
use vstd::prelude::*;
use crate::identity::Identity;

verus! {

/// What can go wrong in the store. Neither is fatal.
#[derive(Debug, Clone, Copy, PartialEq, Eq, Structural)]
pub enum ErrorKind {
    /// An insertion named a content key that the store already holds.
    DuplicateKey,
    /// A version chain could not be followed to its end: a link names a key
    /// that is not in the store, or the chain runs in a circle.
    BrokenChain,
}

/// Metadata describing one generated file.
#[derive(Debug, Clone, PartialEq, Eq)]
pub struct FileMetadata {
    /// Content key: a hash of the file's content and of whatever metadata
    /// the submitter wants to tell versions apart by. The store takes the
    /// key as given and compares nothing else: two records under one key
    /// are duplicates whatever their other fields say, and the same file
    /// under two keys is two records.
    pub id: String,
    pub filename: String,
    pub model: String,
    pub dataset: String,
    pub prompt: Option<String>,
    /// Content key of the version this one replaces, if any.
    pub previous_hash: Option<String>,
    /// The identity that submitted the record.
    pub creator: Identity,
    /// Nanoseconds since the Unix epoch, assigned by the store.
    pub timestamp: u64,
}

/// The mathematical value of a [`FileMetadata`].
pub ghost struct RecordView {
    pub id: Seq<char>,
    pub filename: Seq<char>,
    pub model: Seq<char>,
    pub dataset: Seq<char>,
    pub prompt: Option<Seq<char>>,
    pub previous_hash: Option<Seq<char>>,
    pub creator: Seq<u8>,
    pub timestamp: u64,
}

/// The value of an optional string.
pub open spec fn text_of(s: Option<String>) -> Option<Seq<char>> {
    match s {
        Some(t) => Some(t@),
        None => None,
    }
}

/// Copies an optional string.
pub fn copy_text(s: &Option<String>) -> (copy: Option<String>)
    ensures
        text_of(copy) == text_of(*s),
{
    match s {
        Some(t) => Some(t.clone()),
        None => None,
    }
}

impl View for FileMetadata {
    type V = RecordView;

    open spec fn view(&self) -> RecordView {
        RecordView {
            id: self.id@,
            filename: self.filename@,
            model: self.model@,
            dataset: self.dataset@,
            prompt: text_of(self.prompt),
            previous_hash: text_of(self.previous_hash),
            creator: self.creator@,
            timestamp: self.timestamp,
        }
    }
}

impl FileMetadata {
    /// An independent copy with the same value.
    pub fn duplicate(&self) -> (copy: FileMetadata)
        ensures
            copy@ == self@,
    {
        FileMetadata {
            id: self.id.clone(),
            filename: self.filename.clone(),
            model: self.model.clone(),
            dataset: self.dataset.clone(),
            prompt: copy_text(&self.prompt),
            previous_hash: copy_text(&self.previous_hash),
            creator: self.creator.duplicate(),
            timestamp: self.timestamp,
        }
    }
}

} // verus!
