//! The record kept for each indexed file, and the errors of the index.

use vstd::prelude::*;
use vstd::string::StringExecFns;

verus! {

/// One indexed file.
#[derive(Debug, PartialEq, Eq)]
pub struct FileMetadata {
    /// The file's base name, extension included.
    pub name: String,
    /// The identifier derived from the file's path.
    pub id: u64,
    /// The file's extension in lower case, without the dot.
    pub ty: String,
    /// Where the file lies.
    pub path: String,
    /// The names of the directories between the scan root and the file, from
    /// the root down; `None` for a file directly under the root.
    pub tags: Option<Vec<String>>,
}

/// What a `FileMetadata` holds, as mathematical values.
pub struct FileRecord {
    pub name: Seq<char>,
    pub id: u64,
    pub ty: Seq<char>,
    pub path: Seq<char>,
    pub tags: Option<Seq<Seq<char>>>,
}

/// The strings of a list, each as its sequence of characters.
pub open spec fn strings(list: Seq<String>) -> Seq<Seq<char>> {
    list.map_values(|s: String| s@)
}

/// The records of a list of files.
pub open spec fn records(files: Seq<FileMetadata>) -> Seq<FileRecord> {
    files.map_values(|f: FileMetadata| f@)
}

/// A tag list as mathematical values.
pub open spec fn tags_view(tags: Option<Vec<String>>) -> Option<Seq<Seq<char>>> {
    match tags {
        Some(list) => Some(strings(list@)),
        None => None,
    }
}

/// The tags of a record as a list: an absent tag list counts as an empty one.
pub open spec fn tag_list(tags: Option<Seq<Seq<char>>>) -> Seq<Seq<char>> {
    match tags {
        Some(list) => list,
        None => Seq::empty(),
    }
}

impl View for FileMetadata {
    type V = FileRecord;

    open spec fn view(&self) -> FileRecord {
        FileRecord {
            name: self.name@,
            id: self.id,
            ty: self.ty@,
            path: self.path@,
            tags: tags_view(self.tags),
        }
    }
}

/// Copies a list of strings.
pub fn clone_strings(list: &Vec<String>) -> (copy: Vec<String>)
    ensures
        strings(copy@) == strings(list@),
{
    let mut copy: Vec<String> = Vec::new();
    let mut i: usize = 0;
    while i < list.len()
        invariant
            i <= list.len(),
            copy@.len() == i,
            forall|j: int| 0 <= j < i ==> copy@[j]@ == list@[j]@,
        decreases list.len() - i,
    {
        copy.push(list[i].clone());
        i += 1;
    }
    proof {
        assert(strings(copy@) =~= strings(list@));
    }
    copy
}

/// Copies a tag list.
pub fn clone_tags(tags: &Option<Vec<String>>) -> (copy: Option<Vec<String>>)
    ensures
        tags_view(copy) == tags_view(*tags),
{
    match tags {
        Some(list) => Some(clone_strings(list)),
        None => None,
    }
}

impl Clone for FileMetadata {
    fn clone(&self) -> (copy: Self)
        ensures
            copy@ == self@,
    {
        FileMetadata {
            name: self.name.clone(),
            id: self.id,
            ty: self.ty.clone(),
            path: self.path.clone(),
            tags: clone_tags(&self.tags),
        }
    }
}

/// Why an operation of the index failed.
#[derive(Debug, Clone, Copy, PartialEq, Eq, Structural)]
pub enum FileErr {
    /// The root of a scan is not a directory.
    PathDoesNotExist,
    /// The index file is missing or cannot be read as an index.
    IndexDoesNotExist,
    /// The index file holds something other than an index.
    IndexInvalid,
    /// No record has the identifier that was asked for.
    IdInvalid,
    /// The index could not be written to its file.
    DBError,
    /// An uploaded file could not be written.
    FailedToCreateFile,
    /// A record with the same identifier is already in the index.
    DuplicateId,
}

impl FileErr {
    /// The text that describes the error.
    pub open spec fn text(self) -> Seq<char> {
        match self {
            FileErr::PathDoesNotExist => "path does not exist"@,
            FileErr::IndexDoesNotExist => "index file does not exits"@,
            FileErr::IndexInvalid => "index invalid"@,
            FileErr::IdInvalid => "id invalid"@,
            FileErr::DBError => "db error"@,
            FileErr::FailedToCreateFile => "failed to create file"@,
            FileErr::DuplicateId => "duplicate id"@,
        }
    }

    /// Describes the error in words.
    pub fn message(&self) -> (msg: String)
        ensures
            msg@ == self.text(),
    {
        match self {
            FileErr::PathDoesNotExist => String::from_str("path does not exist"),
            FileErr::IndexDoesNotExist => String::from_str("index file does not exits"),
            FileErr::IndexInvalid => String::from_str("index invalid"),
            FileErr::IdInvalid => String::from_str("id invalid"),
            FileErr::DBError => String::from_str("db error"),
            FileErr::FailedToCreateFile => String::from_str("failed to create file"),
            FileErr::DuplicateId => String::from_str("duplicate id"),
        }
    }
}

} // verus!
