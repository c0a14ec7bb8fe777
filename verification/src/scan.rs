//! Scanning a directory tree for the files to index.
//!
//! The tree is handed in as it was found on disk; nothing here touches the
//! file system.

use crate::identity::{id, path_id};
use crate::metadata::{clone_strings, clone_tags, records, strings, tag_list, tags_view, FileErr,
    FileMetadata, FileRecord};
use crate::path::{extension_of, file_name, file_name_of, file_type, file_type_of, indexable,
    is_system_file_name, join, join_of};
use crate::tags::{
    descend, lemma_file_name_of_join, lemma_tags_of_descend, proper_name, proper_names,
    tags_between,
};
use vstd::prelude::*;

verus! {

/// What was found at a path.
#[derive(Debug)]
pub enum Node {
    /// Nothing.
    Missing,
    /// Something that is not a directory.
    File,
    /// A directory, with its entries in the order in which they were listed.
    Dir(Vec<Entry>),
}

/// An entry of a directory: a name, and what is there.
#[derive(Debug)]
pub struct Entry {
    pub name: String,
    pub node: Node,
}

/// The record of the file at `path`, found below directories named `tags`.
pub open spec fn record_of(path: Seq<char>, tags: Option<Seq<Seq<char>>>) -> FileRecord {
    FileRecord {
        name: file_name_of(path),
        id: path_id(path),
        ty: file_type_of(file_name_of(path)),
        path,
        tags,
    }
}

/// The tags of what lies in the directory at `dir`, itself reached through
/// directories named `tags`.
pub open spec fn tags_below(tags: Option<Seq<Seq<char>>>, dir: Seq<char>) -> Option<
    Seq<Seq<char>>,
> {
    Some(tag_list(tags).push(file_name_of(dir)))
}

/// The records of the indexable files among `entries` and below them, where
/// `entries` lists the directory at `dir`, reached through directories named
/// `tags`. The records come in the order of the listing, those of a
/// subdirectory in the place of its entry.
pub open spec fn scan_entries(
    dir: Seq<char>,
    entries: Seq<Entry>,
    tags: Option<Seq<Seq<char>>>,
) -> Seq<FileRecord>
    decreases entries,
{
    if entries.len() == 0 {
        Seq::empty()
    } else {
        let entry = entries.last();
        let path = join_of(dir, entry.name@);
        scan_entries(dir, entries.drop_last(), tags) + match entry.node {
            Node::Dir(children) => scan_entries(path, children@, tags_below(tags, path)),
            _ => if indexable(path, false) {
                seq![record_of(path, tags)]
            } else {
                Seq::empty()
            },
        }
    }
}

/// What a scan of `node`, found at `path`, yields: the records of the
/// indexable files below a directory, an error for anything else.
pub open spec fn scan_of(path: Seq<char>, node: Node, tags: Option<Seq<Seq<char>>>) -> Result<
    Seq<FileRecord>,
    FileErr,
> {
    match node {
        Node::Dir(entries) => Ok(scan_entries(path, entries@, tags)),
        _ => Err(FileErr::PathDoesNotExist),
    }
}

/// Whether every entry of `entries`, and of the directories below them, has
/// a proper name.
pub open spec fn proper_entries(entries: Seq<Entry>) -> bool
    decreases entries,
{
    if entries.len() == 0 {
        true
    } else {
        let entry = entries.last();
        &&& proper_entries(entries.drop_last())
        &&& proper_name(entry.name@)
        &&& match entry.node {
            Node::Dir(children) => proper_entries(children@),
            _ => true,
        }
    }
}

/// Whether every file among `entries`, listed in the directory at `dir`, and
/// below them is indexable.
pub open spec fn only_indexable(dir: Seq<char>, entries: Seq<Entry>) -> bool
    decreases entries,
{
    if entries.len() == 0 {
        true
    } else {
        let entry = entries.last();
        let path = join_of(dir, entry.name@);
        &&& only_indexable(dir, entries.drop_last())
        &&& match entry.node {
            Node::Dir(children) => only_indexable(path, children@),
            _ => indexable(path, false),
        }
    }
}

/// The number of entries among `entries` and below them that are not
/// directories.
pub open spec fn file_count(entries: Seq<Entry>) -> nat
    decreases entries,
{
    if entries.len() == 0 {
        0
    } else {
        file_count(entries.drop_last()) + match entries.last().node {
            Node::Dir(children) => file_count(children@),
            _ => 1,
        }
    }
}

/// Every record of a scan is the record of an indexable file: its name is
/// the final component of its path, its identifier is derived from its path,
/// and its type is the extension of its name in lower case.
pub proof fn lemma_scan_records(
    dir: Seq<char>,
    entries: Seq<Entry>,
    tags: Option<Seq<Seq<char>>>,
)
    ensures
        forall|i: int|
            0 <= i < scan_entries(dir, entries, tags).len() ==> {
                let file = #[trigger] scan_entries(dir, entries, tags)[i];
                &&& indexable(file.path, false)
                &&& file.name == file_name_of(file.path)
                &&& file.id == path_id(file.path)
                &&& extension_of(file.name) is Some
                &&& file.ty == file_type_of(file.name)
            },
    decreases entries,
{
    if entries.len() > 0 {
        let entry = entries.last();
        let path = join_of(dir, entry.name@);
        let before = scan_entries(dir, entries.drop_last(), tags);
        lemma_scan_records(dir, entries.drop_last(), tags);
        match entry.node {
            Node::Dir(children) => {
                lemma_scan_records(path, children@, tags_below(tags, path));
            },
            _ => {},
        }
        let all = scan_entries(dir, entries, tags);
        assert forall|i: int| 0 <= i < all.len() implies {
            let file = #[trigger] all[i];
            &&& indexable(file.path, false)
            &&& file.name == file_name_of(file.path)
            &&& file.id == path_id(file.path)
            &&& extension_of(file.name) is Some
            &&& file.ty == file_type_of(file.name)
        } by {
            if i < before.len() {
                assert(all[i] == before[i]);
            } else {
                match entry.node {
                    Node::Dir(children) => {
                        let below = scan_entries(path, children@, tags_below(tags, path));
                        assert(all[i] == below[i - before.len()]);
                    },
                    _ => {},
                }
            }
        }
    }
}

/// A scan yields at most one record for each file, and exactly one where
/// every file is indexable.
pub proof fn lemma_scan_count(dir: Seq<char>, entries: Seq<Entry>, tags: Option<Seq<Seq<char>>>)
    ensures
        scan_entries(dir, entries, tags).len() <= file_count(entries),
        only_indexable(dir, entries) ==> scan_entries(dir, entries, tags).len() == file_count(
            entries,
        ),
    decreases entries,
{
    if entries.len() > 0 {
        let entry = entries.last();
        let path = join_of(dir, entry.name@);
        lemma_scan_count(dir, entries.drop_last(), tags);
        match entry.node {
            Node::Dir(children) => {
                lemma_scan_count(path, children@, tags_below(tags, path));
            },
            _ => {},
        }
    }
}

/// The tags of every record of a scan are the names of the directories
/// between the scan root and the file: where the entries have proper names
/// and the scan has reached `dir` from `root` through the directories named
/// `tags`, each record has the tags that its path has under `root`.
pub proof fn lemma_scan_tags(
    root: Seq<char>,
    dir: Seq<char>,
    entries: Seq<Entry>,
    tags: Option<Seq<Seq<char>>>,
)
    requires
        proper_entries(entries),
        proper_names(tag_list(tags)),
        dir == descend(root, tag_list(tags)),
    ensures
        forall|i: int|
            0 <= i < scan_entries(dir, entries, tags).len() ==> {
                let file = #[trigger] scan_entries(dir, entries, tags)[i];
                tag_list(file.tags) == tags_between(root, file.path)
            },
    decreases entries,
{
    if entries.len() > 0 {
        let entry = entries.last();
        let name = entry.name@;
        let path = join_of(dir, name);
        let before = scan_entries(dir, entries.drop_last(), tags);
        lemma_scan_tags(root, dir, entries.drop_last(), tags);
        let through = tag_list(tags).push(name);
        assert(through.drop_last() == tag_list(tags));
        assert(descend(root, through) == path);
        assert forall|i: int| 0 <= i < through.len() implies proper_name(#[trigger] through[i]) by {
            if i < tag_list(tags).len() {
                assert(through[i] == tag_list(tags)[i]);
            }
        }
        lemma_file_name_of_join(dir, name);
        lemma_tags_of_descend(root, through);
        match entry.node {
            Node::Dir(children) => {
                assert(tag_list(tags_below(tags, path)) == through);
                lemma_scan_tags(root, path, children@, tags_below(tags, path));
            },
            _ => {},
        }
        let all = scan_entries(dir, entries, tags);
        assert forall|i: int| 0 <= i < all.len() implies {
            let file = #[trigger] all[i];
            tag_list(file.tags) == tags_between(root, file.path)
        } by {
            if i < before.len() {
                assert(all[i] == before[i]);
            } else {
                match entry.node {
                    Node::Dir(children) => {
                        let below = scan_entries(path, children@, tags_below(tags, path));
                        assert(all[i] == below[i - before.len()]);
                    },
                    _ => {},
                }
            }
        }
    }
}

/// Builds the record of the file at `path`. A path whose final component has
/// no extension has no type, and gets no record.
pub fn file_metadata(path: &str, tags: Option<Vec<String>>) -> (file: Option<FileMetadata>)
    ensures
        match file {
            Some(f) => extension_of(file_name_of(path@)) is Some && f@ == record_of(
                path@,
                tags_view(tags),
            ),
            None => extension_of(file_name_of(path@)) is None,
        },
{
    let name = file_name(path);
    match file_type(name.as_str()) {
        Some(ty) => Some(FileMetadata { name, id: id(path), ty, path: path.to_owned(), tags }),
        None => None,
    }
}

/// Lists the indexable files below the directory `node`, found at `path` and
/// reached through directories named `tags`. Fails with `PathDoesNotExist`
/// when `node` is not a directory.
pub fn files_in_dir(path: &str, node: &Node, tags: Option<Vec<String>>) -> (found: Result<
    Vec<FileMetadata>,
    FileErr,
>)
    ensures
        match found {
            Ok(files) => scan_of(path@, *node, tags_view(tags)) == Ok::<_, FileErr>(
                records(files@),
            ),
            Err(e) => scan_of(path@, *node, tags_view(tags)) == Err::<Seq<FileRecord>, _>(e),
        },
    decreases node,
{
    let entries = match node {
        Node::Dir(entries) => entries,
        _ => {
            return Err(FileErr::PathDoesNotExist);
        },
    };
    let mut files: Vec<FileMetadata> = Vec::new();
    let mut i: usize = 0;
    proof {
        assert(entries@.take(0) == Seq::<Entry>::empty());
        assert(records(files@) == Seq::<FileRecord>::empty());
    }
    while i < entries.len()
        invariant
            i <= entries.len(),
            *node == Node::Dir(*entries),
            records(files@) == scan_entries(path@, entries@.take(i as int), tags_view(tags)),
        decreases entries.len() - i,
    {
        let entry = &entries[i];
        let child_path = join(path, entry.name.as_str());
        let ghost before = records(files@);
        let ghost added: Seq<FileRecord>;
        match &entry.node {
            Node::Dir(_) => {
                let mut child_tags = match &tags {
                    Some(list) => clone_strings(list),
                    None => Vec::new(),
                };
                let ghost outer = strings(child_tags@);
                let dir_name = file_name(child_path.as_str());
                child_tags.push(dir_name);
                proof {
                    assert(strings(child_tags@) == outer.push(dir_name@));
                    assert(outer == tag_list(tags_view(tags)));
                }
                let below = files_in_dir(child_path.as_str(), &entry.node, Some(child_tags));
                match below {
                    Ok(mut inner) => {
                        proof {
                            added = records(inner@);
                            assert(records(files@ + inner@) == before + added);
                        }
                        files.append(&mut inner);
                    },
                    Err(e) => {
                        return Err(e);
                    },
                }
            },
            _ => {
                let name = file_name(child_path.as_str());
                proof {
                    added = Seq::empty();
                }
                if !is_system_file_name(name.as_str()) {
                    if let Some(file) = file_metadata(child_path.as_str(), clone_tags(&tags)) {
                        proof {
                            added = seq![file@];
                            assert(records(files@.push(file)) == before.push(file@));
                        }
                        files.push(file);
                    }
                }
                proof {
                    assert(records(files@) == before + added);
                }
            },
        }
        proof {
            assert(entries@.take(i + 1).drop_last() == entries@.take(i as int));
            assert(entries@.take(i + 1).last() == entries@[i as int]);
        }
        i += 1;
    }
    proof {
        assert(entries@.take(i as int) == entries@);
    }
    Ok(files)
}

/// Scans the directory `node`, found at `root`, for the files to index, and
/// returns their records. Fails with `PathDoesNotExist` when `node` is not a
/// directory.
pub fn scan(root: &str, node: &Node) -> (found: Result<Vec<FileMetadata>, FileErr>)
    ensures
        match found {
            Ok(files) => scan_of(root@, *node, None) == Ok::<_, FileErr>(records(files@)),
            Err(e) => scan_of(root@, *node, None) == Err::<Seq<FileRecord>, _>(e),
        },
{
    files_in_dir(root, node, None)
}

} // verus!
