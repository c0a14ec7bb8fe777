//! The index: the records of the indexed files, each under its identifier.

use crate::metadata::{records, strings, tag_list, FileErr, FileMetadata, FileRecord};
use crate::path::{extension_of, file_name_of, file_type_of, indexable, is_indexable};
use crate::scan::{
    file_metadata, files_in_dir, lemma_scan_records, record_of, scan_entries, scan_of, Node,
};
use std::collections::HashMap;
use std::collections::HashSet;
use vstd::prelude::*;
use vstd::std_specs::hash::spec_hash_map_iter;
use vstd::std_specs::iter::IteratorSpec;

verus! {

/// Whether every record of `map` stands under its own identifier.
pub open spec fn keyed_by_id(map: Map<u64, FileRecord>) -> bool {
    forall|k: u64| map.contains_key(k) ==> (#[trigger] map[k]).id == k
}

/// Whether `list` holds the records of `map`, each of them once, in any order.
pub open spec fn lists(list: Seq<FileRecord>, map: Map<u64, FileRecord>) -> bool {
    &&& forall|i: int, j: int|
        0 <= i < j < list.len() ==> (#[trigger] list[i]).id != (#[trigger] list[j]).id
    &&& forall|i: int|
        0 <= i < list.len() ==> map.contains_key((#[trigger] list[i]).id) && map[list[i].id]
            == list[i]
    &&& forall|k: u64| map.contains_key(k) ==> list.contains(#[trigger] map[k])
}

/// `map` after the records of `list` were put in one after the other, each
/// under its identifier. Where two records share an identifier, the later one
/// stays.
pub open spec fn insert_all(map: Map<u64, FileRecord>, list: Seq<FileRecord>) -> Map<
    u64,
    FileRecord,
>
    decreases list.len(),
{
    if list.len() == 0 {
        map
    } else {
        insert_all(map, list.drop_last()).insert(list.last().id, list.last())
    }
}

/// Whether the records of `list` can all be added to `map`: none of their
/// identifiers is in `map`, and no two of them share one.
pub open spec fn insertable(map: Map<u64, FileRecord>, list: Seq<FileRecord>) -> bool {
    &&& forall|i: int| 0 <= i < list.len() ==> !map.contains_key((#[trigger] list[i]).id)
    &&& forall|i: int, j: int|
        0 <= i < j < list.len() ==> (#[trigger] list[i]).id != (#[trigger] list[j]).id
}

/// The records of `map` that `keep` holds of.
pub open spec fn select(map: Map<u64, FileRecord>, keep: spec_fn(FileRecord) -> bool) -> Map<
    u64,
    FileRecord,
> {
    map.restrict(Set::new(|k: u64| keep(map[k])))
}

/// Holds of the records whose type is exactly `ty`.
pub open spec fn type_is(ty: Seq<char>) -> spec_fn(FileRecord) -> bool {
    |file: FileRecord| file.ty == ty
}

/// Whether `file` has every tag of `tags`. A record without a tag list has
/// none, whatever is asked for.
pub open spec fn has_tags(file: FileRecord, tags: Seq<Seq<char>>) -> bool {
    &&& file.tags is Some
    &&& forall|i: int| 0 <= i < tags.len() ==> file.tags->0.contains(#[trigger] tags[i])
}

/// Holds of the records that have every tag of `tags`.
pub open spec fn tagged(tags: Seq<Seq<char>>) -> spec_fn(FileRecord) -> bool {
    |file: FileRecord| has_tags(file, tags)
}

/// The records of `map` whose type is exactly `ty`.
pub open spec fn of_type(map: Map<u64, FileRecord>, ty: Seq<char>) -> Map<u64, FileRecord> {
    select(map, type_is(ty))
}

/// The records of `map` that have every tag of `tags`.
pub open spec fn with_tags(map: Map<u64, FileRecord>, tags: Seq<Seq<char>>) -> Map<
    u64,
    FileRecord,
> {
    select(map, tagged(tags))
}

/// The tags that occur on the records of `map`.
pub open spec fn all_tags(map: Map<u64, FileRecord>) -> Set<Seq<char>> {
    Set::new(
        |tag: Seq<char>|
            exists|k: u64| map.contains_key(k) && tag_list((#[trigger] map[k]).tags).contains(tag),
    )
}

/// What adding the file at `path` does to `map`: a path that is not indexable
/// changes nothing, a new identifier brings a record, and one that is taken
/// is an error.
pub open spec fn add_file_of(map: Map<u64, FileRecord>, path: Seq<char>) -> Result<
    Map<u64, FileRecord>,
    FileErr,
> {
    let file = record_of(path, None);
    if !indexable(path, false) {
        Ok(map)
    } else if map.contains_key(file.id) {
        Err(FileErr::DuplicateId)
    } else {
        Ok(map.insert(file.id, file))
    }
}

/// What adding the scan of `node`, found at `root`, does to `map`: all the
/// records come in, or none of them does.
pub open spec fn add_dir_of(map: Map<u64, FileRecord>, root: Seq<char>, node: Node) -> Result<
    Map<u64, FileRecord>,
    FileErr,
> {
    match scan_of(root, node, None) {
        Ok(found) => if insertable(map, found) {
            Ok(insert_all(map, found))
        } else {
            Err(FileErr::DuplicateId)
        },
        Err(e) => Err(e),
    }
}

/// The records that a walk over the table's entries meets, in its order.
spec fn met<'a>(pairs: Seq<(&'a u64, &'a FileMetadata)>) -> Seq<FileRecord> {
    pairs.map_values(|pair: (&'a u64, &'a FileMetadata)| (*pair.1)@)
}

/// The index of a tree of files: the record of each file under its
/// identifier, and the path of the file that the index is kept in.
#[derive(Debug)]
pub struct FileIndex {
    index_file: String,
    db: HashMap<u64, FileMetadata>,
}

impl View for FileIndex {
    type V = Map<u64, FileRecord>;

    /// The records of the index, by identifier.
    closed spec fn view(&self) -> Map<u64, FileRecord> {
        self.db@.map_values(|f: FileMetadata| f@)
    }
}

impl FileIndex {
    /// Every record of the table stands under its own identifier.
    #[verifier::type_invariant]
    spec fn keys_are_ids(self) -> bool {
        forall|k: u64| self.db@.contains_key(k) ==> (#[trigger] self.db@[k]).id == k
    }

    /// The path of the file that the index is kept in.
    pub closed spec fn index_file_view(&self) -> Seq<char> {
        self.index_file@
    }

    /// Makes an index kept in `index_file` from what was loaded from that
    /// file. Where nothing could be loaded the index starts empty.
    pub fn new(index_file: &str, loaded: Result<Vec<FileMetadata>, FileErr>) -> (index: Self)
        ensures
            index.index_file_view() == index_file@,
            index@ == match loaded {
                Ok(files) => insert_all(Map::empty(), records(files@)),
                Err(_) => Map::empty(),
            },
            keyed_by_id(index@),
            index@.dom().finite(),
    {
        let db = match loaded {
            Ok(files) => deserialize_db(files),
            Err(_) => HashMap::new(),
        };
        let index = FileIndex { index_file: index_file.to_owned(), db };
        proof {
            lemma_view_of(index.db@);
        }
        index
    }

    /// Returns the path of the file that the index is kept in.
    pub fn index_file(&self) -> (path: &str)
        ensures
            path@ == self.index_file_view(),
    {
        self.index_file.as_str()
    }

    /// Returns the records of the index, each of them once, in no particular
    /// order.
    pub fn files(&self) -> (files: Vec<FileMetadata>)
        ensures
            lists(records(files@), self@),
            keyed_by_id(self@),
            self@.dom().finite(),
    {
        proof {
            use_type_invariant(self);
            lemma_view_of(self.db@);
        }
        let mut files: Vec<FileMetadata> = Vec::new();
        for pair in it: self.db.iter()
            invariant
                it.seq() == spec_hash_map_iter(&self.db).remaining(),
                it.seq().no_duplicates(),
                records(files@) == met(it.seq()).take(it.index() as int),
        {
            let ghost before = records(files@);
            let file = pair.1.clone();
            files.push(file);
            proof {
                assert(records(files@) == before.push(file@));
                assert(met(it.seq()).take(it.index() + 1) == before.push(file@));
            }
        }
        proof {
            let pairs = spec_hash_map_iter(&self.db).remaining();
            assert(met(pairs).take(pairs.len() as int) == met(pairs));
            lemma_walk_lists(self.db@, pairs);
        }
        files
    }

    /// Returns the tags that occur on the records of the index, each of them
    /// once, in no particular order.
    pub fn tags(&self) -> (tags: Vec<String>)
        ensures
            strings(tags@).no_duplicates(),
            strings(tags@).to_set() == all_tags(self@),
    {
        proof {
            use_type_invariant(self);
            lemma_view_of(self.db@);
        }
        let mut tags: Vec<String> = Vec::new();
        for pair in it: self.db.iter()
            invariant
                it.seq() == spec_hash_map_iter(&self.db).remaining(),
                it.seq().no_duplicates(),
                strings(tags@).no_duplicates(),
                collects(strings(tags@), met(it.seq()), it.index() as int, Seq::empty()),
        {
            let ghost all = met(it.seq());
            let ghost n = it.index() as int;
            let ghost current = tag_list(all[n].tags);
            match &pair.1.tags {
                Some(list) => {
                    let mut j: usize = 0;
                    proof {
                        assert(current.take(0) == Seq::<Seq<char>>::empty());
                    }
                    while j < list.len()
                        invariant
                            j <= list.len(),
                            0 <= n < all.len(),
                            strings(list@) == current,
                            strings(tags@).no_duplicates(),
                            collects(strings(tags@), all, n, current.take(j as int)),
                        decreases list.len() - j,
                    {
                        let ghost before = strings(tags@);
                        let ghost tag_j = current[j as int];
                        assert(list@[j as int]@ == tag_j);
                        let known = contains_string(&tags, &list[j]);
                        if !known {
                            tags.push(list[j].clone());
                            proof {
                                assert(strings(tags@) == before.push(tag_j));
                            }
                        }
                        proof {
                            let after = strings(tags@);
                            assert(current.take(j + 1) == current.take(j as int).push(tag_j));
                            assert forall|tag: Seq<char>| #[trigger]
                                after.contains(tag) <==> (tagged_among(all, n, tag)
                                    || current.take(j + 1).contains(tag)) by {
                                lemma_push_contains(current.take(j as int), tag_j, tag);
                                assert(before.contains(tag) <==> (tagged_among(all, n, tag)
                                    || current.take(j as int).contains(tag)));
                                assert(before.contains(tag_j) <==> (tagged_among(all, n, tag_j)
                                    || current.take(j as int).contains(tag_j)));
                                if !known {
                                    lemma_push_contains(before, tag_j, tag);
                                }
                            }
                        }
                        j += 1;
                    }
                    proof {
                        assert(current.take(j as int) == current);
                    }
                },
                None => {
                    proof {
                        assert(current == Seq::<Seq<char>>::empty());
                    }
                },
            }
            proof {
                let after = strings(tags@);
                assert forall|tag: Seq<char>| #[trigger]
                    after.contains(tag) <==> (tagged_among(all, n + 1, tag) || Seq::<
                        Seq<char>,
                    >::empty().contains(tag)) by {
                    lemma_tagged_among_step(all, n, tag);
                    assert(after.contains(tag) <==> (tagged_among(all, n, tag) || current.contains(
                        tag,
                    )));
                }
            }
        }
        proof {
            let pairs = spec_hash_map_iter(&self.db).remaining();
            lemma_walk_lists(self.db@, pairs);
            lemma_tagged_among_all(met(pairs), self@);
            assert forall|tag: Seq<char>| strings(tags@).to_set().contains(tag) <==> all_tags(
                self@,
            ).contains(tag) by {
                assert(strings(tags@).contains(tag) <==> (tagged_among(
                    met(pairs),
                    pairs.len() as int,
                    tag,
                ) || Seq::<Seq<char>>::empty().contains(tag)));
            }
            assert(strings(tags@).to_set() =~= all_tags(self@));
        }
        tags
    }

    /// Returns the records whose type is exactly `ty`, each of them once, in
    /// no particular order.
    pub fn files_of_type(&self, ty: String) -> (files: Vec<FileMetadata>)
        ensures
            lists(records(files@), of_type(self@, ty@)),
    {
        proof {
            use_type_invariant(self);
            lemma_view_of(self.db@);
        }
        let ghost keep = type_is(ty@);
        let mut files: Vec<FileMetadata> = Vec::new();
        proof {
            reveal(Seq::filter);
        }
        for pair in it: self.db.iter()
            invariant
                it.seq() == spec_hash_map_iter(&self.db).remaining(),
                it.seq().no_duplicates(),
                keep == type_is(ty@),
                records(files@) == met(it.seq()).take(it.index() as int).filter(keep),
        {
            let ghost before = records(files@);
            proof {
                reveal(Seq::filter);
                assert(met(it.seq()).take(it.index() + 1).drop_last() == met(it.seq()).take(
                    it.index() as int,
                ));
            }
            if pair.1.ty == ty {
                let file = pair.1.clone();
                files.push(file);
                proof {
                    assert(records(files@) == before.push(file@));
                }
            }
        }
        proof {
            let pairs = spec_hash_map_iter(&self.db).remaining();
            assert(met(pairs).take(pairs.len() as int) == met(pairs));
            lemma_walk_lists(self.db@, pairs);
            lemma_select_lists(met(pairs), self@, keep);
        }
        files
    }

    /// Returns the records that have every tag of `tags`, each of them once,
    /// in no particular order. A record without a tag list is never among
    /// them.
    pub fn files_of_tag(&self, tags: &Vec<String>) -> (files: Vec<FileMetadata>)
        ensures
            lists(records(files@), with_tags(self@, strings(tags@))),
    {
        proof {
            use_type_invariant(self);
            lemma_view_of(self.db@);
        }
        let ghost keep = tagged(strings(tags@));
        let mut files: Vec<FileMetadata> = Vec::new();
        proof {
            reveal(Seq::filter);
        }
        for pair in it: self.db.iter()
            invariant
                it.seq() == spec_hash_map_iter(&self.db).remaining(),
                it.seq().no_duplicates(),
                keep == tagged(strings(tags@)),
                records(files@) == met(it.seq()).take(it.index() as int).filter(keep),
        {
            let ghost before = records(files@);
            proof {
                reveal(Seq::filter);
                assert(met(it.seq()).take(it.index() + 1).drop_last() == met(it.seq()).take(
                    it.index() as int,
                ));
            }
            if has_all_tags(pair.1, tags) {
                let file = pair.1.clone();
                files.push(file);
                proof {
                    assert(records(files@) == before.push(file@));
                }
            }
        }
        proof {
            let pairs = spec_hash_map_iter(&self.db).remaining();
            assert(met(pairs).take(pairs.len() as int) == met(pairs));
            lemma_walk_lists(self.db@, pairs);
            lemma_select_lists(met(pairs), self@, keep);
        }
        files
    }

    /// Looks up the path of the file with the identifier `id`. Fails with
    /// `IdInvalid` when the index has no such record.
    pub fn get_file_path(&self, id: u64) -> (path: Result<String, FileErr>)
        ensures
            match path {
                Ok(p) => self@.contains_key(id) && p@ == self@[id].path,
                Err(e) => !self@.contains_key(id) && e == FileErr::IdInvalid,
            },
    {
        proof {
            use_type_invariant(self);
            lemma_view_of(self.db@);
        }
        match self.db.get(&id) {
            Some(file) => Ok(file.path.clone()),
            None => Err(FileErr::IdInvalid),
        }
    }

    /// Scans the directory `node`, found at `root`, and adds the records of
    /// its indexable files. Fails with `PathDoesNotExist` when `node` is not a
    /// directory, and with `DuplicateId` when an identifier is already in the
    /// index or comes up twice in the scan; the index is then left as it was.
    pub fn add_dir(&mut self, root: &str, node: &Node) -> (done: Result<(), FileErr>)
        ensures
            final(self).index_file_view() == old(self).index_file_view(),
            match done {
                Ok(()) => add_dir_of(old(self)@, root@, *node) == Ok::<_, FileErr>(final(self)@),
                Err(e) => add_dir_of(old(self)@, root@, *node) == Err::<Map<u64, FileRecord>, _>(e)
                    && final(self)@ == old(self)@,
            },
            keyed_by_id(final(self)@),
            final(self)@.dom().finite(),
    {
        proof {
            use_type_invariant(&*self);
            lemma_view_of(self.db@);
        }
        let found = match files_in_dir(root, node, None) {
            Ok(found) => found,
            Err(e) => {
                return Err(e);
            },
        };
        let ghost list = records(found@);
        let mut seen: HashSet<u64> = HashSet::new();
        let mut i: usize = 0;
        while i < found.len()
            invariant
                i <= found.len(),
                list == records(found@),
                scan_of(root@, *node, None) == Ok::<_, FileErr>(list),
                self@ == old(self)@,
                self.db@ == old(self).db@,
                self.index_file_view() == old(self).index_file_view(),
                self@.dom() == self.db@.dom(),
                keyed_by_id(self@),
                self@.dom().finite(),
                insertable(self@, list.take(i as int)),
                forall|k: u64| seen@.contains(k) <==> exists|j: int|
                    0 <= j < i && (#[trigger] list[j]).id == k,
            decreases found.len() - i,
        {
            let key = found[i].id;
            assert(list[i as int].id == key);
            if self.db.contains_key(&key) || seen.contains(&key) {
                proof {
                    if self@.contains_key(key) {
                        assert(self@.contains_key(list[i as int].id));
                    } else {
                        assert(seen@.contains(key));
                        let j = choose|j: int| 0 <= j < i && (#[trigger] list[j]).id == key;
                        assert(list[j].id == list[i as int].id);
                    }
                    assert(!insertable(self@, list));
                }
                return Err(FileErr::DuplicateId);
            }
            seen.insert(key);
            proof {
                let longer = list.take(i + 1);
                assert forall|a: int, b: int| 0 <= a < b < longer.len() implies (
                #[trigger] longer[a]).id != (#[trigger] longer[b]).id by {
                    if b == i {
                        assert(list[a].id != key);
                    } else {
                        assert(list.take(i as int)[a].id != list.take(i as int)[b].id);
                    }
                }
                assert forall|a: int| 0 <= a < longer.len() implies !self@.contains_key(
                    (#[trigger] longer[a]).id,
                ) by {
                    if a < i {
                        assert(list.take(i as int)[a].id == longer[a].id);
                    }
                }
            }
            i += 1;
        }
        proof {
            assert(list.take(i as int) == list);
        }
        let mut db: HashMap<u64, FileMetadata> = HashMap::new();
        std::mem::swap(&mut self.db, &mut db);
        proof {
            assert(list.take(0) == Seq::<FileRecord>::empty());
        }
        for file in it: found
            invariant
                records(it.seq()) == list,
                db@.map_values(|f: FileMetadata| f@) == insert_all(
                    old(self)@,
                    list.take(it.index() as int),
                ),
                forall|k: u64| db@.contains_key(k) ==> (#[trigger] db@[k]).id == k,
        {
            let ghost before = db@;
            let ghost record = file@;
            proof {
                assert(list.take(it.index() + 1).drop_last() == list.take(it.index() as int));
                assert(list.take(it.index() + 1).last() == record);
            }
            db.insert(file.id, file);
            proof {
                assert(db@.map_values(|f: FileMetadata| f@) == before.map_values(
                    |f: FileMetadata| f@,
                ).insert(record.id, record));
            }
        }
        std::mem::swap(&mut self.db, &mut db);
        proof {
            assert(list.take(list.len() as int) == list);
            lemma_view_of(self.db@);
        }
        Ok(())
    }

    /// Adds the record of the file at `path`. A path that is not indexable
    /// leaves the index as it is. Fails with `DuplicateId` when the file's
    /// identifier is already in the index.
    pub fn add_file(&mut self, path: &str) -> (done: Result<(), FileErr>)
        ensures
            final(self).index_file_view() == old(self).index_file_view(),
            match done {
                Ok(()) => add_file_of(old(self)@, path@) == Ok::<_, FileErr>(final(self)@),
                Err(e) => add_file_of(old(self)@, path@) == Err::<Map<u64, FileRecord>, _>(e)
                    && final(self)@ == old(self)@,
            },
            keyed_by_id(final(self)@),
            final(self)@.dom().finite(),
    {
        proof {
            use_type_invariant(&*self);
            lemma_view_of(self.db@);
        }
        if !is_indexable(path, false) {
            return Ok(());
        }
        match file_metadata(path, None) {
            Some(file) => self.add_file_to_db(file),
            None => Ok(()),
        }
    }

    /// Puts `file` into the index under its identifier. Fails with
    /// `DuplicateId`, and changes nothing, when a record already has that
    /// identifier.
    pub fn add_file_to_db(&mut self, file: FileMetadata) -> (done: Result<(), FileErr>)
        ensures
            final(self).index_file_view() == old(self).index_file_view(),
            match done {
                Ok(()) => !old(self)@.contains_key(file.id) && final(self)@ == old(self)@.insert(
                    file.id,
                    file@,
                ),
                Err(e) => e == FileErr::DuplicateId && old(self)@.contains_key(file.id)
                    && final(self)@ == old(self)@,
            },
            keyed_by_id(final(self)@),
            final(self)@.dom().finite(),
    {
        proof {
            use_type_invariant(&*self);
            lemma_view_of(self.db@);
        }
        if self.db.contains_key(&file.id) {
            return Err(FileErr::DuplicateId);
        }
        let ghost before = self.db@;
        let ghost record = file@;
        let mut db: HashMap<u64, FileMetadata> = HashMap::new();
        std::mem::swap(&mut self.db, &mut db);
        db.insert(file.id, file);
        std::mem::swap(&mut self.db, &mut db);
        proof {
            assert(self.db@.map_values(|f: FileMetadata| f@) == before.map_values(
                |f: FileMetadata| f@,
            ).insert(record.id, record));
            lemma_view_of(self.db@);
        }
        Ok(())
    }
}

/// Whether one of the first `n` records of `list` has the tag `tag`.
spec fn tagged_among(list: Seq<FileRecord>, n: int, tag: Seq<char>) -> bool {
    exists|i: int| 0 <= i < n && i < list.len() && tag_list((#[trigger] list[i]).tags).contains(tag)
}

/// Whether `out` holds just the tags of the first `n` records of `list` and
/// the tags of `extra`.
spec fn collects(
    out: Seq<Seq<char>>,
    list: Seq<FileRecord>,
    n: int,
    extra: Seq<Seq<char>>,
) -> bool {
    forall|tag: Seq<char>| #[trigger]
        out.contains(tag) <==> (tagged_among(list, n, tag) || extra.contains(tag))
}

/// One more record adds its own tags to those of the records before it.
proof fn lemma_tagged_among_step(list: Seq<FileRecord>, n: int, tag: Seq<char>)
    requires
        0 <= n < list.len(),
    ensures
        tagged_among(list, n + 1, tag) <==> (tagged_among(list, n, tag) || tag_list(
            list[n].tags,
        ).contains(tag)),
{
    if tagged_among(list, n + 1, tag) {
        let i = choose|i: int|
            0 <= i < n + 1 && i < list.len() && tag_list((#[trigger] list[i]).tags).contains(tag);
        if i < n {
            assert(tagged_among(list, n, tag));
        }
    }
    if tagged_among(list, n, tag) {
        let i = choose|i: int|
            0 <= i < n && i < list.len() && tag_list((#[trigger] list[i]).tags).contains(tag);
        assert(0 <= i < n + 1 && tag_list(list[i].tags).contains(tag));
    }
    if tag_list(list[n].tags).contains(tag) {
        assert(0 <= n < n + 1 && tag_list(list[n].tags).contains(tag));
    }
}

/// The tags of a list that holds the records of a map are the map's tags.
proof fn lemma_tagged_among_all(list: Seq<FileRecord>, map: Map<u64, FileRecord>)
    requires
        lists(list, map),
    ensures
        forall|tag: Seq<char>|
            tagged_among(list, list.len() as int, tag) <==> all_tags(map).contains(tag),
{
    assert forall|tag: Seq<char>| tagged_among(list, list.len() as int, tag) <==> all_tags(
        map,
    ).contains(tag) by {
        if tagged_among(list, list.len() as int, tag) {
            let i = choose|i: int|
                0 <= i < list.len() && i < list.len() && tag_list(
                    (#[trigger] list[i]).tags,
                ).contains(tag);
            assert(map.contains_key(list[i].id) && map[list[i].id] == list[i]);
        }
        if all_tags(map).contains(tag) {
            let k = choose|k: u64|
                map.contains_key(k) && tag_list((#[trigger] map[k]).tags).contains(tag);
            assert(list.contains(map[k]));
            let i = choose|i: int| 0 <= i < list.len() && list[i] == map[k];
            assert(tag_list(list[i].tags).contains(tag));
        }
    }
}

/// What a sequence holds after one more element.
proof fn lemma_push_contains<T>(s: Seq<T>, last: T, x: T)
    ensures
        s.push(last).contains(x) <==> (s.contains(x) || x == last),
{
    let longer = s.push(last);
    if longer.contains(x) {
        let i = choose|i: int| 0 <= i < longer.len() && longer[i] == x;
        if i < s.len() {
            assert(s[i] == x);
        }
    }
    if s.contains(x) {
        let i = choose|i: int| 0 <= i < s.len() && s[i] == x;
        assert(longer[i] == x);
    }
    if x == last {
        assert(longer[s.len() as int] == x);
    }
}

/// A walk over the entries of a table whose keys are the records'
/// identifiers meets the records of the index, each of them once.
proof fn lemma_walk_lists<'a>(
    db: Map<u64, FileMetadata>,
    pairs: Seq<(&'a u64, &'a FileMetadata)>,
)
    requires
        forall|k: u64| db.contains_key(k) ==> (#[trigger] db[k]).id == k,
        pairs.no_duplicates(),
        forall|i: int|
            0 <= i < pairs.len() ==> db.contains_key(*(#[trigger] pairs[i]).0) && db[*pairs[i].0]
                == *pairs[i].1,
        forall|k: u64| #[trigger] db.contains_key(k) ==> pairs.contains((&k, &db[k])),
    ensures
        lists(met(pairs), db.map_values(|f: FileMetadata| f@)),
{
    let list = met(pairs);
    let map = db.map_values(|f: FileMetadata| f@);
    assert forall|i: int, j: int| 0 <= i < j < list.len() implies (#[trigger] list[i]).id != (
    #[trigger] list[j]).id by {
        assert(db.contains_key(*pairs[i].0));
        assert(db.contains_key(*pairs[j].0));
        if list[i].id == list[j].id {
            assert(pairs[i] == pairs[j]);
        }
    }
    assert forall|i: int| 0 <= i < list.len() implies map.contains_key((#[trigger] list[i]).id)
        && map[list[i].id] == list[i] by {
        assert(db.contains_key(*pairs[i].0));
    }
    assert forall|k: u64| map.contains_key(k) implies list.contains(#[trigger] map[k]) by {
        assert(db.contains_key(k));
        assert(pairs.contains((&k, &db[k])));
        let i = choose|i: int| 0 <= i < pairs.len() && pairs[i] == (&k, &db[k]);
        assert(list[i] == map[k]);
    }
}

/// What is left of a list after a selection: the elements that the selection
/// holds of, with their identifiers as distinct as they were.
pub proof fn lemma_filter_keeps(list: Seq<FileRecord>, keep: spec_fn(FileRecord) -> bool)
    ensures
        forall|file: FileRecord| #[trigger]
            list.filter(keep).contains(file) <==> (list.contains(file) && keep(file)),
        (forall|i: int, j: int|
            0 <= i < j < list.len() ==> (#[trigger] list[i]).id != (#[trigger] list[j]).id)
            ==> (forall|i: int, j: int|
            0 <= i < j < list.filter(keep).len() ==> (#[trigger] list.filter(keep)[i]).id != (
            #[trigger] list.filter(keep)[j]).id),
    decreases list.len(),
{
    reveal(Seq::filter);
    if list.len() > 0 {
        let init = list.drop_last();
        let last = list.last();
        lemma_filter_keeps(init, keep);
        let kept = list.filter(keep);
        let kept_init = init.filter(keep);
        assert forall|file: FileRecord| #[trigger]
            kept.contains(file) <==> (list.contains(file) && keep(file)) by {
            assert(kept_init.contains(file) <==> (init.contains(file) && keep(file)));
            lemma_push_contains(init, last, file);
            assert(init.push(last) == list);
            if keep(last) {
                lemma_push_contains(kept_init, last, file);
            }
        }
        if forall|i: int, j: int|
            0 <= i < j < list.len() ==> (#[trigger] list[i]).id != (#[trigger] list[j]).id {
            assert forall|i: int, j: int| 0 <= i < j < init.len() implies (#[trigger] init[i]).id
                != (#[trigger] init[j]).id by {
                assert(init[i] == list[i] && init[j] == list[j]);
            }
            assert forall|i: int, j: int| 0 <= i < j < kept.len() implies (#[trigger] kept[i]).id
                != (#[trigger] kept[j]).id by {
                if j < kept_init.len() {
                    assert(kept[i] == kept_init[i] && kept[j] == kept_init[j]);
                } else {
                    assert(kept[j] == last);
                    assert(kept[i] == kept_init[i]);
                    assert(kept_init.contains(kept_init[i]));
                    assert(init.contains(kept[i]));
                    let a = choose|a: int| 0 <= a < init.len() && init[a] == kept[i];
                    assert(list[a] == kept[i]);
                    assert(list[a].id != list[list.len() - 1].id);
                }
            }
        }
    }
}

/// A selection from a list that holds the records of a map holds the
/// selected records of the map.
pub proof fn lemma_select_lists(
    list: Seq<FileRecord>,
    map: Map<u64, FileRecord>,
    keep: spec_fn(FileRecord) -> bool,
)
    requires
        lists(list, map),
    ensures
        lists(list.filter(keep), select(map, keep)),
{
    lemma_filter_keeps(list, keep);
    let kept = list.filter(keep);
    let chosen = select(map, keep);
    assert forall|i: int| 0 <= i < kept.len() implies chosen.contains_key((#[trigger] kept[i]).id)
        && chosen[kept[i].id] == kept[i] by {
        assert(kept.contains(kept[i]));
        assert(list.contains(kept[i]) && keep(kept[i]));
        let a = choose|a: int| 0 <= a < list.len() && list[a] == kept[i];
        assert(map.contains_key(list[a].id) && map[list[a].id] == list[a]);
    }
    assert forall|k: u64| chosen.contains_key(k) implies kept.contains(#[trigger] chosen[k]) by {
        assert(list.contains(map[k]));
        assert(kept.contains(map[k]) <==> (list.contains(map[k]) && keep(map[k])));
    }
}

/// What `insert_all` leaves in the map when the records can all be added:
/// what was there, and each record of the list under its identifier.
pub proof fn lemma_insert_all(map: Map<u64, FileRecord>, list: Seq<FileRecord>)
    requires
        insertable(map, list),
    ensures
        forall|k: u64| #[trigger]
            insert_all(map, list).contains_key(k) <==> (map.contains_key(k) || exists|i: int|
                0 <= i < list.len() && (#[trigger] list[i]).id == k),
        forall|k: u64| map.contains_key(k) ==> #[trigger] insert_all(map, list)[k] == map[k],
        forall|i: int|
            0 <= i < list.len() ==> insert_all(map, list)[(#[trigger] list[i]).id] == list[i],
        keyed_by_id(map) ==> keyed_by_id(insert_all(map, list)),
        map.dom().finite() ==> insert_all(map, list).dom().finite() && insert_all(map, list).len()
            == map.len() + list.len(),
    decreases list.len(),
{
    if list.len() > 0 {
        let init = list.drop_last();
        let last = list.last();
        let before = insert_all(map, init);
        let after = insert_all(map, list);
        assert forall|i: int| 0 <= i < init.len() implies !map.contains_key(
            (#[trigger] init[i]).id,
        ) by {
            assert(init[i] == list[i]);
        }
        assert forall|i: int, j: int| 0 <= i < j < init.len() implies (#[trigger] init[i]).id != (
        #[trigger] init[j]).id by {
            assert(init[i] == list[i] && init[j] == list[j]);
        }
        lemma_insert_all(map, init);
        assert(!before.contains_key(last.id)) by {
            assert(!map.contains_key(list[list.len() - 1].id));
            if exists|i: int| 0 <= i < init.len() && (#[trigger] init[i]).id == last.id {
                let i = choose|i: int| 0 <= i < init.len() && (#[trigger] init[i]).id == last.id;
                assert(list[i].id != list[list.len() - 1].id);
            }
        }
        assert forall|k: u64| #[trigger]
            after.contains_key(k) <==> (map.contains_key(k) || exists|i: int|
                0 <= i < list.len() && (#[trigger] list[i]).id == k) by {
            if after.contains_key(k) {
                if k == last.id {
                    assert(list[list.len() - 1].id == k);
                } else {
                    assert(before.contains_key(k));
                    if !map.contains_key(k) {
                        let i = choose|i: int| 0 <= i < init.len() && (#[trigger] init[i]).id == k;
                        assert(list[i].id == k);
                    }
                }
            }
            if exists|i: int| 0 <= i < list.len() && (#[trigger] list[i]).id == k {
                let i = choose|i: int| 0 <= i < list.len() && (#[trigger] list[i]).id == k;
                if i < init.len() {
                    assert(init[i].id == k);
                    assert(before.contains_key(k));
                }
            }
            if map.contains_key(k) {
                assert(before.contains_key(k));
            }
        }
        assert forall|k: u64| map.contains_key(k) implies #[trigger] after[k] == map[k] by {
            assert(before.contains_key(k));
            assert(before[k] == map[k]);
        }
        assert forall|i: int| 0 <= i < list.len() implies after[(#[trigger] list[i]).id]
            == list[i] by {
            if i < init.len() {
                assert(init[i] == list[i]);
                assert(before[init[i].id] == init[i]);
                assert(before.contains_key(init[i].id));
            }
        }
        if keyed_by_id(map) {
            assert forall|k: u64| after.contains_key(k) implies (#[trigger] after[k]).id == k by {
                if k != last.id {
                    assert(before.contains_key(k));
                }
            }
        }
    }
}

/// Loading gives back what was persisted: an index made from a list that
/// holds the records of an index, each of them once, is that index.
pub proof fn lemma_reload(list: Seq<FileRecord>, map: Map<u64, FileRecord>)
    requires
        keyed_by_id(map),
        lists(list, map),
    ensures
        insert_all(Map::empty(), list) == map,
{
    let empty = Map::<u64, FileRecord>::empty();
    let loaded = insert_all(empty, list);
    lemma_insert_all(empty, list);
    assert forall|k: u64| loaded.contains_key(k) <==> map.contains_key(k) by {
        if loaded.contains_key(k) {
            let i = choose|i: int| 0 <= i < list.len() && (#[trigger] list[i]).id == k;
            assert(map.contains_key(list[i].id));
        }
        if map.contains_key(k) {
            assert(list.contains(map[k]));
            let i = choose|i: int| 0 <= i < list.len() && list[i] == map[k];
            assert(list[i].id == k);
        }
    }
    assert forall|k: u64| loaded.contains_key(k) implies loaded[k] == map[k] by {
        let i = choose|i: int| 0 <= i < list.len() && (#[trigger] list[i]).id == k;
        assert(loaded[list[i].id] == list[i]);
        assert(map[list[i].id] == list[i]);
    }
    assert(loaded =~= map);
}

/// The types partition the index: every record is among the records of its
/// own type and of no other, and the records of a type are records of the
/// index.
pub proof fn lemma_types_partition(map: Map<u64, FileRecord>)
    ensures
        forall|k: u64| #[trigger]
            map.contains_key(k) ==> of_type(map, map[k].ty).contains_key(k),
        forall|ty: Seq<char>, k: u64| #[trigger]
            of_type(map, ty).contains_key(k) ==> map.contains_key(k) && map[k].ty == ty
                && of_type(map, ty)[k] == map[k],
        forall|a: Seq<char>, b: Seq<char>|
            a != b ==> (#[trigger] of_type(map, a)).dom().disjoint((#[trigger] of_type(map, b)).dom()),
{
    assert forall|a: Seq<char>, b: Seq<char>| a != b implies (#[trigger] of_type(
        map,
        a,
    )).dom().disjoint((#[trigger] of_type(map, b)).dom()) by {
        assert forall|k: u64|
            !(of_type(map, a).dom().contains(k) && of_type(map, b).dom().contains(k)) by {}
    }
}

/// A scan taken into an empty index is split by `of_type` exactly by
/// extension: the records of type `ty` are the scanned files whose extension,
/// in lower case, is `ty`.
pub proof fn lemma_scan_split_by_extension(root: Seq<char>, node: Node, ty: Seq<char>)
    requires
        add_dir_of(Map::empty(), root, node) is Ok,
    ensures
        scan_of(root, node, None) matches Ok(found) && add_dir_of(Map::empty(), root, node)
            matches Ok(index) && {
            &&& lists(found, index)
            &&& forall|i: int|
                0 <= i < found.len() ==> (of_type(index, ty).contains_key(
                    (#[trigger] found[i]).id,
                ) <==> file_type_of(file_name_of(found[i].path)) == ty)
            &&& forall|k: u64| #[trigger]
                of_type(index, ty).contains_key(k) ==> found.contains(index[k]) && extension_of(
                    index[k].name,
                ) is Some && file_type_of(index[k].name) == ty
        },
{
    let empty = Map::<u64, FileRecord>::empty();
    match node {
        Node::Dir(entries) => {
            let found = scan_entries(root, entries@, None);
            let index = insert_all(empty, found);
            lemma_insert_all(empty, found);
            lemma_scan_records(root, entries@, None);
            assert forall|k: u64| index.contains_key(k) implies found.contains(
                #[trigger] index[k],
            ) by {
                let i = choose|i: int| 0 <= i < found.len() && (#[trigger] found[i]).id == k;
                assert(index[found[i].id] == found[i]);
            }
            assert forall|i: int| 0 <= i < found.len() implies index.contains_key(
                (#[trigger] found[i]).id,
            ) && index[found[i].id] == found[i] by {}
            assert forall|k: u64| #[trigger] of_type(index, ty).contains_key(k) implies found.contains(
                index[k],
            ) && extension_of(index[k].name) is Some && file_type_of(index[k].name) == ty by {
                assert(found.contains(index[k]));
                let i = choose|i: int| 0 <= i < found.len() && found[i] == index[k];
            }
        },
        _ => {},
    }
}

/// Asking for more tags never gives more records: a record that has every
/// tag of a list has every tag of each part of it.
pub proof fn lemma_more_tags_fewer_files(
    map: Map<u64, FileRecord>,
    tags: Seq<Seq<char>>,
    more: Seq<Seq<char>>,
)
    ensures
        with_tags(map, tags + more).submap_of(with_tags(map, tags)),
        with_tags(map, tags + more).submap_of(with_tags(map, more)),
        forall|k: u64|
            with_tags(map, tags).contains_key(k) && with_tags(map, more).contains_key(k)
                ==> #[trigger] with_tags(map, tags + more).contains_key(k),
{
    let both = tags + more;
    assert forall|file: FileRecord| has_tags(file, both) <==> (has_tags(file, tags) && has_tags(
        file,
        more,
    )) by {
        if has_tags(file, both) {
            assert forall|i: int| 0 <= i < tags.len() implies file.tags->0.contains(
                #[trigger] tags[i],
            ) by {
                assert(both[i] == tags[i]);
            }
            assert forall|i: int| 0 <= i < more.len() implies file.tags->0.contains(
                #[trigger] more[i],
            ) by {
                assert(both[tags.len() + i] == more[i]);
            }
        }
        if has_tags(file, tags) && has_tags(file, more) {
            assert forall|i: int| 0 <= i < both.len() implies file.tags->0.contains(
                #[trigger] both[i],
            ) by {
                if i < tags.len() {
                    assert(both[i] == tags[i]);
                } else {
                    assert(both[i] == more[i - tags.len()]);
                }
            }
        }
    }
    assert forall|k: u64| #[trigger] with_tags(map, both).contains_key(k) implies with_tags(
        map,
        tags,
    ).contains_key(k) && with_tags(map, more).contains_key(k) by {
        assert(has_tags(map[k], both));
    }
    assert forall|k: u64|
        with_tags(map, tags).contains_key(k) && with_tags(map, more).contains_key(
            k,
        ) implies #[trigger] with_tags(map, both).contains_key(k) by {
        assert(has_tags(map[k], tags) && has_tags(map[k], more));
    }
}

/// Tells whether `wanted` is among the strings of `list`.
pub fn contains_string(list: &Vec<String>, wanted: &String) -> (found: bool)
    ensures
        found == strings(list@).contains(wanted@),
{
    let mut i: usize = 0;
    while i < list.len()
        invariant
            i <= list.len(),
            forall|j: int| 0 <= j < i ==> strings(list@)[j] != wanted@,
        decreases list.len() - i,
    {
        if list[i] == *wanted {
            assert(strings(list@)[i as int] == wanted@);
            return true;
        }
        i += 1;
    }
    false
}

/// Tells whether `file` has every tag of `tags`.
pub fn has_all_tags(file: &FileMetadata, tags: &Vec<String>) -> (all: bool)
    ensures
        all == has_tags(file@, strings(tags@)),
{
    match &file.tags {
        None => false,
        Some(own) => {
            let mut i: usize = 0;
            while i < tags.len()
                invariant
                    i <= tags.len(),
                    file@.tags == Some(strings(own@)),
                    forall|j: int|
                        0 <= j < i ==> strings(own@).contains(#[trigger] strings(tags@)[j]),
                decreases tags.len() - i,
            {
                if !contains_string(own, &tags[i]) {
                    assert(strings(tags@)[i as int] == tags@[i as int]@);
                    return false;
                }
                i += 1;
            }
            true
        },
    }
}

/// Keeps the files of type `ty`, in their order; with an empty `ty`, all of
/// them.
pub fn narrow_to_type(files: Vec<FileMetadata>, ty: &str) -> (kept: Vec<FileMetadata>)
    ensures
        records(kept@) == if ty@.len() == 0 {
            records(files@)
        } else {
            records(files@).filter(type_is(ty@))
        },
{
    let wanted = ty.to_owned();
    if ty.is_empty() {
        return files;
    }
    let ghost keep = type_is(ty@);
    let ghost list = records(files@);
    let mut kept: Vec<FileMetadata> = Vec::new();
    proof {
        reveal(Seq::filter);
    }
    for file in it: files
        invariant
            records(it.seq()) == list,
            keep == type_is(ty@),
            wanted@ == ty@,
            records(kept@) == list.take(it.index() as int).filter(keep),
    {
        let ghost before = records(kept@);
        proof {
            reveal(Seq::filter);
            assert(list.take(it.index() + 1).drop_last() == list.take(it.index() as int));
            assert(list.take(it.index() + 1).last() == file@);
        }
        if file.ty == wanted {
            proof {
                assert(records(kept@.push(file)) == before.push(file@));
            }
            kept.push(file);
        }
    }
    proof {
        assert(list.take(list.len() as int) == list);
    }
    kept
}

/// What the view of an index is, given its table.
proof fn lemma_view_of(db: Map<u64, FileMetadata>)
    requires
        db.dom().finite(),
        forall|k: u64| db.contains_key(k) ==> (#[trigger] db[k]).id == k,
    ensures
        keyed_by_id(db.map_values(|f: FileMetadata| f@)),
        db.map_values(|f: FileMetadata| f@).dom().finite(),
        db.map_values(|f: FileMetadata| f@).dom() == db.dom(),
{
    assert(db.map_values(|f: FileMetadata| f@).dom() =~= db.dom());
}

/// Puts the loaded records into a table, each under its identifier. Where
/// two of them share an identifier, the later one stays.
pub fn deserialize_db(files: Vec<FileMetadata>) -> (db: HashMap<u64, FileMetadata>)
    ensures
        db@.map_values(|f: FileMetadata| f@) == insert_all(Map::empty(), records(files@)),
        forall|k: u64| db@.contains_key(k) ==> (#[trigger] db@[k]).id == k,
{
    let mut db: HashMap<u64, FileMetadata> = HashMap::new();
    let ghost list = records(files@);
    proof {
        assert(list.take(0) == Seq::<FileRecord>::empty());
        assert(db@.map_values(|f: FileMetadata| f@) == Map::<u64, FileRecord>::empty());
    }
    for file in it: files
        invariant
            records(it.seq()) == list,
            db@.map_values(|f: FileMetadata| f@) == insert_all(
                Map::empty(),
                list.take(it.index() as int),
            ),
            forall|k: u64| db@.contains_key(k) ==> (#[trigger] db@[k]).id == k,
    {
        let ghost before = db@;
        let ghost record = file@;
        proof {
            assert(list.take(it.index() + 1).drop_last() == list.take(it.index() as int));
            assert(list.take(it.index() + 1).last() == record);
        }
        db.insert(file.id, file);
        proof {
            assert(db@.map_values(|f: FileMetadata| f@) == before.map_values(
                |f: FileMetadata| f@,
            ).insert(record.id, record));
        }
    }
    proof {
        assert(list.take(list.len() as int) == list);
    }
    db
}

} // verus!
