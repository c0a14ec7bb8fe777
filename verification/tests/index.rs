use pea_server::identity::id;
use pea_server::index::{contains_string, deserialize_db, has_all_tags, narrow_to_type, FileIndex};
use pea_server::metadata::{FileErr, FileMetadata};
use pea_server::scan::{Entry, Node};

fn strings(items: &[&str]) -> Vec<String> {
    items.iter().map(|each| each.to_string()).collect()
}

fn record(name: &str, id: u64, ty: &str, path: &str, tags: Option<&[&str]>) -> FileMetadata {
    FileMetadata {
        name: name.to_string(),
        id,
        ty: ty.to_string(),
        path: path.to_string(),
        tags: tags.map(strings),
    }
}

fn file(name: &str) -> Entry {
    Entry { name: name.to_string(), node: Node::File }
}

fn dir(name: &str, entries: Vec<Entry>) -> Entry {
    Entry { name: name.to_string(), node: Node::Dir(entries) }
}

fn nested() -> Node {
    Node::Dir(vec![
        file("1.mp4"),
        dir("a", vec![file("2.mp4"), dir("b", vec![file("3.mp4")])]),
        dir("c", vec![dir("b", vec![file("4.mp4")])]),
    ])
}

fn tagged_files() -> Vec<FileMetadata> {
    vec![
        record("1.txt", 1, "txt", "./dummy-file/1.txt", Some(&["tag1", "tag2"])),
        record("2.mp4", 2, "mp4", "./dummy-file/2.mp4", Some(&["tag1", "tag2", "tag3", "tag4"])),
        record("3.mp4", 3, "mp4", "./dummy-file/2.mp4", Some(&["tag1"])),
    ]
}

fn index_for_dir(index_path: &str, root: &str, node: &Node) -> FileIndex {
    let mut index = FileIndex::new(index_path, Err(FileErr::IndexDoesNotExist));
    index.add_dir(root, node).expect("expect indexing directory to succeed");
    index
}

fn names(mut files: Vec<FileMetadata>) -> Vec<String> {
    files.sort_by_key(|each| each.id);
    files.into_iter().map(|each| each.name).collect()
}

#[test]
fn test_tags() {
    let file_index = index_for_dir("./libtest_5.index", "./libtest_5", &nested());
    let mut sorted_tags = file_index.tags();
    sorted_tags.sort_unstable();
    let expected = vec!["a".to_string(), "b".to_string(), "c".to_string()];
    assert_eq!(sorted_tags, expected);
}

#[test]
fn a_missing_index_file_gives_an_empty_index() {
    let index = FileIndex::new("./content/index.json", Err(FileErr::IndexDoesNotExist));
    assert_eq!(index.files(), []);
    assert_eq!(index.tags(), Vec::<String>::new());
    assert_eq!(index.index_file(), "./content/index.json");
    let invalid = FileIndex::new("./content/index.json", Err(FileErr::IndexInvalid));
    assert_eq!(invalid.files(), []);
}

#[test]
fn a_loaded_index_holds_the_loaded_records() {
    let index = FileIndex::new("i.json", Ok(tagged_files()));
    let mut files = index.files();
    files.sort_by_key(|each| each.id);
    assert_eq!(files, tagged_files());
}

#[test]
fn loading_keeps_the_later_of_two_records_with_one_id() {
    let loaded = vec![
        record("old.txt", 7, "txt", "./old.txt", None),
        record("other.txt", 8, "txt", "./other.txt", None),
        record("new.txt", 7, "txt", "./new.txt", None),
    ];
    let index = FileIndex::new("i.json", Ok(loaded));
    assert_eq!(names(index.files()), ["new.txt", "other.txt"]);
    assert_eq!(index.get_file_path(7), Ok("./new.txt".to_string()));
}

#[test]
fn deserialize_db_keys_the_records_by_id() {
    let db = deserialize_db(tagged_files());
    assert_eq!(db.len(), 3);
    assert_eq!(db.get(&2).map(|each| each.name.as_str()), Some("2.mp4"));
    assert_eq!(db.get(&4), None);
}

#[test]
fn persisting_and_loading_gives_the_same_index() {
    let index = index_for_dir("i.json", "./libtest_5", &nested());
    let reloaded = FileIndex::new("i.json", Ok(index.files()));
    let mut before = index.files();
    let mut after = reloaded.files();
    before.sort_by_key(|each| each.id);
    after.sort_by_key(|each| each.id);
    assert_eq!(before.len(), 4);
    assert_eq!(before, after);
}

#[test]
fn files_of_type_matches_the_type_exactly() {
    let index = FileIndex::new("i.json", Ok(tagged_files()));
    assert_eq!(names(index.files_of_type("txt".to_string())), ["1.txt"]);
    assert_eq!(names(index.files_of_type("mp4".to_string())), ["2.mp4", "3.mp4"]);
    assert_eq!(index.files_of_type("MP4".to_string()), []);
    assert_eq!(index.files_of_type("mp".to_string()), []);
    assert_eq!(index.files_of_type("".to_string()), []);
}

#[test]
fn types_partition_a_scanned_directory() {
    let tree = Node::Dir(vec![
        file("1.mp4"),
        file("2.jpg"),
        file("3.MP4"),
        dir("a", vec![file("4.jpg"), file("5.txt")]),
    ]);
    let index = index_for_dir("i.json", "r", &tree);
    assert_eq!(index.files().len(), 5);
    let mut mp4 = names(index.files_of_type("mp4".to_string()));
    mp4.sort();
    assert_eq!(mp4, ["1.mp4", "3.MP4"]);
    let mut jpg = names(index.files_of_type("jpg".to_string()));
    jpg.sort();
    assert_eq!(jpg, ["2.jpg", "4.jpg"]);
    assert_eq!(names(index.files_of_type("txt".to_string())), ["5.txt"]);
    for file in index.files() {
        let same = index.files_of_type(file.ty.clone());
        assert!(same.contains(&file));
    }
}

#[test]
fn tag_query_wants_every_tag() {
    let files = vec![
        record("1.mp4", 1, "mp4", "./r/a/b/1.mp4", Some(&["a", "b"])),
        record("2.mp4", 2, "mp4", "./r/a/b/c/d/2.mp4", Some(&["a", "b", "c", "d"])),
        record("3.mp4", 3, "mp4", "./r/a/3.mp4", Some(&["a"])),
    ];
    let index = FileIndex::new("i.json", Ok(files));
    assert_eq!(names(index.files_of_tag(&strings(&["a", "b"]))), ["1.mp4", "2.mp4"]);
    assert_eq!(names(index.files_of_tag(&strings(&["b", "a"]))), ["1.mp4", "2.mp4"]);
    assert_eq!(names(index.files_of_tag(&strings(&["a"]))), ["1.mp4", "2.mp4", "3.mp4"]);
    assert_eq!(names(index.files_of_tag(&strings(&["d", "a"]))), ["2.mp4"]);
    assert_eq!(index.files_of_tag(&strings(&["a", "e"])), []);
}

#[test]
fn a_record_without_a_tag_list_matches_no_tag_query() {
    let files = vec![
        record("1.mp4", 1, "mp4", "./r/1.mp4", None),
        record("2.mp4", 2, "mp4", "./r/2.mp4", Some(&[])),
        record("3.mp4", 3, "mp4", "./r/a/3.mp4", Some(&["a"])),
    ];
    let index = FileIndex::new("i.json", Ok(files));
    assert_eq!(names(index.files_of_tag(&Vec::new())), ["2.mp4", "3.mp4"]);
    assert_eq!(names(index.files_of_tag(&strings(&["a"]))), ["3.mp4"]);
}

#[test]
fn type_and_tags_together() {
    let index = FileIndex::new("i.json", Ok(tagged_files()));
    let tags = strings(&["tag1", "tag2"]);
    assert_eq!(names(narrow_to_type(index.files_of_tag(&tags), "mp4")), ["2.mp4"]);
    assert_eq!(names(narrow_to_type(index.files_of_tag(&tags), "")), ["1.txt", "2.mp4"]);
    assert_eq!(narrow_to_type(index.files_of_tag(&tags), "jpg"), []);
}

#[test]
fn narrow_to_type_keeps_the_order() {
    let kept = narrow_to_type(tagged_files(), "mp4");
    let kept_names: Vec<&str> = kept.iter().map(|each| each.name.as_str()).collect();
    assert_eq!(kept_names, ["2.mp4", "3.mp4"]);
    assert_eq!(narrow_to_type(tagged_files(), ""), tagged_files());
}

#[test]
fn all_tags_come_once() {
    let index = FileIndex::new("i.json", Ok(tagged_files()));
    let mut tags = index.tags();
    tags.sort();
    assert_eq!(tags, strings(&["tag1", "tag2", "tag3", "tag4"]));
}

#[test]
fn get_file_path_by_id() {
    let index = FileIndex::new("i.json", Ok(tagged_files()));
    assert_eq!(index.get_file_path(1), Ok("./dummy-file/1.txt".to_string()));
    assert_eq!(index.get_file_path(3), Ok("./dummy-file/2.mp4".to_string()));
    assert_eq!(index.get_file_path(4), Err(FileErr::IdInvalid));
    assert_eq!(index.get_file_path(0), Err(FileErr::IdInvalid));
}

#[test]
fn add_file_indexes_a_file() {
    let mut index = FileIndex::new("i.json", Err(FileErr::IndexDoesNotExist));
    assert_eq!(index.add_file("./recieved/f1.txt"), Ok(()));
    assert_eq!(
        index.files(),
        [FileMetadata {
            name: "f1.txt".to_string(),
            id: id("./recieved/f1.txt"),
            ty: "txt".to_string(),
            path: "./recieved/f1.txt".to_string(),
            tags: None,
        }]
    );
    assert_eq!(index.get_file_path(id("./recieved/f1.txt")), Ok("./recieved/f1.txt".to_string()));
}

#[test]
fn add_file_refuses_a_duplicate() {
    let mut index = FileIndex::new("i.json", Err(FileErr::IndexDoesNotExist));
    assert_eq!(index.add_file("./recieved/f1.txt"), Ok(()));
    assert_eq!(index.add_file("./recieved/f1.txt"), Err(FileErr::DuplicateId));
    assert_eq!(index.files().len(), 1);
}

#[test]
fn add_file_passes_over_what_is_not_indexable() {
    let mut index = FileIndex::new("i.json", Err(FileErr::IndexDoesNotExist));
    assert_eq!(index.add_file("./recieved/README"), Ok(()));
    assert_eq!(index.add_file("./recieved/.DS_Store"), Ok(()));
    assert_eq!(index.add_file("./recieved/._f1.txt"), Ok(()));
    assert_eq!(index.add_file("./recieved/f1.txt.enc"), Ok(()));
    assert_eq!(index.files(), []);
}

#[test]
fn add_file_to_db_refuses_a_taken_id() {
    let mut index = FileIndex::new("i.json", Ok(tagged_files()));
    let clash = record("other.txt", 2, "txt", "./other.txt", None);
    assert_eq!(index.add_file_to_db(clash), Err(FileErr::DuplicateId));
    assert_eq!(index.get_file_path(2), Ok("./dummy-file/2.mp4".to_string()));
    assert_eq!(index.files().len(), 3);
    let fresh = record("other.txt", 9, "txt", "./other.txt", None);
    assert_eq!(index.add_file_to_db(fresh), Ok(()));
    assert_eq!(index.get_file_path(9), Ok("./other.txt".to_string()));
    assert_eq!(index.files().len(), 4);
}

#[test]
fn add_dir_refuses_a_root_that_is_no_directory() {
    let mut index = FileIndex::new("i.json", Ok(tagged_files()));
    assert_eq!(index.add_dir("nodir", &Node::Missing), Err(FileErr::PathDoesNotExist));
    assert_eq!(index.add_dir("1.mp4", &Node::File), Err(FileErr::PathDoesNotExist));
    assert_eq!(index.files().len(), 3);
}

#[test]
fn add_dir_twice_is_refused_and_changes_nothing() {
    let mut index = index_for_dir("i.json", "./libtest_5", &nested());
    let before = names(index.files());
    assert_eq!(index.add_dir("./libtest_5", &nested()), Err(FileErr::DuplicateId));
    assert_eq!(names(index.files()), before);
}

#[test]
fn add_dir_takes_all_records_or_none() {
    let mut index = FileIndex::new("i.json", Err(FileErr::IndexDoesNotExist));
    assert_eq!(index.add_file("r/a/2.mp4"), Ok(()));
    let tree = Node::Dir(vec![file("1.mp4"), dir("a", vec![file("2.mp4")]), file("3.mp4")]);
    assert_eq!(index.add_dir("r", &tree), Err(FileErr::DuplicateId));
    assert_eq!(names(index.files()), ["2.mp4"]);
    let twice = Node::Dir(vec![file("5.mp4"), file("5.mp4")]);
    assert_eq!(index.add_dir("s", &twice), Err(FileErr::DuplicateId));
    assert_eq!(names(index.files()), ["2.mp4"]);
    let other = Node::Dir(vec![file("1.mp4"), file("3.mp4")]);
    assert_eq!(index.add_dir("r", &other), Ok(()));
    assert_eq!(index.files().len(), 3);
}

#[test]
fn contains_string_and_has_all_tags() {
    let list = strings(&["a", "b"]);
    assert!(contains_string(&list, &"a".to_string()));
    assert!(contains_string(&list, &"b".to_string()));
    assert!(!contains_string(&list, &"ab".to_string()));
    assert!(!contains_string(&Vec::new(), &"a".to_string()));
    let tagged = record("1.mp4", 1, "mp4", "./r/a/b/1.mp4", Some(&["a", "b"]));
    assert!(has_all_tags(&tagged, &strings(&["b"])));
    assert!(has_all_tags(&tagged, &Vec::new()));
    assert!(!has_all_tags(&tagged, &strings(&["b", "c"])));
    let bare = record("1.mp4", 1, "mp4", "./r/1.mp4", None);
    assert!(!has_all_tags(&bare, &Vec::new()));
}

#[test]
fn error_messages() {
    assert_eq!(FileErr::PathDoesNotExist.message(), "path does not exist");
    assert_eq!(FileErr::IndexDoesNotExist.message(), "index file does not exits");
    assert_eq!(FileErr::IndexInvalid.message(), "index invalid");
    assert_eq!(FileErr::IdInvalid.message(), "id invalid");
    assert_eq!(FileErr::DBError.message(), "db error");
    assert_eq!(FileErr::FailedToCreateFile.message(), "failed to create file");
    assert_eq!(FileErr::DuplicateId.message(), "duplicate id");
}

#[test]
fn a_copy_of_a_record_equals_it() {
    for file in tagged_files() {
        assert_eq!(file.clone(), file);
    }
    let bare = record("1.mp4", 1, "mp4", "./r/1.mp4", None);
    assert_eq!(bare.clone(), bare);
}
