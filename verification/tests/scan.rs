use pea_server::identity::id;
use pea_server::metadata::{FileErr, FileMetadata};
use pea_server::scan::{file_metadata, files_in_dir, scan, Entry, Node};
use pea_server::tags::derive_tags;

fn file(name: &str) -> Entry {
    Entry { name: name.to_string(), node: Node::File }
}

fn dir(name: &str, entries: Vec<Entry>) -> Entry {
    Entry { name: name.to_string(), node: Node::Dir(entries) }
}

fn storage() -> Node {
    Node::Dir(vec![
        file("1.mp4"),
        file("2.jpg"),
        file("3.mkv"),
        file("6.txt"),
        file(".no_name"),
        file("no_ext"),
    ])
}

fn nested() -> Node {
    Node::Dir(vec![
        file("1.mp4"),
        dir("a", vec![file("2.mp4"), dir("b", vec![file("3.mp4")])]),
        dir("c", vec![dir("b", vec![file("4.mp4")])]),
    ])
}

#[test]
fn mod_test_files() {
    let test_storage = "./libtest_2";
    let mut metadata = scan(test_storage, &storage()).expect("expect indexing directory to succeed");
    let files = ["1.mp4", "2.jpg", "3.mkv", "6.txt"];
    let mut expected: Vec<FileMetadata> = files
        .into_iter()
        .map(|name| {
            let path = format!("{}/{}", test_storage, name);
            let ty = name.rsplit('.').next().expect("expect valid file extension");
            FileMetadata {
                name: name.to_string(),
                id: id(&path),
                ty: ty.to_string(),
                path,
                tags: None,
            }
        })
        .collect();
    expected.sort_by_key(|each| each.id);
    metadata.sort_by_key(|each| each.id);
    assert_eq!(metadata, expected);
}

#[test]
fn mod_test_files_to_work_on_empty_dir() {
    let metadata = scan("./libtest_3", &Node::Dir(Vec::new()))
        .expect("expect indexing directory to succeed");
    assert_eq!(metadata, []);
}

#[test]
fn test_file_tagging() {
    let test_storage = "./libtest_4";
    let file_tags = vec![
        ("./libtest_4/1.mp4", None),
        ("./libtest_4/a/2.mp4", Some(vec!["a".to_string()])),
        ("./libtest_4/a/b/3.mp4", Some(vec!["a".to_string(), "b".to_string()])),
        ("./libtest_4/c/b/4.mp4", Some(vec!["c".to_string(), "b".to_string()])),
    ];
    let files = scan(test_storage, &nested()).expect("expect indexing directory to succeed");
    for file in files.iter() {
        let expected = file_tags
            .iter()
            .find(|(path, _)| *path == file.path)
            .map(|(_, tags)| tags)
            .unwrap();
        assert_eq!(&file.tags, expected);
    }
    assert!(files.len() == file_tags.len());
}

#[test]
fn scanned_tags_are_the_derived_tags() {
    let files = scan("./libtest_4", &nested()).unwrap();
    assert_eq!(files.len(), 4);
    for file in files {
        let derived = derive_tags("./libtest_4", &file.path);
        assert_eq!(file.tags.unwrap_or_default(), derived);
    }
}

#[test]
fn records_come_in_the_order_of_the_listing() {
    let files = scan("root", &nested()).unwrap();
    let paths: Vec<&str> = files.iter().map(|each| each.path.as_str()).collect();
    assert_eq!(paths, ["root/1.mp4", "root/a/2.mp4", "root/a/b/3.mp4", "root/c/b/4.mp4"]);
}

#[test]
fn a_root_that_is_no_directory_is_refused() {
    assert_eq!(scan("nodir", &Node::Missing), Err(FileErr::PathDoesNotExist));
    assert_eq!(scan("./1.mp4", &Node::File), Err(FileErr::PathDoesNotExist));
    assert_eq!(files_in_dir("nodir", &Node::Missing, None), Err(FileErr::PathDoesNotExist));
}

#[test]
fn system_files_are_left_out_and_system_directories_are_not() {
    let tree = Node::Dir(vec![
        file(".DS_Store"),
        file("._1.mp4"),
        file("1.mp4.enc"),
        dir("._cache", vec![file("5.mp4")]),
        dir(".DS_Store", vec![file("6.mp4")]),
        Entry { name: "7.mp4".to_string(), node: Node::Missing },
    ]);
    let files = scan("r", &tree).unwrap();
    let paths: Vec<&str> = files.iter().map(|each| each.path.as_str()).collect();
    assert_eq!(paths, ["r/._cache/5.mp4", "r/.DS_Store/6.mp4", "r/7.mp4"]);
    assert_eq!(files[0].tags, Some(vec!["._cache".to_string()]));
}

#[test]
fn file_metadata_of_a_path() {
    let file = file_metadata("./recieved/Clip.MP4", None).unwrap();
    assert_eq!(
        file,
        FileMetadata {
            name: "Clip.MP4".to_string(),
            id: id("./recieved/Clip.MP4"),
            ty: "mp4".to_string(),
            path: "./recieved/Clip.MP4".to_string(),
            tags: None,
        }
    );
    let tagged = file_metadata("a/b.txt", Some(vec!["a".to_string()])).unwrap();
    assert_eq!(tagged.tags, Some(vec!["a".to_string()]));
    assert_eq!(tagged.ty, "txt");
}

#[test]
fn a_path_without_an_extension_has_no_metadata() {
    assert_eq!(file_metadata("./recieved/README", None), None);
    assert_eq!(file_metadata("./recieved.d/", None), None);
    assert_eq!(file_metadata("./recieved/.profile", None), None);
}

#[test]
fn files_in_dir_starts_from_the_given_tags() {
    let tree = Node::Dir(vec![file("1.mp4"), dir("b", vec![file("2.mp4")])]);
    let files = files_in_dir("r/a", &tree, Some(vec!["a".to_string()])).unwrap();
    assert_eq!(files[0].tags, Some(vec!["a".to_string()]));
    assert_eq!(files[1].tags, Some(vec!["a".to_string(), "b".to_string()]));
    assert_eq!(files[1].path, "r/a/b/2.mp4");
}

#[test]
fn lib_test_files_to_work_on_empty_dir() {
    let metadata =
        scan("./libtest_3", &Node::Dir(Vec::new())).expect("expect reading empty storage to succeed");
    assert_eq!(metadata, []);
}

#[test]
fn lib_test_files_to_work_on_non_existing_dir() {
    scan("nodir", &Node::Missing).expect_err("expect reading invalid dir to fail");
}
