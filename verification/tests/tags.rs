use pea_server::tags::derive_tags;

fn strings(items: &[&str]) -> Vec<String> {
    items.iter().map(|each| each.to_string()).collect()
}

#[test]
fn tags_are_the_directories_between_root_and_file() {
    assert_eq!(derive_tags("root", "root/a/b/f.mp4"), strings(&["a", "b"]));
    assert_eq!(derive_tags("root", "root/a/f.mp4"), strings(&["a"]));
    assert_eq!(derive_tags("./libtest_4", "./libtest_4/c/b/4.mp4"), strings(&["c", "b"]));
}

#[test]
fn a_file_directly_under_the_root_has_no_tags() {
    assert_eq!(derive_tags("root", "root/f.mp4"), Vec::<String>::new());
    assert_eq!(derive_tags("./libtest_4", "./libtest_4/1.mp4"), Vec::<String>::new());
}

#[test]
fn a_root_may_end_with_a_separator_or_be_empty() {
    assert_eq!(derive_tags("root/", "root/a/b/f.mp4"), strings(&["a", "b"]));
    assert_eq!(derive_tags("/", "/a/f.mp4"), strings(&["a"]));
    assert_eq!(derive_tags("", "a/b/f.mp4"), strings(&["a", "b"]));
    assert_eq!(derive_tags("", "f.mp4"), Vec::<String>::new());
}

#[test]
fn a_path_that_is_not_below_the_root_has_no_tags() {
    assert_eq!(derive_tags("root", "other/a/f.mp4"), Vec::<String>::new());
    assert_eq!(derive_tags("root", "rootling/a/f.mp4"), Vec::<String>::new());
    assert_eq!(derive_tags("root/a/b/c", "root/a"), Vec::<String>::new());
    assert_eq!(derive_tags("root", "root"), Vec::<String>::new());
}

#[test]
fn tags_keep_their_order_and_repetitions() {
    assert_eq!(derive_tags("r", "r/b/a/b/f.mp4"), strings(&["b", "a", "b"]));
}
