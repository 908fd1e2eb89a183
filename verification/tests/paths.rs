use tre::paths::{join_path, split_components, to_string};

#[test]
fn split_drops_empty_and_current_dir_segments() {
    assert_eq!(split_components("./a//b/."), vec!["a", "b"]);
    assert_eq!(split_components("b/c/d"), vec!["b", "c", "d"]);
    assert_eq!(split_components("."), Vec::<String>::new());
    assert_eq!(split_components(""), Vec::<String>::new());
    assert_eq!(split_components("a/"), vec!["a"]);
    assert_eq!(split_components("../a"), vec!["..", "a"]);
}

#[test]
fn join_inserts_exactly_one_separator() {
    assert_eq!(join_path(".", "b"), "./b");
    assert_eq!(join_path("./b", "c"), "./b/c");
    assert_eq!(join_path("b/", "c"), "b/c");
    assert_eq!(join_path("", "c"), "c");
}

#[test]
fn to_string_copies_the_component() {
    assert_eq!(to_string("name"), "name".to_string());
    assert_eq!(to_string(""), "".to_string());
}
