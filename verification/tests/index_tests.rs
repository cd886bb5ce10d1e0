use flint_core::index::Index;

fn strings(v: &[&str]) -> Vec<String> {
    v.iter().map(|s| s.to_string()).collect()
}

#[test]
fn tags_ids_and_default_tag_collect_paths() {
    let mut index = Index::empty(".cache/index.json");
    index.add_test("./subdir1/nested/test3.json", &strings(&["test"]), &strings(&[]), "default");
    index.add_test("./subdir1/test2.json", &strings(&["test", "test3"]), &strings(&["minecraft:stone"]), "default");
    index.add_test("./test1.json", &strings(&[]), &strings(&[]), "default");

    assert_eq!(index.index.len(), 4);
    assert_eq!(index.index[0].0, "test");
    assert_eq!(index.index[0].1, strings(&["./subdir1/nested/test3.json", "./subdir1/test2.json"]));
    assert_eq!(index.index[1].0, "test3");
    assert_eq!(index.index[2].0, "minecraft:stone");
    assert_eq!(index.index[3].0, "default");
    assert_eq!(index.index[3].1, strings(&["./test1.json"]));
}

#[test]
fn scopes_select_each_path_once() {
    let mut index = Index::empty("index.json");
    index.add_test("a.json", &strings(&["x", "y"]), &strings(&[]), "default");
    index.add_test("b.json", &strings(&["y"]), &strings(&[]), "default");
    let paths = index.get_test_paths_from_scopes(&strings(&["y", "x", "unknown"]));
    assert_eq!(paths, strings(&["a.json", "b.json"]));
    assert!(index.get_test_paths_from_scopes(&strings(&["unknown"])).is_empty());
}

#[test]
fn verify_compares_hashes_and_clear_empties() {
    let mut index = Index::empty("index.json");
    index.hash = 7;
    assert!(index.verify(7));
    assert!(!index.verify(8));
    index.add_test("a.json", &strings(&["x"]), &strings(&[]), "default");
    index.clear();
    assert!(index.index.is_empty());
}

#[test]
fn index_over_a_file_list_lists_every_file() {
    let files = vec![
        ("./a.json".to_string(), strings(&["x"]), strings(&["minecraft:stone"])),
        ("./b.json".to_string(), strings(&[]), strings(&[])),
        ("./c.json".to_string(), strings(&["x", "y"]), strings(&[])),
    ];
    let mut index = Index::empty("index.json");
    index.add_tests(&files, "default");
    let mut one_by_one = Index::empty("index.json");
    for f in &files {
        one_by_one.add_test(&f.0, &f.1, &f.2, "default");
    }
    assert_eq!(index.index, one_by_one.index);
    assert_eq!(index.get_test_paths_from_scopes(&strings(&["x"])), strings(&["./a.json", "./c.json"]));
    assert_eq!(index.get_test_paths_from_scopes(&strings(&["minecraft:stone"])), strings(&["./a.json"]));
    assert_eq!(index.get_test_paths_from_scopes(&strings(&["default"])), strings(&["./b.json"]));
    assert_eq!(index.get_test_paths_from_scopes(&strings(&["y"])), strings(&["./c.json"]));
}
