use merklefile::file_map::FileMap;
use std::collections::BTreeMap;

#[test]
fn new_map_is_empty() {
    let files = FileMap::new();
    assert_eq!(files.len(), 0);
    assert!(files.keys().is_empty());
    assert!(files.values().is_empty());
    assert_eq!(files.get("a"), None);
    assert_eq!(files.position("a"), None);
}

#[test]
fn insert_keeps_names_ascending() {
    let mut files = FileMap::new();
    assert_eq!(files.insert("m".to_string(), vec![2]), None);
    assert_eq!(files.insert("z".to_string(), vec![3]), None);
    assert_eq!(files.insert("a".to_string(), vec![1]), None);
    assert_eq!(files.insert("n".to_string(), vec![4]), None);
    assert_eq!(files.len(), 4);
    assert_eq!(files.keys(), vec!["a", "m", "n", "z"]);
    assert_eq!(files.values(), vec![vec![1], vec![2], vec![4], vec![3]]);
    assert_eq!(files.position("a"), Some(0));
    assert_eq!(files.position("m"), Some(1));
    assert_eq!(files.position("n"), Some(2));
    assert_eq!(files.position("z"), Some(3));
    assert_eq!(files.position("b"), None);
    let (name, content) = files.entry(2);
    assert_eq!(name, "n");
    assert_eq!(content, &vec![4]);
}

#[test]
fn insert_replaces_and_returns_the_old_content() {
    let mut files = FileMap::new();
    files.insert("a".to_string(), vec![1]);
    files.insert("b".to_string(), vec![2]);
    files.insert("c".to_string(), vec![3]);
    assert_eq!(files.insert("b".to_string(), vec![20, 21]), Some(vec![2]));
    assert_eq!(files.len(), 3);
    assert_eq!(files.keys(), vec!["a", "b", "c"]);
    assert_eq!(files.values(), vec![vec![1], vec![20, 21], vec![3]]);
    assert_eq!(files.get("b"), Some(&vec![20, 21]));
    assert_eq!(files.insert("c".to_string(), vec![]), Some(vec![3]));
    assert_eq!(files.insert("a".to_string(), vec![7]), Some(vec![1]));
    assert_eq!(files.values(), vec![vec![7], vec![20, 21], vec![]]);
}

#[test]
fn get_finds_exact_names_only() {
    let mut files = FileMap::new();
    files.insert("file".to_string(), vec![1]);
    assert_eq!(files.get("file"), Some(&vec![1]));
    assert_eq!(files.get("fil"), None);
    assert_eq!(files.get("file "), None);
    assert_eq!(files.get("File"), None);
    assert_eq!(files.get(""), None);
}

#[test]
fn a_prefix_sorts_first_and_the_empty_name_before_all() {
    let mut files = FileMap::new();
    files.insert("ab".to_string(), vec![2]);
    files.insert("a".to_string(), vec![1]);
    files.insert("abc".to_string(), vec![3]);
    files.insert("".to_string(), vec![0]);
    assert_eq!(files.keys(), vec!["", "a", "ab", "abc"]);
    assert_eq!(files.get(""), Some(&vec![0]));
}

#[test]
fn order_is_that_of_a_btree_map() {
    let names = [
        "b.txt", "a.txt", "B.txt", "10", "9", "", "a", "é", "z", "zz", "e\u{301}", "日本", "\u{10348}",
        "a.txt.bak", "\u{7f}", "\u{80}", "~", " ",
    ];
    let mut files = FileMap::new();
    let mut reference = BTreeMap::<String, Vec<u8>>::new();
    for (i, name) in names.iter().enumerate() {
        let ours = files.insert(name.to_string(), vec![i as u8]);
        let theirs = reference.insert(name.to_string(), vec![i as u8]);
        assert_eq!(ours, theirs);
    }
    assert_eq!(files.len(), reference.len());
    assert_eq!(files.keys(), reference.keys().cloned().collect::<Vec<String>>());
    assert_eq!(files.values(), reference.values().cloned().collect::<Vec<Vec<u8>>>());
    for name in names {
        assert_eq!(files.get(name), reference.get(name));
        assert_eq!(files.position(name), reference.keys().position(|k| k == name));
    }
}
