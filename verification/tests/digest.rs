use librarian::digest::{directory_digest, file_digest, path_before, sort_entries, TreeEntry};

#[test]
fn digest_of_a_file_is_its_sha1() {
    assert_eq!(file_digest(b"Hello World!"), "2ef7bde608ce5404e97d5f042f95f89f1c232871");
    assert_eq!(file_digest(b""), "da39a3ee5e6b4b0d3255bfef95601890afd80709");
    assert_eq!(file_digest(b"abc"), "a9993e364706816aba3e25717850c26c9cd0d89d");
}

#[test]
fn digest_of_a_directory_takes_in_paths_and_contents() {
    let entries = vec![
        TreeEntry { path: String::from("a"), content: None },
        TreeEntry { path: String::from("a/x.txt"), content: Some(b"one".to_vec()) },
        TreeEntry { path: String::from("b.txt"), content: Some(b"two".to_vec()) },
    ];
    let digest = directory_digest(entries);
    assert_eq!(digest, file_digest(b"aa/x.txtoneb.txttwo"));
    assert_eq!(directory_digest(Vec::new()), file_digest(b""));
    let renamed = vec![
        TreeEntry { path: String::from("a"), content: None },
        TreeEntry { path: String::from("a/y.txt"), content: Some(b"one".to_vec()) },
        TreeEntry { path: String::from("b.txt"), content: Some(b"two".to_vec()) },
    ];
    assert_ne!(directory_digest(renamed), digest);
    let accented = vec![TreeEntry { path: String::from("é"), content: Some(vec![1, 2]) }];
    assert_eq!(directory_digest(accented), file_digest(&[0xc3, 0xa9, 1, 2]));
}

fn entry(path: &str, content: Option<&[u8]>) -> TreeEntry {
    TreeEntry { path: String::from(path), content: content.map(|c| c.to_vec()) }
}

#[test]
fn digest_of_a_directory_does_not_depend_on_the_order_found() {
    let walked = vec![
        entry("a", None),
        entry("a/b", Some(b"1")),
        entry("a/c", None),
        entry("a/c/d", Some(b"2")),
        entry("a.txt", Some(b"3")),
        entry("b", Some(b"4")),
    ];
    let shuffled = vec![
        entry("b", Some(b"4")),
        entry("a/c/d", Some(b"2")),
        entry("a.txt", Some(b"3")),
        entry("a/c", None),
        entry("a", None),
        entry("a/b", Some(b"1")),
    ];
    let want = file_digest(b"aa/b1a/ca/c/d2a.txt3b4");
    assert_eq!(directory_digest(walked), want);
    assert_eq!(directory_digest(shuffled), want);
}

#[test]
fn entries_are_walked_name_by_name() {
    let sorted = sort_entries(vec![
        entry("b", None),
        entry("a.txt", None),
        entry("a/z", None),
        entry("a", None),
        entry("a/b/c", None),
        entry("a/b", None),
        entry("A", None),
    ]);
    let paths: Vec<&str> = sorted.iter().map(|e| e.path.as_str()).collect();
    assert_eq!(paths, vec!["A", "a", "a/b", "a/b/c", "a/z", "a.txt", "b"]);
    assert!(path_before("a", "a/b"));
    assert!(path_before("a/b", "a.txt"));
    assert!(!path_before("a.txt", "a/b"));
    assert!(!path_before("a", "a"));
    assert!(path_before("a/b", "a/b/"));
    assert!(path_before("", "a"));
}
