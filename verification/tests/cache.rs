use librarian::cache::{read_cache_from_file, Cache, CacheFields};
use librarian::digest::file_digest;
use librarian::scanner::{scan, Sighting};

fn seen(name: &str, modified: Option<u64>, digest: &str) -> Sighting {
    Sighting { name: String::from(name), modified, digest: String::from(digest) }
}

fn entry(last_verified: u64, checksum: &str) -> CacheFields {
    CacheFields { last_verified, checksum: String::from(checksum) }
}

fn cache_of(entries: &[(&str, u64, &str)]) -> Cache {
    let mut cache = Cache::new();
    for (name, at, digest) in entries {
        cache.insert(String::from(*name), entry(*at, digest));
    }
    cache
}

fn entries_of(cache: &Cache) -> Vec<(String, u64, String)> {
    let mut out = Vec::new();
    for i in 0..cache.len() {
        let e = cache.value_at(i);
        out.push((cache.key_at(i), e.last_verified, e.checksum.clone()));
    }
    out
}

fn listed(entries: &[(&str, u64, &str)]) -> Vec<(String, u64, String)> {
    entries.iter().map(|(k, t, d)| (String::from(*k), *t, String::from(*d))).collect()
}

#[test]
fn lookup_answers_for_what_was_verified_since() {
    let cache = cache_of(&[("abc", 10, "D")]);
    assert_eq!(cache.lookup("abc", Some(9), true), Some(String::from("D")));
    assert_eq!(cache.lookup("abc", Some(10), true), Some(String::from("D")));
    assert_eq!(cache.lookup("abc", Some(11), true), None);
    assert_eq!(cache.lookup("abc", None, true), None);
    assert_eq!(cache.lookup("abc", Some(9), false), None);
    assert_eq!(cache.lookup("abd", Some(9), true), None);
    assert_eq!(cache.get("abc"), Some(&entry(10, "D")));
    assert_eq!(cache.get("x"), None);
    assert_eq!(Cache::new().lookup("abc", Some(0), true), None);
}

#[test]
fn verified_resource_is_not_hashed_again() {
    let cache = cache_of(&[("old", 100, "D1")]);
    let files = [("old", 50u64, b"content of old".to_vec()), ("new", 50u64, b"content of new".to_vec())];
    let mut hashed = 0;
    let mut sightings = Vec::new();
    for (name, modified, content) in &files {
        let digest = match cache.lookup(name, Some(*modified), true) {
            Some(d) => d,
            None => {
                hashed += 1;
                file_digest(content)
            }
        };
        sightings.push(Sighting { name: String::from(*name), modified: Some(*modified), digest });
    }
    assert_eq!(hashed, 1);
    let out = scan(&sightings, &cache, true, 200);
    assert_eq!(out.snapshot.key_at(0), "D1");
    assert_eq!(out.snapshot.key_at(1), file_digest(b"content of new"));
}

#[test]
fn scan_uses_the_cached_digest_and_keeps_the_entry() {
    let cache = cache_of(&[("abc", 10, "D")]);
    let out = scan(&vec![seen("abc", Some(5), "not looked at")], &cache, true, 99);
    assert_eq!(out.snapshot.len(), 1);
    assert_eq!(out.snapshot.key_at(0), "D");
    assert_eq!(*out.snapshot.value_at(0), "abc");
    assert_eq!(entries_of(&out.cache), listed(&[("abc", 10, "D")]));
    assert!(out.duplicates.is_empty());
}

#[test]
fn scan_takes_the_fresh_digest_where_the_cache_is_stale_or_off() {
    let cache = cache_of(&[("abc", 10, "D")]);
    let out = scan(&vec![seen("abc", Some(11), "E")], &cache, true, 99);
    assert_eq!(out.snapshot.key_at(0), "E");
    assert_eq!(entries_of(&out.cache), listed(&[("abc", 99, "E")]));
    let out = scan(&vec![seen("abc", Some(5), "E")], &cache, false, 99);
    assert_eq!(out.snapshot.key_at(0), "E");
    assert_eq!(entries_of(&out.cache), listed(&[("abc", 99, "E")]));
    let out = scan(&vec![seen("abc", None, "E")], &cache, true, 99);
    assert_eq!(entries_of(&out.cache), listed(&[("abc", 99, "E")]));
}

#[test]
fn new_resource_is_cached_under_its_digest() {
    let out = scan(&vec![seen("report.pdf", Some(5), "abc123")], &Cache::new(), true, 99);
    assert_eq!(entries_of(&out.cache), listed(&[("abc123", 99, "abc123")]));
    assert_eq!(out.snapshot.key_at(0), "abc123");
    assert_eq!(*out.snapshot.value_at(0), "report.pdf");
}

#[test]
fn cache_forgets_what_is_gone_and_is_sorted() {
    let cache = cache_of(&[("z", 10, "DZ"), ("gone", 10, "DG"), ("m", 10, "DM")]);
    let sightings = vec![seen("z", Some(1), "-"), seen("new", Some(1), "a-new"), seen("m", Some(20), "DM2")];
    let out = scan(&sightings, &cache, true, 30);
    assert_eq!(
        entries_of(&out.cache),
        listed(&[("a-new", 30, "a-new"), ("m", 30, "DM2"), ("z", 10, "DZ")])
    );
    assert_eq!(out.snapshot.len(), 3);
    assert_eq!(out.snapshot.key_at(0), "DZ");
    assert_eq!(out.snapshot.key_at(1), "a-new");
    assert_eq!(out.snapshot.key_at(2), "DM2");
}

#[test]
fn later_resource_of_one_digest_is_a_duplicate() {
    let cache = cache_of(&[("known", 10, "same")]);
    let sightings = vec![
        seen("a.txt", Some(1), "same"),
        seen("b.txt", Some(1), "other"),
        seen("known", Some(1), "-"),
        seen("c.txt", Some(1), "same"),
        seen("d.txt", Some(1), "other"),
    ];
    let out = scan(&sightings, &cache, true, 30);
    assert_eq!(out.duplicates, vec!["known", "c.txt", "d.txt"]);
    assert_eq!(out.snapshot.len(), 2);
    assert_eq!(out.snapshot.key_at(0), "same");
    assert_eq!(*out.snapshot.value_at(0), "a.txt");
    assert_eq!(out.snapshot.key_at(1), "other");
    assert_eq!(*out.snapshot.value_at(1), "b.txt");
    assert_eq!(entries_of(&out.cache), listed(&[("other", 30, "other"), ("same", 30, "same")]));
}

#[test]
fn scan_of_nothing_is_empty() {
    let out = scan(&vec![], &cache_of(&[("a", 1, "D")]), true, 5);
    assert_eq!(out.snapshot.len(), 0);
    assert_eq!(out.cache.len(), 0);
    assert!(out.duplicates.is_empty());
}

#[test]
fn second_scan_leaves_the_cache_as_it_is() {
    let first = scan(
        &vec![seen("b", Some(5), "D2"), seen("a", Some(7), "D1")],
        &cache_of(&[("a", 1, "old"), ("b", 1, "old")]),
        true,
        10,
    );
    assert_eq!(entries_of(&first.cache), listed(&[("a", 10, "D1"), ("b", 10, "D2")]));
    let second = scan(&vec![seen("a", Some(7), "-"), seen("b", Some(5), "-")], &first.cache, true, 20);
    assert_eq!(entries_of(&second.cache), entries_of(&first.cache));
    assert!(second.duplicates.is_empty());
    assert_eq!(second.snapshot.key_at(0), "D1");
    assert_eq!(second.snapshot.key_at(1), "D2");
}

#[test]
fn empty_cache_file_stands_for_an_empty_object() {
    assert_eq!(read_cache_from_file(""), "{\n}");
    assert_eq!(read_cache_from_file("{}"), "{}");
    assert_eq!(read_cache_from_file(" "), " ");
}

#[test]
fn cache_insert_replaces_in_place_and_sort_orders_the_names() {
    let mut cache = cache_of(&[("b", 1, "D1"), ("a", 2, "D2")]);
    cache.insert(String::from("b"), entry(3, "D3"));
    assert_eq!(entries_of(&cache), listed(&[("b", 3, "D3"), ("a", 2, "D2")]));
    cache.sort();
    assert_eq!(entries_of(&cache), listed(&[("a", 2, "D2"), ("b", 3, "D3")]));
    assert_eq!(entry(3, "D3").clone(), entry(3, "D3"));
}

#[test]
fn prune_keeps_what_was_seen() {
    let mut cache = cache_of(&[("c", 1, "D1"), ("a", 2, "D2"), ("b", 3, "D3"), ("d", 4, "D4")]);
    cache.prune(&vec![String::from("b"), String::from("x"), String::from("c"), String::from("b")]);
    assert_eq!(entries_of(&cache), listed(&[("c", 1, "D1"), ("b", 3, "D3")]));
    cache.prune(&vec![]);
    assert_eq!(cache.len(), 0);
    cache.prune(&vec![String::from("a")]);
    assert_eq!(cache.len(), 0);
}
