use librarian::cache::{Cache, CacheFields};
use librarian::catalog::{
    librarian_catalog, make_record, orphan_answer, policy_removes, Catalog, OrphanPolicy, Rename,
};
use librarian::ranking::{date_before, record_before, sort_records};
use librarian::resource::{DateTime, DocumentType, MediaType, Resource};
use librarian::scanner::Sighting;
use librarian::table::Table;

fn seen(name: &str, modified: Option<u64>, digest: &str) -> Sighting {
    Sighting { name: String::from(name), modified, digest: String::from(digest) }
}

fn record(title: &str, digest: &str) -> Resource {
    make_record(title, digest, &Table::new())
}

fn dated(title: &str, digest: &str, date: &str) -> Resource {
    let mut r = record(title, digest);
    r.date = Some(DateTime::try_from(date).unwrap());
    r
}

fn snapshot(resources: &[(&str, &str)]) -> Table<String> {
    let mut t = Table::new();
    for (digest, name) in resources {
        t.insert(String::from(*digest), String::from(*name));
    }
    t
}

fn rename(from: &str, to: &str) -> Rename {
    Rename { from: String::from(from), to: String::from(to) }
}

fn strings(parts: &[&str]) -> Vec<String> {
    parts.iter().map(|p| String::from(*p)).collect()
}

fn titles(catalog: &Catalog) -> Vec<String> {
    catalog.resources.iter().map(|r| r.title.clone()).collect()
}

fn cache_entries(cache: &Cache) -> Vec<(String, CacheFields)> {
    (0..cache.len()).map(|i| (cache.key_at(i), cache.value_at(i).clone())).collect()
}

#[test]
fn first_run_catalogues_and_renames_a_new_file() {
    let mut catalog = Catalog::new();
    let sightings = vec![seen("report.pdf", Some(100), "abc123")];
    let run = librarian_catalog(&mut catalog, &Cache::new(), &sightings, true, 1000, OrphanPolicy::Remove, &vec![]);
    assert_eq!(run.renames, vec![rename("report.pdf", "abc123")]);
    assert!(run.duplicates.is_empty());
    assert_eq!(catalog.resources.len(), 1);
    let r = &catalog.resources[0];
    assert_eq!(r.original_digest(), "abc123");
    assert_eq!(r.historical_checksums, strings(&["abc123"]));
    assert_eq!(r.checksum, "abc123");
    assert_eq!(r.title, "report.pdf");
    assert_eq!(r.document, None);
    assert_eq!(
        cache_entries(&run.cache),
        vec![(String::from("abc123"), CacheFields { last_verified: 1000, checksum: String::from("abc123") })]
    );
}

#[test]
fn edited_file_keeps_its_record_and_grows_its_history() {
    let mut catalog = Catalog::new();
    let first = librarian_catalog(
        &mut catalog,
        &Cache::new(),
        &vec![seen("report.pdf", Some(100), "abc123")],
        true,
        1000,
        OrphanPolicy::Remove,
        &vec![],
    );
    catalog.resources[0].subtitle = Some(String::from("kept"));
    let second = librarian_catalog(
        &mut catalog,
        &first.cache,
        &vec![seen("abc123", Some(2000), "def456")],
        true,
        3000,
        OrphanPolicy::Remove,
        &vec![],
    );
    assert!(second.renames.is_empty());
    assert!(second.duplicates.is_empty());
    assert_eq!(catalog.resources.len(), 1);
    let r = &catalog.resources[0];
    assert_eq!(r.original_digest(), "abc123");
    assert_eq!(r.historical_checksums, strings(&["abc123", "def456"]));
    assert_eq!(r.checksum, "def456");
    assert_eq!(r.subtitle, Some(String::from("kept")));
    assert_eq!(
        cache_entries(&second.cache),
        vec![(String::from("abc123"), CacheFields { last_verified: 3000, checksum: String::from("def456") })]
    );
}

#[test]
fn deleted_file_loses_its_record_under_remove() {
    let mut catalog = Catalog::new();
    catalog.resources = vec![record("report", "abc123")];
    let run = librarian_catalog(&mut catalog, &Cache::new(), &vec![], true, 1, OrphanPolicy::Remove, &vec![]);
    assert!(catalog.resources.is_empty());
    assert!(run.renames.is_empty());
    assert_eq!(run.cache.len(), 0);
}

#[test]
fn deleted_file_keeps_its_record_under_keep() {
    let mut catalog = Catalog::new();
    catalog.resources = vec![record("report", "abc123")];
    let run = librarian_catalog(&mut catalog, &Cache::new(), &vec![], true, 1, OrphanPolicy::Keep, &vec![]);
    assert_eq!(catalog.resources, vec![record("report", "abc123")]);
    assert!(run.renames.is_empty());
}

#[test]
fn second_run_changes_nothing() {
    let mut catalog = Catalog::new();
    catalog.resources = vec![record("orphan", "gone")];
    let sightings = vec![seen("b.txt", Some(100), "d2"), seen("a.txt", Some(100), "d1")];
    let first = librarian_catalog(&mut catalog, &Cache::new(), &sightings, true, 1000, OrphanPolicy::Keep, &vec![]);
    assert_eq!(first.renames, vec![rename("b.txt", "d2"), rename("a.txt", "d1")]);
    assert_eq!(titles(&catalog), strings(&["a.txt", "b.txt", "orphan"]));
    let records = catalog.resources.clone();
    let later = vec![seen("d1", Some(100), "-"), seen("d2", Some(100), "-")];
    let second = librarian_catalog(&mut catalog, &first.cache, &later, true, 5000, OrphanPolicy::Keep, &vec![]);
    assert!(second.renames.is_empty());
    assert!(second.duplicates.is_empty());
    assert_eq!(catalog.resources, records);
    assert_eq!(cache_entries(&second.cache), cache_entries(&first.cache));
}

#[test]
fn of_two_files_with_one_content_one_is_catalogued() {
    let mut catalog = Catalog::new();
    let sightings =
        vec![seen("c.txt", Some(1), "other"), seen("a.txt", Some(1), "same"), seen("b.txt", Some(1), "same")];
    let run = librarian_catalog(&mut catalog, &Cache::new(), &sightings, true, 9, OrphanPolicy::Remove, &vec![]);
    assert_eq!(run.duplicates, strings(&["b.txt"]));
    assert_eq!(run.renames, vec![rename("c.txt", "other"), rename("a.txt", "same")]);
    assert_eq!(titles(&catalog), strings(&["a.txt", "c.txt"]));
    assert_eq!(catalog.resources[0].checksum, "same");
    assert_eq!(catalog.resources[1].checksum, "other");
}

#[test]
fn every_record_with_a_file_is_named_by_its_first_digest() {
    let mut catalog = Catalog::new();
    catalog.resources = vec![record("kept orphan", "x0"), record("known", "k0")];
    let resources = snapshot(&[("k1", "k0"), ("n1", "new.txt")]);
    let renames = catalog.update(&resources, OrphanPolicy::Keep, &vec![]);
    let mut on_disk = vec![String::from("k0"), String::from("new.txt")];
    for r in &renames {
        let at = on_disk.iter().position(|n| *n == r.from).unwrap();
        on_disk[at] = r.to.clone();
    }
    assert_eq!(on_disk, strings(&["k0", "n1"]));
    for r in &catalog.resources {
        let orphaned = r.title == "kept orphan";
        assert_eq!(on_disk.contains(&String::from(r.original_digest())), !orphaned);
    }
}

#[test]
fn history_before_a_run_begins_the_history_after_it() {
    let mut catalog = Catalog::new();
    let mut old = record("old", "h0");
    old.historical_checksums.push(String::from("h1"));
    old.checksum = String::from("h1");
    catalog.resources = vec![old.clone(), record("same", "s0")];
    let resources = snapshot(&[("h2", "h0"), ("s0", "s0")]);
    catalog.update(&resources, OrphanPolicy::Remove, &vec![]);
    assert_eq!(catalog.resources[0].historical_checksums, strings(&["h0", "h1", "h2"]));
    assert_eq!(catalog.resources[0].checksum, "h2");
    assert_eq!(catalog.resources[1], record("same", "s0"));
}

#[test]
fn file_with_the_content_of_a_known_record_is_taken_for_it() {
    let mut catalog = Catalog::new();
    let mut paper = record("Paper", "d1");
    paper.publisher = Some(String::from("Press"));
    catalog.resources = vec![paper.clone()];
    let renames = catalog.update(&snapshot(&[("d1", "copy of paper.pdf")]), OrphanPolicy::Remove, &vec![]);
    assert_eq!(renames, vec![rename("copy of paper.pdf", "d1")]);
    assert_eq!(catalog.resources, vec![paper]);
}

#[test]
fn file_named_by_its_digest_is_not_renamed() {
    let mut catalog = Catalog::new();
    let renames = catalog.update(&snapshot(&[("d1", "d1")]), OrphanPolicy::Remove, &vec![]);
    assert!(renames.is_empty());
    assert_eq!(catalog.resources, vec![record("d1", "d1")]);
}

#[test]
fn orphans_go_as_the_operator_says() {
    let mut catalog = Catalog::new();
    catalog.resources = vec![record("X", "x1"), record("Y", "y1"), record("Z", "z1")];
    let resources = snapshot(&[("y1", "y1"), ("n1", "n.txt")]);
    assert_eq!(catalog.orphans(&resources), strings(&["x1", "z1"]));
    catalog.update(&resources, OrphanPolicy::Ask, &strings(&["z1", "y1"]));
    assert_eq!(titles(&catalog), strings(&["X", "Y", "n.txt"]));
    assert_eq!(catalog.orphans(&resources), strings(&["x1"]));
    assert_eq!(catalog.orphans(&snapshot(&[("n1", "n1"), ("x1", "x1"), ("y2", "y1")])), strings(&[]));
    catalog.update(&resources, OrphanPolicy::Ask, &vec![]);
    assert_eq!(titles(&catalog), strings(&["X", "Y", "n.txt"]));
    catalog.update(&resources, OrphanPolicy::Remove, &vec![]);
    assert_eq!(titles(&catalog), strings(&["Y", "n.txt"]));
}

#[test]
fn policy_decides_about_orphans() {
    let agreed = strings(&["a", "b"]);
    assert!(!policy_removes(OrphanPolicy::Keep, &agreed, "a"));
    assert!(policy_removes(OrphanPolicy::Remove, &agreed, "c"));
    assert!(policy_removes(OrphanPolicy::Ask, &agreed, "b"));
    assert!(!policy_removes(OrphanPolicy::Ask, &agreed, "c"));
}

#[test]
fn title_drops_a_known_extension() {
    let mut types: Table<DocumentType> = Table::new();
    types.insert(
        String::from("portable document"),
        DocumentType { extension: String::from("pdf"), mime: Some(MediaType::try_from("application/pdf").unwrap()) },
    );
    types.insert(String::from("gzip"), DocumentType { extension: String::from("gz"), mime: None });
    types.insert(String::from("second pdf"), DocumentType { extension: String::from("pdf"), mime: None });
    let r = make_record("report.pdf", "d", &types);
    assert_eq!(r.title, "report");
    assert_eq!(r.document, Some(String::from("portable document")));
    assert_eq!(r.checksum, "d");
    assert_eq!(r.historical_checksums, strings(&["d"]));
    let r = make_record("archive.tar.gz", "d", &types);
    assert_eq!(r.title, "archive.tar");
    assert_eq!(r.document, Some(String::from("gzip")));
    for name in [".pdf", "README", "a.PDF", "pdf", "a.pdf.", "a.txt", ""] {
        let r = make_record(name, "d", &types);
        assert_eq!(r.title, name);
        assert_eq!(r.document, None);
    }
}

#[test]
fn new_record_takes_its_document_type_from_the_catalog() {
    let mut catalog = Catalog::new();
    catalog.document_types.insert(String::from("b-type"), DocumentType { extension: String::from("b"), mime: None });
    catalog.document_types.insert(String::from("a-type"), DocumentType { extension: String::from("a"), mime: None });
    catalog.content_types.insert(String::from("z"), librarian::bibtex::BibtexType::Book);
    catalog.content_types.insert(String::from("m"), librarian::bibtex::BibtexType::Article);
    catalog.update(&snapshot(&[("d1", "notes.a")]), OrphanPolicy::Remove, &vec![]);
    assert_eq!(catalog.resources[0].title, "notes");
    assert_eq!(catalog.resources[0].document, Some(String::from("a-type")));
    assert_eq!(catalog.document_types.key_at(0), "a-type");
    assert_eq!(catalog.document_types.key_at(1), "b-type");
    assert_eq!(catalog.document_types.value_at(0).extension, "a");
    assert_eq!(catalog.content_types.key_at(0), "m");
    assert_eq!(*catalog.content_types.value_at(0), librarian::bibtex::BibtexType::Article);
    assert_eq!(catalog.content_types.key_at(1), "z");
}

#[test]
fn records_are_listed_by_title_then_date_then_edition() {
    let mut with_edition = record("A", "e2");
    with_edition.edition = Some(String::from("2"));
    let mut with_version = record("A", "v1");
    with_version.version = Some(String::from("1"));
    let mut with_volume = record("A", "w1");
    with_volume.volume = Some(String::from("1"));
    let records = vec![
        record("B", "b"),
        dated("A", "a2001", "2001"),
        with_edition.clone(),
        record("A", "first plain"),
        dated("A", "a1999-05", "1999-05"),
        with_volume.clone(),
        dated("A", "a1999", "1999"),
        with_version.clone(),
        record("A", "second plain"),
        record("", "empty title"),
    ];
    let sorted = sort_records(records);
    let digests: Vec<String> = sorted.iter().map(|r| r.checksum.clone()).collect();
    assert_eq!(
        digests,
        strings(&[
            "empty title",
            "first plain",
            "second plain",
            "w1",
            "v1",
            "e2",
            "a1999",
            "a1999-05",
            "a2001",
            "b"
        ])
    );
    assert!(record_before(&record("A", "x"), &record("B", "x")));
    assert!(!record_before(&record("A", "x"), &record("A", "y")));
    assert!(record_before(&record("A", "x"), &with_edition));
    assert!(!record_before(&with_edition, &record("A", "x")));
    assert!(record_before(&with_edition, &dated("A", "x", "0001")));
}

#[test]
fn dates_compare_field_by_field() {
    let d = |text: &str| DateTime::try_from(text).unwrap();
    assert!(date_before(&d("1999"), &d("2000")));
    assert!(date_before(&d("1999"), &d("1999-01")));
    assert!(!date_before(&d("1999-01"), &d("1999")));
    assert!(date_before(&d("1999-01-31"), &d("1999-02-01")));
    assert!(date_before(&d("1999-01-31T10:59:59"), &d("1999-01-31T11:00:00")));
    assert!(date_before(&d("1999-01-31T10:59:58"), &d("1999-01-31T10:59:59")));
    assert!(!date_before(&d("1999-01-31"), &d("1999-01-31")));
    assert!(date_before(&d(""), &d("-001")));
    assert_eq!(date_before(&d("1999-07"), &d("2000-01")), d("1999-07") < d("2000-01"));
}

#[test]
fn records_must_have_histories_and_differ_in_their_first_digest() {
    let mut catalog = Catalog::new();
    assert!(catalog.records_well_formed());
    catalog.resources = vec![record("a", "d1"), record("b", "d2")];
    assert!(catalog.records_well_formed());
    catalog.resources.push(record("c", "d1"));
    assert!(!catalog.records_well_formed());
    catalog.resources.pop();
    catalog.resources[1].historical_checksums.clear();
    assert!(!catalog.records_well_formed());
    catalog.resources[1].historical_checksums = strings(&["d2", "d3"]);
    assert!(!catalog.records_well_formed());
    catalog.resources[1].checksum = String::from("d3");
    assert!(catalog.records_well_formed());
}

#[test]
fn empty_catalog_file_stands_for_an_empty_catalog() {
    assert_eq!(
        Catalog::read_from_file(""),
        "{\n  \"document_types\": {},\n  \"content_types\": {},\n  \"resources\": []\n}"
    );
    assert_eq!(Catalog::read_from_file("{\"resources\": []}"), "{\"resources\": []}");
}

#[test]
fn operator_answers_yes_or_no() {
    for yes in ["y", "Y", "yes", "y\n", "yes\r\n", "Y\n"] {
        assert_eq!(orphan_answer(yes), Some(true), "{:?}", yes);
    }
    for no in ["n", "N", "no", "n\n", "no\r\n"] {
        assert_eq!(orphan_answer(no), Some(false), "{:?}", no);
    }
    for other in ["", "\n", "maybe", "YES", "y ", " y", "y\n\n", "yes\r", "ja", "\r\n"] {
        assert_eq!(orphan_answer(other), None, "{:?}", other);
    }
}
