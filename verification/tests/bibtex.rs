use librarian::bibtex::{bibtex_serialize_field, bibtex_serialize_names, librarian_bibtex, BibtexType};
use librarian::catalog::Catalog;
use librarian::resource::{DateTime, Name, Resource};
use librarian::table::Table;

fn blank(title: &str, digest: &str) -> Resource {
    Resource {
        title: String::from(title),
        subtitle: None,
        author: None,
        editor: None,
        date: None,
        edition: None,
        version: None,
        publisher: None,
        organization: None,
        journal: None,
        volume: None,
        number: None,
        doi: None,
        tags: None,
        document: None,
        content: None,
        url: None,
        checksum: String::from(digest),
        historical_checksums: vec![String::from(digest)],
    }
}

#[test]
fn test_bibtex_serialize_names() {
    let mut names: Vec<Name> = vec![
        Name {
            first: Some(String::from("Richard")),
            middle: Some(String::from("Phillips")),
            last: Some(String::from("Feynman")),
        },
        Name {
            first: Some(String::from("Albert")),
            middle: None,
            last: Some(String::from("Einstein")),
        },
        Name {
            first: None,
            middle: None,
            last: Some(String::from("Dirac")),
        },
    ];

    assert!(
        bibtex_serialize_names("author", Some(names.clone()))
            == "    author={Richard Phillips Feynman and Albert Einstein and Dirac},\n"
    );

    names.pop();
    assert!(
        bibtex_serialize_names("editor", Some(names.clone()))
            == "    editor={Richard Phillips Feynman and Albert Einstein},\n"
    );

    names.pop();
    assert!(
        bibtex_serialize_names("annotator", Some(names.clone()))
            == "    annotator={Richard Phillips Feynman},\n"
    );

    names.pop();
    assert!(bibtex_serialize_names("forward", Some(names)) == "");
}

#[test]
fn names_line_is_empty_without_a_list() {
    assert_eq!(bibtex_serialize_names("author", None), "");
}

#[test]
fn field_line_has_indent_and_braces() {
    assert_eq!(
        bibtex_serialize_field("title", Some(String::from("Gravitation"))),
        "    title={Gravitation},\n"
    );
    assert_eq!(bibtex_serialize_field("title", None), "");
}

#[test]
fn entry_type_names_are_lower_case() {
    assert_eq!(BibtexType::Article.name(), "article");
    assert_eq!(BibtexType::TechReport.name(), "techreport");
    assert_eq!(BibtexType::Miscellaneous.name(), "miscellaneous");
}

#[test]
fn entry_of_a_book() {
    let mut types: Table<BibtexType> = Table::new();
    types.insert(String::from("textbook"), BibtexType::Book);
    let mut r = blank("Classical Electrodynamics", "88259e88");
    r.author = Some(vec![Name::try_from("John David Jackson").unwrap()]);
    r.date = Some(DateTime::try_from("1999").unwrap());
    r.edition = Some(String::from("3"));
    r.organization = Some(String::from("Wiley"));
    r.content = Some(String::from("textbook"));
    r.historical_checksums.push(String::from("aaaa"));
    r.checksum = String::from("aaaa");
    let entry = r.serialize_bibtex(&types, "/library/resources");
    let want = String::from("@book{88259e88,\n")
        + "    title={Classical Electrodynamics},\n"
        + "    author={John David Jackson},\n"
        + "    date={1999},\n"
        + "    edition={3},\n"
        + "    organization={Wiley},\n"
        + "    institution={Wiley},\n"
        + "    file={/library/resources/88259e88},\n"
        + "}\n";
    assert_eq!(entry, want);
}

#[test]
fn record_without_entry_type_has_no_entry() {
    let types: Table<BibtexType> = Table::new();
    let mut r = blank("Notes", "abc");
    assert_eq!(r.serialize_bibtex(&types, "/r"), "");
    r.content = Some(String::from("unknown"));
    assert_eq!(r.bibtex_type(&types), None);
    assert_eq!(r.serialize_bibtex(&types, "/r"), "");
}

#[test]
fn bibliography_joins_the_entries() {
    let mut catalog = Catalog::new();
    catalog.content_types.insert(String::from("paper"), BibtexType::Article);
    let mut a = blank("A", "d1");
    a.content = Some(String::from("paper"));
    let b = blank("B", "d2");
    let mut c = blank("C", "d3");
    c.content = Some(String::from("paper"));
    catalog.resources = vec![a, b, c];
    let text = librarian_bibtex(&catalog, "/r");
    let want = String::from("@article{d1,\n    title={A},\n    file={/r/d1},\n}\n")
        + "@article{d3,\n    title={C},\n    file={/r/d3},\n}\n";
    assert_eq!(text, want);
}
