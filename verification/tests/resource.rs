use librarian::resource::{
    DateTime, DocumentType, MediaPrefix, MediaType, MediaTypeParseError, Name, NameParseError, Resource,
};

#[test]
fn test_resource_concat_fields() {
    let resource = Resource {
        title: String::from("Classical Electrodynamics"),
        subtitle: None,
        author: Some(vec![Name::try_from("John David Jackson").unwrap()]),
        editor: None,
        date: Some(DateTime::try_from("1999").unwrap()),
        edition: Some(String::from("3")),
        version: None,
        publisher: Some(String::from("John Wiley & Sons")),
        organization: None,
        journal: None,
        volume: None,
        number: None,
        doi: None,
        tags: Some(vec![String::from("physics"), String::from("electromagnetism")]),
        document: Some(String::from("pdf")),
        content: Some(String::from("textbook")),
        url: None,
        checksum: String::from("88259e88e7677e5ae8a31e33f177a2198cabe95c"),
        historical_checksums: vec![String::from("88259e88e7677e5ae8a31e33f177a2198cabe95c")],
    };

    let actual = resource.concat_fields(vec![
        "title",
        "subtitle",
        "author",
        "editor",
        "date",
        "edition",
        "version",
        "publisher",
        "organization",
        "journal",
        "volume",
        "number",
        "doi",
        "tags",
        "document",
        "content",
        "url",
        "checksum",
        "historical_checksums",
    ]);
    let want = String::from("Classical Electrodynamics ")
        + "John David Jackson "
        + "1999 "
        + "3 "
        + "John Wiley & Sons "
        + "physics "
        + "electromagnetism "
        + "pdf "
        + "textbook "
        + "88259e88e7677e5ae8a31e33f177a2198cabe95c "
        + "88259e88e7677e5ae8a31e33f177a2198cabe95c";
    println!("actual: {:?}", actual);
    println!("want: {:?}", want);
    assert!(actual == want);
}

#[test]
fn field_string_of_each_kind() {
    let mut r = Resource {
        title: String::from("T"),
        subtitle: Some(String::from("S")),
        author: Some(vec![]),
        editor: None,
        date: Some(DateTime::try_from("2001-02-03T04:05:06").unwrap()),
        edition: None,
        version: None,
        publisher: None,
        organization: None,
        journal: None,
        volume: None,
        number: None,
        doi: None,
        tags: Some(vec![]),
        document: None,
        content: None,
        url: Some(String::from("https://example.org/")),
        checksum: String::from("c2"),
        historical_checksums: vec![String::from("c1"), String::from("c2")],
    };
    assert_eq!(r.field_string("title"), Some(String::from("T")));
    assert_eq!(r.field_string("subtitle"), Some(String::from("S")));
    assert_eq!(r.field_string("author"), Some(String::new()));
    assert_eq!(r.field_string("editor"), None);
    assert_eq!(r.field_string("date"), Some(String::from("2001-02-03T04:05:06")));
    assert_eq!(r.field_string("tags"), Some(String::new()));
    assert_eq!(r.field_string("url"), Some(String::from("https://example.org/")));
    assert_eq!(r.field_string("checksum"), Some(String::from("c2")));
    assert_eq!(r.field_string("historical_checksums"), Some(String::from("c1 c2")));
    assert!(r.is_well_formed());
    assert_eq!(r.original_digest(), "c1");
    r.checksum = String::from("c3");
    assert!(!r.is_well_formed());
    r.historical_checksums.clear();
    assert!(!r.is_well_formed());
}

#[test]
fn name_has_up_to_three_parts() {
    let n = Name::try_from("Dirac").unwrap();
    assert_eq!(n, Name { first: None, middle: None, last: Some(String::from("Dirac")) });
    let n = Name::try_from("Albert Einstein").unwrap();
    assert_eq!(
        n,
        Name { first: Some(String::from("Albert")), middle: None, last: Some(String::from("Einstein")) }
    );
    let n = Name::try_from("Richard Phillips Feynman").unwrap();
    assert_eq!(n.text(), "Richard Phillips Feynman");
    let n = Name::try_from("").unwrap();
    assert_eq!(n, Name { first: None, middle: None, last: Some(String::new()) });
    let e: NameParseError = Name::try_from("a b c d").unwrap_err();
    assert_eq!(e.to_string(), "A name can only contain a maximum of 3 parts.");
    assert_eq!(e.description(), "A name can only contain a maximum of 3 parts.");
    let e = Name::try_from("a  b c").unwrap_err();
    assert_eq!(e.to_string(), "A name can only contain a maximum of 3 parts.");
}

#[test]
fn name_text_leaves_out_what_is_missing() {
    assert_eq!(Name::new().text(), "");
    assert_eq!(Name::new(), Name { first: None, middle: None, last: None });
    let n = Name { first: Some(String::from("A")), middle: Some(String::from("B")), last: None };
    assert_eq!(n.text(), "");
    let n = Name { first: None, middle: Some(String::from("B")), last: Some(String::from("C")) };
    assert_eq!(n.text(), "C");
    let n = Name { first: Some(String::from("A")), middle: None, last: Some(String::from("C")) };
    assert_eq!(n.text(), "A C");
}

#[test]
fn date_is_read_as_far_as_it_goes() {
    assert_eq!(DateTime::try_from("").unwrap(), DateTime::new());
    assert_eq!(DateTime::try_from("199").unwrap(), DateTime::new());
    let d = DateTime::try_from("1999").unwrap();
    assert_eq!(d.year, Some(1999));
    assert_eq!(d.month, None);
    let d = DateTime::try_from("1999-1").unwrap();
    assert_eq!(d, DateTime { year: Some(1999), ..DateTime::new() });
    let d = DateTime::try_from("1999-12-31T23:59:58").unwrap();
    assert_eq!(
        d,
        DateTime {
            year: Some(1999),
            month: Some(12),
            day: Some(31),
            hour: Some(23),
            minute: Some(59),
            second: Some(58),
        }
    );
    let d = DateTime::try_from("1999x12y31").unwrap();
    assert_eq!(d.day, Some(31));
    let d = DateTime::try_from("2020-02-03 a").unwrap();
    assert_eq!(d, DateTime { year: Some(2020), month: Some(2), day: Some(3), ..DateTime::new() });
    let d = DateTime::try_from("2020-02-03T04:05:06 and more").unwrap();
    assert_eq!(d.second, Some(6));
    let d = DateTime::try_from("-012-+1").unwrap();
    assert_eq!(d, DateTime { year: Some(-12), month: Some(1), ..DateTime::new() });
}

#[test]
fn date_errors_name_the_field() {
    assert_eq!(DateTime::try_from("1999-13").unwrap_err().to_string(), "month must be between 1 and 12");
    assert_eq!(DateTime::try_from("1999-00").unwrap_err().to_string(), "month must be between 1 and 12");
    assert_eq!(DateTime::try_from("1999-12-32").unwrap_err().to_string(), "day must be between 1 and 31");
    assert_eq!(DateTime::try_from("1999-12-00").unwrap_err().to_string(), "day must be between 1 and 31");
    assert_eq!(
        DateTime::try_from("1999-12-31T24").unwrap_err().to_string(),
        "hour must be between 0 and 23"
    );
    assert_eq!(
        DateTime::try_from("1999-12-31T23:60").unwrap_err().to_string(),
        "minute must be between 0 and 59"
    );
    assert_eq!(
        DateTime::try_from("1999-12-31T23:59:60").unwrap_err().to_string(),
        "second must be between 0 and 59"
    );
    assert_eq!(
        DateTime::try_from("1999-12-31T-1").unwrap_err().to_string(),
        "hour must be between 0 and 23"
    );
    let e = DateTime::try_from("19x9").unwrap_err();
    assert_eq!(e.to_string(), "date and time fields must be numbers");
    assert_eq!(e.description(), "date and time fields must be numbers");
    assert_eq!(
        DateTime::try_from("1999-é").unwrap_err().to_string(),
        "date and time fields must be numbers"
    );
    assert_eq!(DateTime::try_from("1999é").unwrap().year, Some(1999));
}

#[test]
fn date_text_pads_with_zeros() {
    assert_eq!(DateTime::new().text(), "");
    let mut d = DateTime::new();
    d.year = Some(7);
    assert_eq!(d.text(), "0007");
    d.month = Some(3);
    assert_eq!(d.text(), "0007-03");
    d.day = Some(9);
    assert_eq!(d.text(), "0007-03-09");
    d.hour = Some(0);
    assert_eq!(d.text(), "0007-03-09T00");
    d.minute = Some(5);
    assert_eq!(d.text(), "0007-03-09T00:05");
    d.second = Some(59);
    assert_eq!(d.text(), "0007-03-09T00:05:59");
    d.year = Some(-5);
    assert_eq!(d.text(), "-005-03-09T00:05:59");
    d.year = Some(12345);
    d.month = Some(-7);
    assert_eq!(d.text(), "12345--7-09T00:05:59");
    d.month = None;
    assert_eq!(d.text(), "12345");
    d.year = Some(i32::MIN);
    assert_eq!(d.text(), "-2147483648");
}

#[test]
fn media_type_is_prefix_and_subtype() {
    let m = MediaType::try_from("application/pdf").unwrap();
    assert_eq!(m.prefix(), MediaPrefix::Application);
    assert_eq!(m.subtype(), "pdf");
    assert_eq!(m.text(), "application/pdf");
    assert_eq!(m.clone(), m);
    let m = MediaType::try_from("text/").unwrap();
    assert_eq!(m.prefix(), MediaPrefix::Text);
    assert_eq!(m.subtype(), "");
    let m = MediaType::try_from("te\\u0078t/html").unwrap();
    assert_eq!(m.text(), "text/html");
    let e: MediaTypeParseError = MediaType::try_from("pdf").unwrap_err();
    assert_eq!(e.to_string(), "A media type must contain a type and subtype.");
    let e = MediaType::try_from("a/b/c").unwrap_err();
    assert_eq!(e.description(), "A media type must contain a type and subtype.");
    let e = MediaType::try_from("book/pdf").unwrap_err();
    assert_eq!(e.to_string(), "A media type must start with a registered top-level type.");
    let e = MediaType::try_from("te\"xt/pdf").unwrap_err();
    assert_eq!(e.to_string(), "A media type must start with a registered top-level type.");
    let e = MediaType::try_from("Text/pdf").unwrap_err();
    assert_eq!(e.to_string(), "A media type must start with a registered top-level type.");
}

#[test]
fn media_prefix_names_go_both_ways() {
    let all = [
        (MediaPrefix::Application, "application"),
        (MediaPrefix::Audio, "audio"),
        (MediaPrefix::Image, "image"),
        (MediaPrefix::Message, "message"),
        (MediaPrefix::Multipart, "multipart"),
        (MediaPrefix::Text, "text"),
        (MediaPrefix::Video, "video"),
        (MediaPrefix::Font, "font"),
        (MediaPrefix::Example, "example"),
        (MediaPrefix::Model, "model"),
    ];
    for (prefix, name) in all {
        assert_eq!(prefix.name(), name);
        assert_eq!(MediaPrefix::from_name(name), Some(prefix));
    }
    assert_eq!(MediaPrefix::from_name("models"), None);
    assert_eq!(MediaPrefix::from_name(""), None);
}

#[test]
fn media_type_from_parts_takes_the_decoded_name() {
    let m = MediaType::from_parts(Some(String::from("image")), String::from("png")).unwrap();
    assert_eq!(m.text(), "image/png");
    assert!(MediaType::from_parts(None, String::from("png")).is_err());
    assert!(MediaType::from_parts(Some(String::from("img")), String::from("png")).is_err());
}

#[test]
fn document_type_copies() {
    let d = DocumentType { extension: String::from("pdf"), mime: Some(MediaType::try_from("application/pdf").unwrap()) };
    assert_eq!(d.clone(), d);
}
