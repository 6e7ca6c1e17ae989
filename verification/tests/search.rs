use librarian::catalog::Catalog;
use librarian::resource::Resource;
use librarian::search::{librarian_search, rank_matches};

fn blank(title: &str, digest: &str) -> Resource {
    Resource {
        title: String::from(title),
        subtitle: None,
        author: None,
        editor: None,
        date: None,
        edition: None,
        version: None,
        publisher: None,
        organization: None,
        journal: None,
        volume: None,
        number: None,
        doi: None,
        tags: None,
        document: None,
        content: None,
        url: None,
        checksum: String::from(digest),
        historical_checksums: vec![String::from(digest)],
    }
}

#[test]
fn ranking_is_by_falling_score_and_stable() {
    let scores = vec![Some(5), None, Some(9), Some(5), Some(0), Some(-3), Some(9), Some(1)];
    assert_eq!(rank_matches(&scores), vec![2, 6, 0, 3, 7]);
    assert_eq!(rank_matches(&vec![]), Vec::<usize>::new());
    assert_eq!(rank_matches(&vec![None, Some(0)]), Vec::<usize>::new());
    assert_eq!(rank_matches(&vec![Some(i64::MAX), Some(1), Some(i64::MIN)]), vec![0, 1]);
}

#[test]
fn search_finds_the_records_that_match() {
    let mut catalog = Catalog::new();
    catalog.resources = vec![
        blank("Gravitation", "d1"),
        blank("Classical Electrodynamics", "d2"),
        blank("Statistical Physics", "d3"),
    ];
    let found = librarian_search(&catalog, "electro");
    assert_eq!(found.len(), 1);
    assert_eq!(found[0].title, "Classical Electrodynamics");
    let found = librarian_search(&catalog, "ELECTRO");
    assert_eq!(found.len(), 1);
    let found = librarian_search(&catalog, "quantum");
    assert_eq!(found.len(), 0);
    let found = librarian_search(&Catalog::new(), "anything");
    assert_eq!(found.len(), 0);
}

#[test]
fn search_puts_the_better_match_first() {
    let mut catalog = Catalog::new();
    catalog.resources = vec![blank("g-r-a-v-i-t-y waves", "d1"), blank("gravity", "d2")];
    let found = librarian_search(&catalog, "gravity");
    assert_eq!(found.len(), 2);
    assert_eq!(found[0].title, "gravity");
    assert_eq!(found[1].title, "g-r-a-v-i-t-y waves");
}

#[test]
fn search_looks_into_every_field() {
    let mut catalog = Catalog::new();
    let mut r = blank("Untitled", "d1");
    r.tags = Some(vec![String::from("thermodynamics")]);
    catalog.resources = vec![r, blank("Other", "d2")];
    let found = librarian_search(&catalog, "thermo");
    assert_eq!(found.len(), 1);
    assert_eq!(found[0].title, "Untitled");
    let found = librarian_search(&catalog, "d2");
    assert_eq!(found.len(), 1);
    assert_eq!(found[0].title, "Other");
}
