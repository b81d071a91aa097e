use redbook::apple::catalog::{
    AlbumStub, Catalog, Relationship, SongAttributes, SongRelationships, SongResource,
};
use redbook::apple::lookup::{sort_ids, IsrcLookup, Question, ISRC_BATCH};

fn strings(parts: &[&str]) -> Vec<String> {
    parts.iter().map(|part| part.to_string()).collect()
}

fn albums(ids: &[&str], next: Option<&str>) -> Relationship<AlbumStub> {
    Relationship {
        data: ids.iter().map(|id| AlbumStub { id: id.to_string() }).collect(),
        next: next.map(str::to_string),
    }
}

fn song(isrc: Option<&str>, albums: Option<Relationship<AlbumStub>>) -> SongResource {
    SongResource {
        attributes: SongAttributes {
            isrc: isrc.map(str::to_string),
        },
        relationships: SongRelationships { albums },
    }
}

fn filter_of(lookup: &IsrcLookup, catalog: &Catalog) -> String {
    match lookup.question(catalog) {
        Question::Songs(request) => {
            assert_eq!(request.path, "/catalog/us/songs");
            assert_eq!(request.query[1], ("include".to_string(), "albums".to_string()));
            assert_eq!(request.query[0].0, "filter[isrc]");
            request.query[0].1.clone()
        }
        _ => panic!("no songs are asked for"),
    }
}

#[test]
fn a_lookup_finds_the_albums_of_each_isrc() {
    let mut catalog = Catalog::with_storefront("us");
    let mut lookup = catalog.album_ids_by_isrcs(&strings(&["gb1", "US2", "FR3"]));
    assert_eq!(filter_of(&lookup, &catalog), "gb1,US2,FR3");
    lookup.songs(
        &mut catalog,
        vec![
            song(Some("GB1"), Some(albums(&["9", "3"], None))),
            song(Some("us2"), Some(albums(&["3"], None))),
            song(Some("GB1"), Some(albums(&["3", "1"], None))),
            song(Some("XX9"), Some(albums(&["7"], None))),
            song(None, Some(albums(&["8"], None))),
            song(Some("US2"), None),
        ],
    );
    assert!(matches!(lookup.question(&catalog), Question::Nothing));
    let found = lookup.finish(&catalog);
    assert_eq!(found.keys(), strings(&["FR3", "US2", "gb1"]));
    assert_eq!(found.get("gb1"), Some(&strings(&["1", "3", "9"])));
    assert_eq!(found.get("US2"), Some(&strings(&["3"])));
    assert_eq!(found.get("FR3"), Some(&strings(&[])));
}

#[test]
fn further_pages_are_asked_for_song_by_song() {
    let mut catalog = Catalog::with_storefront("us");
    let mut lookup = catalog.album_ids_by_isrcs(&strings(&["A", "B"]));
    lookup.songs(
        &mut catalog,
        vec![
            song(Some("A"), Some(albums(&["1"], Some("/v1/p1")))),
            song(Some("B"), Some(albums(&["4"], Some("/v1/p3")))),
        ],
    );
    match lookup.question(&catalog) {
        Question::Page(request) => assert_eq!(request.path, "/p1"),
        _ => panic!("no page is asked for"),
    }
    assert_eq!(
        lookup.note(&catalog),
        Some("apple: paging albums via /v1/p1".to_string())
    );
    lookup.page(&mut catalog, albums(&["2"], Some("/v1/p2")));
    match lookup.question(&catalog) {
        Question::Page(request) => {
            assert_eq!(request.path, "/p2");
            assert!(request.query.is_empty());
        }
        _ => panic!("no page is asked for"),
    }
    lookup.page(&mut catalog, albums(&["3", "1"], None));
    match lookup.question(&catalog) {
        Question::Page(request) => assert_eq!(request.path, "/p3"),
        _ => panic!("no page is asked for"),
    }
    lookup.page(&mut catalog, albums(&["5"], None));
    assert!(lookup.note(&catalog).is_none());
    let found = lookup.finish(&catalog);
    assert_eq!(found.get("A"), Some(&strings(&["1", "2", "3"])));
    assert_eq!(found.get("B"), Some(&strings(&["4", "5"])));
}

#[test]
fn isrcs_are_asked_for_in_batches() {
    let mut catalog = Catalog::with_storefront("us");
    let isrcs: Vec<String> = (0..60).map(|n| format!("I{n:02}")).collect();
    let mut lookup = catalog.album_ids_by_isrcs(&isrcs);
    for (size, ids) in [(ISRC_BATCH, "a"), (ISRC_BATCH, "x"), (10, "z")] {
        assert_eq!(filter_of(&lookup, &catalog).split(',').count(), size);
        lookup.songs(
            &mut catalog,
            vec![
                song(Some("I30"), Some(albums(&[ids], None))),
                song(Some("I02"), Some(albums(&[ids], None))),
            ],
        );
    }
    assert!(matches!(lookup.question(&catalog), Question::Nothing));
    let found = lookup.finish(&catalog);
    assert_eq!(found.len(), 60);
    assert_eq!(found.get("I02"), Some(&strings(&["a"])));
    assert_eq!(found.get("I30"), Some(&strings(&["x"])));
    assert_eq!(found.get("I31"), Some(&strings(&[])));
}

#[test]
fn what_is_known_is_not_asked_for_again() {
    let mut catalog = Catalog::with_storefront("us");
    let mut lookup = catalog.album_ids_by_isrcs(&strings(&["straße1"]));
    lookup.songs(
        &mut catalog,
        vec![song(Some("STRASSE1"), Some(albums(&["2"], None)))],
    );
    assert_eq!(lookup.finish(&catalog).get("straße1"), Some(&strings(&["2"])));
    let lookup = catalog.album_ids_by_isrcs(&strings(&["Strasse1", "NEW"]));
    assert_eq!(filter_of(&lookup, &catalog), "NEW");
    let lookup = catalog.album_ids_by_isrcs(&strings(&["STRASSE1"]));
    assert!(matches!(lookup.question(&catalog), Question::Nothing));
    assert_eq!(lookup.finish(&catalog).get("STRASSE1"), Some(&strings(&["2"])));
}

#[test]
fn a_second_lookup_in_another_case_gives_what_the_first_found() {
    let mut catalog = Catalog::with_storefront("us");
    let mut first = catalog.album_ids_by_isrcs(&strings(&["gb1", "US2", "FR3"]));
    first.songs(
        &mut catalog,
        vec![
            song(Some("GB1"), Some(albums(&["9", "3"], Some("/v1/p1")))),
            song(Some("us2"), Some(albums(&["3"], None))),
        ],
    );
    first.page(&mut catalog, albums(&["1"], None));
    assert!(matches!(first.question(&catalog), Question::Nothing));
    let found = first.finish(&catalog);
    let mut other = catalog.album_ids_by_isrcs(&strings(&["GB1", "DE4"]));
    assert_eq!(filter_of(&other, &catalog), "DE4");
    other.songs(&mut catalog, vec![song(Some("GB1"), Some(albums(&["7"], None)))]);
    let second = catalog.album_ids_by_isrcs(&strings(&["fr3", "Gb1", "fR3"]));
    assert!(matches!(second.question(&catalog), Question::Nothing));
    let again = second.finish(&catalog);
    assert_eq!(again.keys(), strings(&["Gb1", "fR3", "fr3"]));
    assert_eq!(again.get("Gb1"), Some(&strings(&["1", "3", "9"])));
    assert_eq!(again.get("Gb1"), found.get("gb1"));
    assert_eq!(again.get("fr3"), Some(&strings(&[])));
    assert_eq!(again.get("fR3"), found.get("FR3"));
}

#[test]
fn the_same_isrc_in_two_spellings_is_found_for_both() {
    let mut catalog = Catalog::with_storefront("us");
    let mut lookup = catalog.album_ids_by_isrcs(&strings(&["abc", "ABC"]));
    lookup.songs(&mut catalog, vec![song(Some("ABC"), Some(albums(&["1"], None)))]);
    let found = lookup.finish(&catalog);
    assert_eq!(found.get("abc"), Some(&strings(&["1"])));
    assert_eq!(found.get("ABC"), Some(&strings(&["1"])));
    let lookup = catalog.album_ids_by_isrcs(&strings(&["Abc"]));
    assert!(matches!(lookup.question(&catalog), Question::Nothing));
    assert_eq!(lookup.finish(&catalog).get("Abc"), Some(&strings(&["1"])));
}

#[test]
fn identifiers_are_sorted_once_each() {
    assert_eq!(sort_ids(&strings(&["10", "9", "10", "1"])), strings(&["1", "10", "9"]));
    assert!(sort_ids(&strings(&[])).is_empty());
}
