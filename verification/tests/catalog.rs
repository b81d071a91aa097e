use redbook::apple::catalog::{
    ids, names, request_page, same_barcode, search_found, Album, AlbumAttributes, AlbumBuild,
    AlbumRelationships, AlbumResource, AlbumStep, AlbumStub, ArtistAttributes, ArtistResource,
    Artwork, ArtworkResource, Catalog, Found, Relationship, SearchAlbum, SearchAlbumAttributes,
    SearchResponse, SearchResults, Track, TrackAttributes, TrackRelationships, TrackResource,
};

fn artist(name: Option<&str>) -> ArtistResource {
    ArtistResource {
        attributes: name.map(|name| ArtistAttributes {
            name: name.to_string(),
        }),
    }
}

fn artists(list: &[Option<&str>]) -> Option<Relationship<ArtistResource>> {
    Some(Relationship {
        data: list.iter().map(|name| artist(*name)).collect(),
        next: None,
    })
}

fn track(name: &str, disc: u16, number: u16) -> TrackResource {
    TrackResource {
        attributes: TrackAttributes {
            name: name.to_string(),
            artist_name: "Credit".to_string(),
            album_artist_name: None,
            isrc: Some("GB1".to_string()),
            content_rating: None,
            work_name: None,
            movement_name: None,
            movement_number: 2,
            movement_count: 3,
            disc_number: disc,
            track_number: number,
            duration_in_millis: 61_000,
        },
        relationships: TrackRelationships {
            artists: artists(&[Some("One"), None, Some("Two")]),
        },
    }
}

fn page(tracks: Vec<TrackResource>, next: Option<&str>) -> Relationship<TrackResource> {
    Relationship {
        data: tracks,
        next: next.map(str::to_string),
    }
}

fn resource(tracks: Option<Relationship<TrackResource>>) -> AlbumResource {
    AlbumResource {
        id: "77".to_string(),
        attributes: AlbumAttributes {
            name: "Album".to_string(),
            artist_name: "Artist".to_string(),
            upc: Some("0123".to_string()),
            release_date: Some("1999-01-02".to_string()),
            is_compilation: true,
            artwork: Some(ArtworkResource {
                url: "https://img/{w}x{h}bb.jpg".to_string(),
                width: 3000,
                height: 2000,
            }),
        },
        relationships: AlbumRelationships {
            tracks,
            artists: artists(&[Some("Artist")]),
        },
    }
}

fn built(pages: Vec<Relationship<TrackResource>>) -> Album {
    let mut pages = pages.into_iter();
    let mut build = AlbumBuild::begin("77", vec![resource(pages.next())]).ok().unwrap();
    while build.pending().is_some() {
        build.page(pages.next().unwrap());
    }
    build.finish()
}

#[test]
fn barcodes_agree_but_for_zeros_and_other_marks() {
    assert!(same_barcode("0075678164125", "75678164125"));
    assert!(same_barcode(" 075678-164125 ", "75678164125"));
    assert!(!same_barcode("75678164125", "75678164126"));
    assert!(!same_barcode("000", "000"));
    assert!(!same_barcode("", ""));
    assert!(!same_barcode("abc", ""));
    assert!(!same_barcode("-01", "1"));
}

#[test]
fn agreement_of_barcodes_is_mutual() {
    let codes = ["0123", "123", "1-2-3", "", "00", "-0123", "321"];
    for left in codes {
        for right in codes {
            assert_eq!(same_barcode(left, right), same_barcode(right, left));
        }
        let longer = format!("0{left}");
        assert_eq!(same_barcode(left, "123"), same_barcode(&longer, "123"));
    }
}

#[test]
fn albums_and_findings_match_barcodes() {
    let mut album = built(vec![page(vec![], None)]);
    assert!(album.matches_barcode("123"));
    assert!(!album.matches_barcode("124"));
    album.upc = None;
    assert!(!album.matches_barcode("123"));
    let mut found = Found {
        id: "1".to_string(),
        name: "n".to_string(),
        artist: "a".to_string(),
        track_count: 3,
        upc: Some("00123".to_string()),
    };
    assert!(found.matches_barcode("123"));
    found.upc = None;
    assert!(!found.matches_barcode("123"));
}

#[test]
fn covers_have_an_address_in_each_size() {
    let artwork = Artwork::from(ArtworkResource {
        url: "https://img/{w}x{h}/{w}.{f}".to_string(),
        width: 5,
        height: 6,
    });
    assert_eq!(artwork.url(300, 200), "https://img/300x200/300.{f}");
    assert_eq!((artwork.width, artwork.height), (5, 6));
    assert_eq!(artwork.clone().url(1, 2), artwork.url(1, 2));
}

#[test]
fn artists_without_attributes_are_left_out() {
    assert_eq!(names(artists(&[None, Some("A"), Some("B"), None])), vec!["A", "B"]);
    assert!(names(None).is_empty());
}

#[test]
fn tracks_stand_on_the_first_disc_at_least() {
    let first = Track::from(track("T", 0, 4));
    assert_eq!(first.disc_number, 1);
    assert_eq!(first.track_number, 4);
    assert_eq!(first.name, "T");
    assert_eq!(first.artist, "Credit");
    assert_eq!(first.artists, vec!["One", "Two"]);
    assert_eq!(first.isrc, Some("GB1".to_string()));
    assert_eq!(first.movement_number, 2);
    assert_eq!(first.movement_count, 3);
    assert_eq!(first.duration_ms, 61_000);
    assert_eq!(Track::from(track("T", 3, 4)).disc_number, 3);
}

#[test]
fn albums_are_put_together_page_by_page() {
    let mut build = AlbumBuild::begin(
        "77",
        vec![resource(Some(page(vec![track("A", 1, 1)], Some("/v1/next?offset=1"))))],
    )
    .ok()
    .unwrap();
    let request = build.pending().unwrap();
    assert_eq!(request.path, "/next?offset=1");
    assert_eq!(request.query, vec![("include".to_string(), "artists".to_string())]);
    assert_eq!(
        build.note(),
        Some("apple: paging tracks via /v1/next?offset=1".to_string())
    );
    build.page(page(vec![track("B", 2, 1), track("C", 0, 2)], None));
    assert!(build.pending().is_none());
    assert!(build.note().is_none());
    let album = build.finish();
    let titles: Vec<&str> = album.tracks.iter().map(|track| track.name.as_str()).collect();
    assert_eq!(titles, vec!["A", "B", "C"]);
    assert_eq!(album.disc_count, 2);
    assert_eq!(album.id, "77");
    assert_eq!(album.name, "Album");
    assert_eq!(album.artist, "Artist");
    assert_eq!(album.artists, vec!["Artist"]);
    assert_eq!(album.upc, Some("0123".to_string()));
    assert_eq!(album.release_date, Some("1999-01-02".to_string()));
    assert!(album.is_compilation);
    assert_eq!(album.artwork.as_ref().unwrap().url(1, 2), "https://img/1x2bb.jpg");
    assert_eq!(album.clone().tracks.len(), 3);
}

#[test]
fn albums_without_tracks_have_one_disc() {
    let build = AlbumBuild::begin("77", vec![resource(None)]).ok().unwrap();
    assert!(build.pending().is_none());
    let album = build.finish();
    assert!(album.tracks.is_empty());
    assert_eq!(album.disc_count, 1);
}

#[test]
fn an_answer_without_an_album_is_an_error() {
    let message = AlbumBuild::begin("77", vec![]).err().unwrap();
    assert_eq!(message, "apple: album 77 returned no data");
}

#[test]
fn further_pages_are_below_the_root() {
    assert_eq!(request_page("/v1/catalog/us/x?offset=2").path, "/catalog/us/x?offset=2");
    assert!(request_page("/v1/x").query.is_empty());
}

#[test]
fn an_album_is_asked_for_once() {
    let mut catalog = Catalog::with_storefront("de");
    match catalog.album("77") {
        AlbumStep::Ask(request) => {
            assert_eq!(request.path, "/catalog/de/albums/77");
            assert_eq!(
                request.query,
                vec![
                    ("include".to_string(), "tracks,artists".to_string()),
                    ("include[songs]".to_string(), "artists".to_string()),
                ]
            );
        }
        AlbumStep::Known(_) => panic!("known before it was asked for"),
    }
    let album = built(vec![page(vec![track("A", 1, 1)], None)]);
    catalog.remember("77", &album);
    match catalog.album("77") {
        AlbumStep::Known(known) => assert_eq!(known.tracks[0].name, "A"),
        AlbumStep::Ask(_) => panic!("asked for again"),
    }
    assert!(matches!(catalog.album("78"), AlbumStep::Ask(_)));
}

#[test]
fn albums_are_asked_for_by_barcode_and_by_text() {
    let catalog = Catalog::with_storefront("us");
    let request = catalog.album_ids_by_upc("0123");
    assert_eq!(request.path, "/catalog/us/albums");
    assert_eq!(request.query, vec![("filter[upc]".to_string(), "0123".to_string())]);
    let request = catalog.search_albums("some words", 15);
    assert_eq!(request.path, "/catalog/us/search");
    assert_eq!(
        request.query,
        vec![
            ("term".to_string(), "some words".to_string()),
            ("types".to_string(), "albums".to_string()),
            ("limit".to_string(), "15".to_string()),
        ]
    );
    let stubs = vec![AlbumStub { id: "2".to_string() }, AlbumStub { id: "1".to_string() }];
    assert_eq!(ids(stubs), vec!["2", "1"]);
}

#[test]
fn findings_keep_what_the_search_says() {
    let response = SearchResponse {
        results: SearchResults {
            albums: Some(Relationship {
                data: vec![SearchAlbum {
                    id: "5".to_string(),
                    attributes: SearchAlbumAttributes {
                        name: "Name".to_string(),
                        artist_name: "Who".to_string(),
                        track_count: 9,
                        upc: Some("1".to_string()),
                    },
                }],
                next: Some("ignored".to_string()),
            }),
        },
    };
    let found = search_found(response);
    assert_eq!(found.len(), 1);
    assert_eq!(found[0].id, "5");
    assert_eq!(found[0].name, "Name");
    assert_eq!(found[0].artist, "Who");
    assert_eq!(found[0].track_count, 9);
    assert_eq!(found[0].upc, Some("1".to_string()));
    let empty = SearchResponse {
        results: SearchResults { albums: None },
    };
    assert!(search_found(empty).is_empty());
}
