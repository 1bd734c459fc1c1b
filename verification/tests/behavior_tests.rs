use songsearch::interner::CanonicalMap;
use songsearch::search::{Builder, Search};
use songsearch::storage::{store_song, Song};
use songsearch::Error;

type Reader = lasso2::RodeoReader<lasso2::Spur, std::collections::hash_map::RandomState>;

fn setup(songs: Vec<Song>) -> (Search, Reader, CanonicalMap) {
    let mut strings = lasso2::Rodeo::new();
    let mut canon = CanonicalMap::new();
    let mut builder = Builder::default();
    for song in &songs {
        let storage_song = store_song(&mut strings, &mut canon, song).unwrap();
        builder.add_song(song, &storage_song);
    }
    (builder.build(), strings.into_reader(), canon)
}

fn corpus() -> (Search, Reader, CanonicalMap) {
    setup(vec![
        Song {
            virtual_path: "seasons.mp3".to_owned(),
            title: Some("Seasons".to_owned()),
            artists: vec!["Dragonforce".to_owned()],
            year: Some(2004),
            ..Default::default()
        },
        Song {
            virtual_path: "potd.mp3".to_owned(),
            title: Some("Power of the Dragonflame".to_owned()),
            artists: vec!["Rhapsody".to_owned()],
            year: Some(2002),
            ..Default::default()
        },
    ])
}

fn sorted(mut v: Vec<String>) -> Vec<String> {
    v.sort();
    v
}

#[test]
fn empty_query_is_a_parse_error() {
    let (search, strings, canon) = corpus();
    assert_eq!(
        search.find_songs(&strings, &canon, ""),
        Err(Error::SearchQueryParseError)
    );
    assert_eq!(
        search.find_songs(&strings, &canon, "   "),
        Err(Error::SearchQueryParseError)
    );
}

#[test]
fn malformed_queries_are_parse_errors() {
    let (search, strings, canon) = corpus();
    for q in ["(((", "artist =", "&& seasons", "a || ", "\"unterminated", "a & b"] {
        assert_eq!(
            search.find_songs(&strings, &canon, q),
            Err(Error::SearchQueryParseError),
            "query {:?} should be rejected",
            q
        );
    }
}

#[test]
fn short_fuzzy_query_matches_nothing() {
    let (search, strings, canon) = corpus();
    let songs = search.find_songs(&strings, &canon, "s").unwrap();
    assert!(songs.is_empty());
}

#[test]
fn exact_match_on_unknown_value_is_empty() {
    let (search, strings, canon) = corpus();
    let songs = search
        .find_songs(&strings, &canon, "artist = Nightwish")
        .unwrap();
    assert!(songs.is_empty());
}

#[test]
fn boolean_operators_commute() {
    let (search, strings, canon) = corpus();
    let ab = sorted(search.find_songs(&strings, &canon, "seasons && dragon").unwrap());
    let ba = sorted(search.find_songs(&strings, &canon, "dragon && seasons").unwrap());
    assert_eq!(ab, ba);
    let ab = sorted(search.find_songs(&strings, &canon, "seasons || rhapsody").unwrap());
    let ba = sorted(search.find_songs(&strings, &canon, "rhapsody || seasons").unwrap());
    assert_eq!(ab, ba);
}

#[test]
fn boolean_operators_associate() {
    let (search, strings, canon) = corpus();
    let left = sorted(
        search
            .find_songs(&strings, &canon, "(dragon && power) && flame")
            .unwrap(),
    );
    let right = sorted(
        search
            .find_songs(&strings, &canon, "dragon && (power && flame)")
            .unwrap(),
    );
    assert_eq!(left, right);
    assert_eq!(left, vec!["potd.mp3".to_owned()]);
}

#[test]
fn empty_result_absorbs_conjunction() {
    let (search, strings, canon) = corpus();
    let songs = search
        .find_songs(&strings, &canon, "seasons && zzzz")
        .unwrap();
    assert!(songs.is_empty());
}

#[test]
fn fuzzy_covers_title_field() {
    let (search, strings, canon) = corpus();
    let songs = search.find_songs(&strings, &canon, "easo").unwrap();
    assert_eq!(songs, vec!["seasons.mp3".to_owned()]);
}

#[test]
fn exact_match_is_also_fuzzy_match() {
    let (search, strings, canon) = corpus();
    let exact = search
        .find_songs(&strings, &canon, "artist = Dragonforce")
        .unwrap();
    let like = search
        .find_songs(&strings, &canon, "artist % Dragonforce")
        .unwrap();
    assert_eq!(exact, vec!["seasons.mp3".to_owned()]);
    assert_eq!(like, vec!["seasons.mp3".to_owned()]);
}

#[test]
fn number_field_equality() {
    let (search, strings, canon) = corpus();
    let songs = search.find_songs(&strings, &canon, "year = 2004").unwrap();
    assert_eq!(songs, vec!["seasons.mp3".to_owned()]);
    let songs = search.find_songs(&strings, &canon, "year = 1999").unwrap();
    assert!(songs.is_empty());
}

#[test]
fn number_inequalities_match_nothing_in_this_revision() {
    let (search, strings, canon) = corpus();
    let songs = search.find_songs(&strings, &canon, "year > 1990").unwrap();
    assert!(songs.is_empty());
}

#[test]
fn fuzzy_number_matches_year_and_text() {
    let (search, strings, canon) = setup(vec![
        Song {
            virtual_path: "a.mp3".to_owned(),
            title: Some("Party like it is 1999".to_owned()),
            ..Default::default()
        },
        Song {
            virtual_path: "b.mp3".to_owned(),
            title: Some("Quiet".to_owned()),
            year: Some(1999),
            ..Default::default()
        },
    ]);
    let songs = sorted(search.find_songs(&strings, &canon, "1999").unwrap());
    assert_eq!(songs, vec!["a.mp3".to_owned(), "b.mp3".to_owned()]);
}

#[test]
fn sanitization_folds_case_and_diacritics() {
    let (search, strings, canon) = setup(vec![Song {
        virtual_path: "halo.mp3".to_owned(),
        artists: vec!["Beyonc\u{e9}".to_owned()],
        ..Default::default()
    }]);
    let songs = search.find_songs(&strings, &canon, "beyonce").unwrap();
    assert_eq!(songs, vec!["halo.mp3".to_owned()]);
    let songs = search
        .find_songs(&strings, &canon, "artist = BEYONC\u{c9}")
        .unwrap();
    assert_eq!(songs, vec!["halo.mp3".to_owned()]);
}

#[test]
fn quoted_literals_match_with_spaces() {
    let (search, strings, canon) = setup(vec![Song {
        virtual_path: "ws.mp3".to_owned(),
        title: Some("whales in space".to_owned()),
        ..Default::default()
    }]);
    let songs = search
        .find_songs(&strings, &canon, "\"whales in\"")
        .unwrap();
    assert_eq!(songs, vec!["ws.mp3".to_owned()]);
    let songs = search
        .find_songs(&strings, &canon, "title = \"whales in space\"")
        .unwrap();
    assert_eq!(songs, vec!["ws.mp3".to_owned()]);
}

#[test]
fn parentheses_group_expressions() {
    let (search, strings, canon) = setup(vec![
        Song {
            virtual_path: "w.mp3".to_owned(),
            ..Default::default()
        },
        Song {
            virtual_path: "s.mp3".to_owned(),
            ..Default::default()
        },
    ]);
    let songs = sorted(
        search
            .find_songs(&strings, &canon, "(w.mp3 || s.mp3) && mp3")
            .unwrap(),
    );
    assert_eq!(songs, vec!["s.mp3".to_owned(), "w.mp3".to_owned()]);
}

#[test]
fn mismatched_reader_reports_song_not_found() {
    let (search, _strings, canon) = corpus();
    let empty = lasso2::Rodeo::new();
    let wrong_reader = empty.into_reader();
    assert_eq!(
        search.find_songs(&wrong_reader, &canon, "artist = Dragonforce"),
        Err(Error::SongNotFound)
    );
}

#[test]
fn path_field_is_searchable() {
    let (search, strings, canon) = corpus();
    let songs = search
        .find_songs(&strings, &canon, "path % seasons")
        .unwrap();
    assert_eq!(songs, vec!["seasons.mp3".to_owned()]);
}

#[test]
fn multiple_artists_are_all_indexed() {
    let (search, strings, canon) = setup(vec![Song {
        virtual_path: "duet.mp3".to_owned(),
        artists: vec!["Alpha Omega".to_owned(), "Gamma Delta".to_owned()],
        ..Default::default()
    }]);
    let songs = search
        .find_songs(&strings, &canon, "artist = \"Gamma Delta\"")
        .unwrap();
    assert_eq!(songs, vec!["duet.mp3".to_owned()]);
    let songs = search.find_songs(&strings, &canon, "artist % omega").unwrap();
    assert_eq!(songs, vec!["duet.mp3".to_owned()]);
}

#[test]
fn case_variant_values_share_an_exact_bucket() {
    let (search, strings, canon) = setup(vec![
        Song {
            virtual_path: "one.mp3".to_owned(),
            artists: vec!["Dragonforce".to_owned()],
            ..Default::default()
        },
        Song {
            virtual_path: "two.mp3".to_owned(),
            artists: vec!["DRAGONFORCE".to_owned()],
            ..Default::default()
        },
    ]);
    let songs = sorted(
        search
            .find_songs(&strings, &canon, "artist = dragonforce")
            .unwrap(),
    );
    assert_eq!(songs, vec!["one.mp3".to_owned(), "two.mp3".to_owned()]);
}

#[test]
fn quoted_numeric_term_matches_number_fields() {
    let (search, strings, canon) = setup(vec![
        Song {
            virtual_path: "y.mp3".to_owned(),
            title: Some("Quiet".to_owned()),
            year: Some(1999),
            ..Default::default()
        },
        Song {
            virtual_path: "t.mp3".to_owned(),
            title: Some("1999 live".to_owned()),
            ..Default::default()
        },
    ]);
    let songs = sorted(search.find_songs(&strings, &canon, "\"1999\"").unwrap());
    assert_eq!(songs, vec!["t.mp3".to_owned(), "y.mp3".to_owned()]);
}
