use songsearch::interner::CanonicalMap;
use songsearch::search::{Builder, Search};
use songsearch::storage::{store_song, Song};

type Reader = lasso2::RodeoReader<lasso2::Spur, std::collections::hash_map::RandomState>;

fn setup_test(songs: Vec<Song>) -> (Search, Reader, CanonicalMap) {
    let mut strings = lasso2::Rodeo::new();
    let mut canon = CanonicalMap::new();

    let mut builder = Builder::default();
    for song in &songs {
        let storage_song = store_song(&mut strings, &mut canon, song).unwrap();
        builder.add_song(song, &storage_song);
    }

    let search = builder.build();
    let strings = strings.into_reader();
    (search, strings, canon)
}

#[test]
fn can_find_fuzzy() {
    let (search, strings, canon) = setup_test(vec![
        Song {
            virtual_path: "seasons.mp3".to_owned(),
            title: Some("Seasons".to_owned()),
            artists: vec!["Dragonforce".to_owned()],
            ..Default::default()
        },
        Song {
            virtual_path: "potd.mp3".to_owned(),
            title: Some("Power of the Dragonflame".to_owned()),
            artists: vec!["Rhapsody".to_owned()],
            ..Default::default()
        },
        Song {
            virtual_path: "calcium.mp3".to_owned(),
            title: Some("Calcium".to_owned()),
            artists: vec!["FSOL".to_owned()],
            ..Default::default()
        },
    ]);

    let songs = search.find_songs(&strings, &canon, "agon").unwrap();

    assert_eq!(songs.len(), 2);
    assert!(songs.contains(&"seasons.mp3".to_owned()));
    assert!(songs.contains(&"potd.mp3".to_owned()));
}

#[test]
fn can_find_field_like() {
    let (search, strings, canon) = setup_test(vec![
        Song {
            virtual_path: "seasons.mp3".to_owned(),
            title: Some("Seasons".to_owned()),
            artists: vec!["Dragonforce".to_owned()],
            ..Default::default()
        },
        Song {
            virtual_path: "potd.mp3".to_owned(),
            title: Some("Power of the Dragonflame".to_owned()),
            artists: vec!["Rhapsody".to_owned()],
            ..Default::default()
        },
    ]);

    let songs = search.find_songs(&strings, &canon, "artist % agon").unwrap();

    assert_eq!(songs.len(), 1);
    assert!(songs.contains(&"seasons.mp3".to_owned()));
}

#[test]
fn text_is_case_insensitive() {
    let (search, strings, canon) = setup_test(vec![Song {
        virtual_path: "seasons.mp3".to_owned(),
        artists: vec!["Dragonforce".to_owned()],
        ..Default::default()
    }]);

    let songs = search.find_songs(&strings, &canon, "dragonforce").unwrap();
    assert_eq!(songs.len(), 1);
    assert!(songs.contains(&"seasons.mp3".to_owned()));

    let songs = search
        .find_songs(&strings, &canon, "artist = dragonforce")
        .unwrap();
    assert_eq!(songs.len(), 1);
    assert!(songs.contains(&"seasons.mp3".to_owned()));
}

#[test]
fn can_find_field_exact() {
    let (search, strings, canon) = setup_test(vec![
        Song {
            virtual_path: "seasons.mp3".to_owned(),
            title: Some("Seasons".to_owned()),
            artists: vec!["Dragonforce".to_owned()],
            ..Default::default()
        },
        Song {
            virtual_path: "potd.mp3".to_owned(),
            title: Some("Power of the Dragonflame".to_owned()),
            artists: vec!["Rhapsody".to_owned()],
            ..Default::default()
        },
    ]);

    let songs = search
        .find_songs(&strings, &canon, "artist = Dragon")
        .unwrap();
    assert!(songs.is_empty());

    let songs = search
        .find_songs(&strings, &canon, "artist = Dragonforce")
        .unwrap();
    assert_eq!(songs.len(), 1);
    assert!(songs.contains(&"seasons.mp3".to_owned()));
}

#[test]
fn can_use_and_operator() {
    let (search, strings, canon) = setup_test(vec![
        Song {
            virtual_path: "whale.mp3".to_owned(),
            ..Default::default()
        },
        Song {
            virtual_path: "space.mp3".to_owned(),
            ..Default::default()
        },
        Song {
            virtual_path: "whales in space.mp3".to_owned(),
            ..Default::default()
        },
    ]);

    let songs = search
        .find_songs(&strings, &canon, "space && whale")
        .unwrap();
    assert_eq!(songs.len(), 1);
    assert!(songs.contains(&"whales in space.mp3".to_owned()));

    let songs = search.find_songs(&strings, &canon, "space whale").unwrap();
    assert_eq!(songs.len(), 1);
    assert!(songs.contains(&"whales in space.mp3".to_owned()));
}

#[test]
fn can_use_or_operator() {
    let (search, strings, canon) = setup_test(vec![
        Song {
            virtual_path: "whale.mp3".to_owned(),
            ..Default::default()
        },
        Song {
            virtual_path: "space.mp3".to_owned(),
            ..Default::default()
        },
        Song {
            virtual_path: "whales in space.mp3".to_owned(),
            ..Default::default()
        },
    ]);

    let songs = search
        .find_songs(&strings, &canon, "space || whale")
        .unwrap();
    assert_eq!(songs.len(), 3);
    assert!(songs.contains(&"whale.mp3".to_owned()));
    assert!(songs.contains(&"space.mp3".to_owned()));
    assert!(songs.contains(&"whales in space.mp3".to_owned()));
}

#[test]
fn avoids_bigram_false_positives() {
    let (search, strings, canon) = setup_test(vec![Song {
        virtual_path: "lorry bovine vehicle.mp3".to_owned(),
        ..Default::default()
    }]);

    let songs = search.find_songs(&strings, &canon, "love").unwrap();
    assert!(songs.is_empty());
}
