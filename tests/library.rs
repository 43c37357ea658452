use playlist_creator::bmbf_utils::{
    check_cache, collect_custom_levels, get_device_folder, get_playlists,
    is_playlist_contains_song, is_device_name, playlists_to_save, CacheCheck, CustomLevel,
    LevelEntry, Playlist, PlaylistEntry, Song,
};
use playlist_creator::engine::App;
use playlist_creator::ranking::{
    levenshtein_rank, name_lt, rank_by_distances, sort_levels, Sorting,
};

fn level(name: &str, bpm: f32, hash: Option<&str>, modified: Option<u128>) -> CustomLevel {
    CustomLevel {
        version: "2.0.0".to_string(),
        song_name: name.to_string(),
        song_sub_name: String::new(),
        song_author: "author".to_string(),
        level_author: "mapper".to_string(),
        cover_image_filename: "cover.jpg".to_string(),
        beats_per_minute_bits: bpm.to_bits(),
        hash: hash.map(|h| h.to_string()),
        modified,
    }
}

fn song(hash: &str, name: &str) -> Song {
    Song { hash: hash.to_string(), name: name.to_string() }
}

fn playlist(title: &str, songs: Vec<Song>) -> Playlist {
    Playlist {
        title: title.to_string(),
        description: None,
        songs,
        changed: false,
        just_created: false,
        file_name: format!("{}.json", title),
    }
}

fn names(levels: &[CustomLevel]) -> Vec<String> {
    levels.iter().map(|l| l.song_name.clone()).collect()
}

fn hashes(levels: &[CustomLevel]) -> Vec<String> {
    let mut v: Vec<String> = levels.iter().map(|l| l.hash.clone().unwrap_or_default()).collect();
    v.sort();
    v
}

fn library() -> Vec<CustomLevel> {
    vec![
        level("Alpha", 100.0, Some("a1"), Some(30)),
        level("Beta", 120.0, Some("b2"), Some(10)),
        level("Gamma", 90.0, Some("c3"), Some(20)),
        level("Delta", 140.0, Some("d4"), Some(40)),
    ]
}

#[test]
fn scan_keeps_ids_unique() {
    let entries = vec![
        LevelEntry { hash: "x".to_string(), modified: 5, level: Some(level("One", 1.0, None, None)) },
        LevelEntry { hash: "y".to_string(), modified: 6, level: None },
        LevelEntry { hash: "x".to_string(), modified: 7, level: Some(level("Two", 2.0, None, None)) },
        LevelEntry { hash: "z".to_string(), modified: 8, level: Some(level("Three", 3.0, None, None)) },
    ];
    let levels = collect_custom_levels(entries);
    assert_eq!(names(&levels), vec!["One", "Three"]);
    assert_eq!(levels[0].hash.as_deref(), Some("x"));
    assert_eq!(levels[0].modified, Some(5));
    assert_eq!(levels[1].hash.as_deref(), Some("z"));
    assert_eq!(levels[1].modified, Some(8));
}

#[test]
fn scan_of_nothing_is_empty() {
    assert!(collect_custom_levels(Vec::new()).is_empty());
}

#[test]
fn available_excludes_referenced_levels() {
    let app = App::new(library(), vec![playlist("P", vec![song("b2", "Beta"), song("gone", "Old")])]);
    assert_eq!(hashes(&app.available_levels), vec!["a1", "c3", "d4"]);
    // longest since modification first
    assert_eq!(names(&app.available_levels), vec!["Delta", "Alpha", "Gamma"]);
    assert_eq!(app.text_input, "name");
    assert_eq!(app.sort, Sorting::ModifiedDsc);
}

#[test]
fn available_tracks_every_mutation() {
    let mut app = App::new(library(), vec![playlist("P", vec![song("b2", "Beta")])]);
    app.selected_playlist = Some(0);
    app.selected_level = Some(0);
    app.add_selected_song_to_selected_playlist();
    assert_eq!(hashes(&app.available_levels), vec!["a1", "c3"]);
    assert_eq!(app.playlists[0].songs.len(), 2);
    assert_eq!(app.playlists[0].songs[1].hash, "d4");
    assert_eq!(app.playlists[0].songs[1].name, "Delta");
    assert!(app.playlists[0].changed);

    app.selected_song = Some(0);
    app.remove_selected_song_from_selected_playlist();
    assert_eq!(hashes(&app.available_levels), vec!["a1", "b2", "c3"]);
    assert_eq!(app.playlists[0].songs.len(), 1);

    app.text_input = "New".to_string();
    assert!(app.create_new_playlist());
    assert_eq!(hashes(&app.available_levels), vec!["a1", "b2", "c3"]);

    app.selected_playlist = Some(0);
    app.remove_selected_playlist();
    assert_eq!(hashes(&app.available_levels), vec!["a1", "b2", "c3", "d4"]);
    assert_eq!(app.playlists.len(), 1);
    assert_eq!(app.playlists[0].title, "New");
    assert_eq!(app.selected_playlist, None);
}

#[test]
fn add_then_remove_restores_available() {
    let mut app = App::new(library(), vec![playlist("P", Vec::new())]);
    let before = hashes(&app.available_levels);
    app.selected_playlist = Some(0);
    app.selected_level = Some(1);
    app.add_selected_song_to_selected_playlist();
    assert_eq!(app.available_levels.len(), 3);
    app.selected_song = Some(0);
    app.remove_selected_song_from_selected_playlist();
    assert_eq!(hashes(&app.available_levels), before);
    assert!(app.playlists[0].songs.is_empty());
}

#[test]
fn removed_level_is_not_restored() {
    let mut app = App::new(library(), vec![playlist("P", vec![song("gone", "Vanished")])]);
    let before = hashes(&app.available_levels);
    app.selected_playlist = Some(0);
    app.selected_song = Some(0);
    app.remove_selected_song_from_selected_playlist();
    assert_eq!(hashes(&app.available_levels), before);
    assert!(app.playlists[0].songs.is_empty());
    assert!(app.playlists[0].changed);
}

#[test]
fn invalid_selection_changes_nothing() {
    let mut app = App::new(library(), vec![playlist("P", vec![song("b2", "Beta")])]);
    app.selected_playlist = Some(3);
    app.selected_level = Some(0);
    app.add_selected_song_to_selected_playlist();
    app.selected_song = Some(0);
    app.remove_selected_song_from_selected_playlist();
    app.remove_selected_playlist();
    assert_eq!(app.available_levels.len(), 3);
    assert_eq!(app.playlists.len(), 1);
    assert!(!app.playlists[0].changed);
    app.selected_playlist = Some(0);
    app.selected_level = Some(7);
    app.add_selected_song_to_selected_playlist();
    app.selected_song = Some(9);
    app.remove_selected_song_from_selected_playlist();
    assert_eq!(app.playlists[0].songs.len(), 1);
    assert!(!app.playlists[0].changed);
}

#[test]
fn level_without_hash_is_added_as_unknown() {
    let mut app = App::new(vec![level("Loose", 80.0, None, None)], vec![playlist("P", Vec::new())]);
    assert_eq!(app.available_levels.len(), 1);
    app.selected_playlist = Some(0);
    app.selected_level = Some(0);
    app.add_selected_song_to_selected_playlist();
    assert_eq!(app.playlists[0].songs[0].hash, "Unknown");
    assert!(app.available_levels.is_empty());
}

#[test]
fn cache_with_other_count_calls_for_rescan() {
    let cached = vec![level("A", 1.0, Some("a"), Some(1)), level("B", 2.0, Some("b"), Some(2))];
    assert!(matches!(check_cache(Some(cached), Some(3)), CacheCheck::Rescan));
}

#[test]
fn cache_with_same_count_stands() {
    let cached = vec![level("A", 1.0, Some("a"), Some(1)), level("B", 2.0, Some("b"), Some(2))];
    match check_cache(Some(cached), Some(2)) {
        CacheCheck::Use(levels) => {
            assert_eq!(names(&levels), vec!["A", "B"]);
            assert_eq!(levels[1].hash.as_deref(), Some("b"));
        }
        CacheCheck::Rescan => panic!("cache should stand"),
    }
}

#[test]
fn cache_without_count_stands_and_missing_cache_rescans() {
    let cached = vec![level("A", 1.0, Some("a"), Some(1))];
    assert!(matches!(check_cache(Some(cached), None), CacheCheck::Use(ref v) if v.len() == 1));
    assert!(matches!(check_cache(None, Some(4)), CacheCheck::Rescan));
    assert!(matches!(check_cache(None, None), CacheCheck::Rescan));
}

#[test]
fn tempo_sort_is_stable() {
    let levels = vec![level("B", 120.0, Some("b"), None), level("A", 120.0, Some("a"), None)];
    let sorted = sort_levels(&levels, Sorting::BPMAsc);
    assert_eq!(names(&sorted), vec!["B", "A"]);
    let sorted = sort_levels(&levels, Sorting::BPMDsc);
    assert_eq!(names(&sorted), vec!["B", "A"]);
}

#[test]
fn tempo_sort_orders_all_floats() {
    let levels = vec![
        level("nan", f32::NAN, None, None),
        level("pos", 3.5, None, None),
        level("negzero", -0.0, None, None),
        level("neg", -7.25, None, None),
        level("zero", 0.0, None, None),
        level("ninf", f32::NEG_INFINITY, None, None),
    ];
    let sorted = sort_levels(&levels, Sorting::BPMAsc);
    assert_eq!(names(&sorted), vec!["ninf", "neg", "negzero", "zero", "pos", "nan"]);
    let sorted = sort_levels(&levels, Sorting::BPMDsc);
    assert_eq!(names(&sorted), vec!["nan", "pos", "zero", "negzero", "neg", "ninf"]);
}

#[test]
fn name_sort_is_ordinal() {
    let levels = vec![
        level("beta", 1.0, None, None),
        level("Beta", 2.0, None, None),
        level("alpha", 3.0, None, None),
        level("Be", 4.0, None, None),
        level("Émile", 5.0, None, None),
    ];
    let sorted = sort_levels(&levels, Sorting::NameAsc);
    assert_eq!(names(&sorted), vec!["Be", "Beta", "alpha", "beta", "Émile"]);
    let sorted = sort_levels(&levels, Sorting::NameDsc);
    assert_eq!(names(&sorted), vec!["Émile", "beta", "alpha", "Beta", "Be"]);
    assert!(name_lt(&"Z".to_string(), &"a".to_string()));
    assert!(!name_lt(&"abc".to_string(), &"abc".to_string()));
    assert!(name_lt(&"ab".to_string(), &"abc".to_string()));
}

#[test]
fn modified_sort_puts_missing_first_ascending() {
    let levels = vec![
        level("old", 1.0, None, Some(500)),
        level("unknown", 1.0, None, None),
        level("new", 1.0, None, Some(3)),
        level("also_new", 1.0, None, Some(3)),
    ];
    let sorted = sort_levels(&levels, Sorting::ModifiedAsc);
    assert_eq!(names(&sorted), vec!["unknown", "new", "also_new", "old"]);
    let sorted = sort_levels(&levels, Sorting::ModifiedDsc);
    assert_eq!(names(&sorted), vec!["old", "new", "also_new", "unknown"]);
}

#[test]
fn app_sorts_follow_the_chosen_order() {
    let mut app = App::new(library(), Vec::new());
    app.sort_bpm();
    assert_eq!(names(&app.available_levels), vec!["Gamma", "Alpha", "Beta", "Delta"]);
    app.sort_name();
    assert_eq!(names(&app.available_levels), vec!["Alpha", "Beta", "Delta", "Gamma"]);
    app.sort_modified();
    assert_eq!(names(&app.available_levels), vec!["Beta", "Gamma", "Alpha", "Delta"]);
    app.sort = Sorting::NameDsc;
    app.sort();
    assert_eq!(names(&app.available_levels), vec!["Gamma", "Delta", "Beta", "Alpha"]);
}

#[test]
fn fuzzy_rank_puts_closer_names_first() {
    let levels = vec![level("Zebra", 1.0, None, None), level("Energy", 1.0, None, None)];
    let ranked = levenshtein_rank(&levels, "ergy");
    assert_eq!(names(&ranked), vec!["Energy", "Zebra"]);
}

#[test]
fn rank_by_distances_is_stable() {
    let levels = vec![
        level("Zebra", 1.0, None, None),
        level("Energy", 1.0, None, None),
        level("Other", 1.0, None, None),
    ];
    let ranked = rank_by_distances(&levels, vec![5, 2, 5]);
    assert_eq!(names(&ranked), vec!["Energy", "Zebra", "Other"]);
}

#[test]
fn app_fuzzy_sort_and_empty_query() {
    let mut app = App::new(
        vec![level("Zebra", 1.0, Some("z"), Some(1)), level("Energy", 1.0, Some("e"), Some(2))],
        Vec::new(),
    );
    assert_eq!(names(&app.available_levels), vec!["Energy", "Zebra"]);
    app.sort_name();
    assert_eq!(names(&app.available_levels), vec!["Energy", "Zebra"]);
    app.available_levels.reverse();
    app.levenshtein_sort();
    assert_eq!(names(&app.available_levels), vec!["Zebra", "Energy"]);
    app.level_search = "ergy".to_string();
    app.levenshtein_sort();
    assert_eq!(names(&app.available_levels), vec!["Energy", "Zebra"]);
}

#[test]
fn creating_a_title_twice_keeps_one() {
    let mut app = App::new(library(), vec![playlist("Other", Vec::new())]);
    app.text_input = "Favorites".to_string();
    app.create_new_playlist = true;
    assert!(app.create_new_playlist());
    assert!(!app.create_new_playlist);
    app.create_new_playlist = true;
    assert!(!app.create_new_playlist());
    assert!(app.create_new_playlist);
    let count = app.playlists.iter().filter(|p| p.title == "Favorites").count();
    assert_eq!(count, 1);
    let created = &app.playlists[1];
    assert_eq!(created.file_name, "Favorites.json");
    assert!(created.changed && created.just_created);
    assert!(created.songs.is_empty());
    assert!(created.description.is_none());
}

#[test]
fn only_changed_playlists_are_saved() {
    let mut ps = vec![playlist("A", Vec::new()), playlist("B", Vec::new()), playlist("C", Vec::new())];
    ps[0].changed = true;
    ps[2].changed = true;
    assert_eq!(playlists_to_save(&ps), vec![0, 2]);
}

#[test]
fn loaded_playlists_need_no_writes() {
    let mut dirty = playlist("A", vec![song("h", "n")]);
    dirty.changed = true;
    dirty.just_created = true;
    let entries = vec![
        PlaylistEntry { file_name: "a.bplist".to_string(), playlist: Some(dirty) },
        PlaylistEntry { file_name: "broken.json".to_string(), playlist: None },
        PlaylistEntry { file_name: "b.json".to_string(), playlist: Some(playlist("B", Vec::new())) },
    ];
    let ps = get_playlists(entries);
    assert_eq!(ps.len(), 2);
    assert_eq!(ps[0].file_name, "a.bplist");
    assert_eq!(ps[0].title, "A");
    assert_eq!(ps[0].songs.len(), 1);
    assert!(!ps[0].changed && !ps[0].just_created);
    assert_eq!(ps[1].file_name, "b.json");
    assert!(playlists_to_save(&ps).is_empty());
}

#[test]
fn playlist_song_membership() {
    let p = playlist("P", vec![song("a", "A"), song("b", "B")]);
    assert!(is_playlist_contains_song(&p, song("b", "other name")));
    assert!(!is_playlist_contains_song(&p, song("c", "B")));
    assert!(!is_playlist_contains_song(&playlist("E", Vec::new()), song("a", "A")));
}

#[test]
fn device_folder_is_found_in_any_case() {
    let vols = vec!["mtp:host=Phone".to_string(), "mtp:host=Oculus_QUEST_2".to_string(), "quest".to_string()];
    assert_eq!(get_device_folder(&vols).as_deref(), Some("mtp:host=Oculus_QUEST_2"));
    assert_eq!(get_device_folder(&vec!["usb".to_string()]), None);
    assert_eq!(get_device_folder(&Vec::new()), None);
    assert!(is_device_name("my quest"));
    assert!(!is_device_name("my Quest"));
    assert!(!is_device_name("ques"));
}

#[test]
fn sorting_labels() {
    assert_eq!(Sorting::BPMDsc.label(), "BPM \\/");
    assert_eq!(Sorting::BPMAsc.label(), "BPM /\\");
    assert_eq!(Sorting::NameAsc.label(), "Name /\\");
    assert_eq!(Sorting::ModifiedDsc.label(), "Created \\/");
}

#[test]
fn song_held_twice_stays_out_until_last_copy_goes() {
    let mut app = App::new(library(), vec![playlist("P", vec![song("b2", "Beta"), song("b2", "Beta")])]);
    assert_eq!(hashes(&app.available_levels), vec!["a1", "c3", "d4"]);
    app.selected_playlist = Some(0);
    app.selected_song = Some(0);
    app.remove_selected_song_from_selected_playlist();
    assert_eq!(hashes(&app.available_levels), vec!["a1", "c3", "d4"]);
    assert_eq!(app.playlists[0].songs.len(), 1);
    app.remove_selected_song_from_selected_playlist();
    assert_eq!(hashes(&app.available_levels), vec!["a1", "b2", "c3", "d4"]);
    assert!(app.playlists[0].songs.is_empty());
}

#[test]
fn removing_a_playlist_keeps_levels_another_one_references() {
    let mut app = App::new(
        library(),
        vec![
            playlist("First", vec![song("b2", "Beta"), song("c3", "Gamma"), song("c3", "Gamma")]),
            playlist("Second", vec![song("b2", "Beta")]),
        ],
    );
    assert_eq!(hashes(&app.available_levels), vec!["a1", "d4"]);
    app.selected_playlist = Some(0);
    app.remove_selected_playlist();
    // "c3" comes back once; "b2" stays out, the second playlist still holds it
    assert_eq!(hashes(&app.available_levels), vec!["a1", "c3", "d4"]);
    assert_eq!(app.playlists.len(), 1);
    assert_eq!(app.playlists[0].title, "Second");
    app.selected_playlist = Some(0);
    app.remove_selected_playlist();
    assert_eq!(hashes(&app.available_levels), vec!["a1", "b2", "c3", "d4"]);
    assert!(app.playlists.is_empty());
}
