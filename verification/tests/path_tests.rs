use chaoscore::errors::StoreError;
use chaoscore::ident::{
    check_identifier, check_save_extension, get_save_path, get_settings_path, get_temp_path,
    path_join_of, save_dir_path, slot_file_name_of, stem_of_name, temp_file_name_of,
};
use chaoscore::listing::{build_listing, str_lex_lt, DirEntry, SaveInfo};

#[test]
fn identifier_check_accepts_and_rejects() {
    assert!(check_identifier("alpha"));
    assert!(check_identifier("slot_2"));
    assert!(check_identifier("...")); // three dots is a plain name
    assert!(!check_identifier(""));
    assert!(!check_identifier("."));
    assert!(!check_identifier(".."));
    assert!(!check_identifier("../escape"));
    assert!(!check_identifier("a/b"));
    assert!(!check_identifier("a\\b"));
}

#[test]
fn slot_file_name_appends_extension() {
    assert_eq!(slot_file_name_of("hero"), "hero.json");
    assert_eq!(temp_file_name_of("hero"), "hero.json.tmp");
}

#[test]
fn file_name_round_trips_through_stem() {
    let name = slot_file_name_of("my.save");
    assert!(check_save_extension(name.as_str()));
    assert_eq!(stem_of_name(name.as_str()), "my.save");
}

#[test]
fn temp_names_never_look_like_slot_files() {
    let tmp = temp_file_name_of("hero");
    assert!(!check_save_extension(tmp.as_str()));
}

#[test]
fn extension_check_is_exact() {
    assert!(check_save_extension("a.json"));
    assert!(!check_save_extension("json"));
    assert!(!check_save_extension("a.jso"));
    assert!(!check_save_extension("a.txt"));
    assert!(!check_save_extension(""));
}

#[test]
fn paths_are_derived_deterministically() {
    assert_eq!(path_join_of("/data", "saves"), "/data/saves");
    assert_eq!(save_dir_path("/data"), "/data/saves");
    assert_eq!(get_save_path("/data/saves", "hero").unwrap(), "/data/saves/hero.json");
    assert_eq!(get_temp_path("/data/saves", "hero").unwrap(), "/data/saves/hero.json.tmp");
    assert_eq!(get_settings_path("/config"), "/config/settings.json");
}

#[test]
fn save_path_rejects_traversal() {
    assert!(matches!(
        get_save_path("/data/saves", "../escape"),
        Err(StoreError::InvalidIdentifier)
    ));
    assert!(matches!(
        get_temp_path("/data/saves", "a/b"),
        Err(StoreError::InvalidIdentifier)
    ));
}

#[test]
fn lexicographic_compare_matches_expectations() {
    assert!(str_lex_lt("a", "b"));
    assert!(!str_lex_lt("b", "a"));
    assert!(str_lex_lt("a", "ab"));
    assert!(!str_lex_lt("ab", "a"));
    assert!(!str_lex_lt("same", "same"));
    assert!(str_lex_lt("", "x"));
    assert!(!str_lex_lt("x", ""));
}

fn entry(name: &str, timestamp: u64) -> DirEntry {
    DirEntry { name: name.to_string(), timestamp }
}

#[test]
fn build_listing_filters_sorts_and_strips() {
    let entries = vec![
        entry("a.json", 1),
        entry("notes.txt", 50),
        entry("c.json", 3),
        entry("b.json", 2),
        entry("c.json.tmp", 99),
        entry("json", 42),
    ];
    let listing = build_listing(&entries);
    let expected = vec![
        SaveInfo { slot: "c".to_string(), timestamp: 3 },
        SaveInfo { slot: "b".to_string(), timestamp: 2 },
        SaveInfo { slot: "a".to_string(), timestamp: 1 },
    ];
    assert_eq!(listing, expected);
}

#[test]
fn build_listing_breaks_ties_by_name() {
    let entries = vec![
        entry("zeta.json", 5),
        entry("alpha.json", 5),
        entry("newer.json", 6),
    ];
    let listing = build_listing(&entries);
    let slots: Vec<&str> = listing.iter().map(|i| i.slot.as_str()).collect();
    assert_eq!(slots, vec!["newer", "alpha", "zeta"]);
}

#[test]
fn build_listing_of_empty_directory_is_empty() {
    let listing = build_listing(&Vec::new());
    assert!(listing.is_empty());
}
