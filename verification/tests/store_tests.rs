use chaoscore::errors::StoreError;
use chaoscore::store::Store;

#[test]
fn round_trip_returns_exact_payload() {
    let mut st = Store::new();
    let payload = "{\"level\":3,\"hp\":42}".to_string();
    st.write_slot("alpha", payload.clone(), 100).unwrap();
    let read = st.read_slot("alpha").unwrap();
    assert_eq!(read, payload);
}

#[test]
fn round_trip_empty_payload() {
    let mut st = Store::new();
    st.write_slot("empty", String::new(), 5).unwrap();
    assert_eq!(st.read_slot("empty").unwrap(), "");
}

#[test]
fn overwrite_replaces_whole_payload() {
    let mut st = Store::new();
    st.write_slot("slot1", "first".to_string(), 10).unwrap();
    st.write_slot("slot1", "second".to_string(), 20).unwrap();
    assert_eq!(st.read_slot("slot1").unwrap(), "second");
    let list = st.list_slots().unwrap();
    assert_eq!(list.len(), 1);
    assert_eq!(list[0].slot, "slot1");
    assert_eq!(list[0].timestamp, 20);
}

#[test]
fn delete_absent_slot_succeeds_and_changes_nothing() {
    let mut st = Store::new();
    st.write_slot("keep", "data".to_string(), 1).unwrap();
    let before = st.list_slots().unwrap();
    assert!(st.delete_slot("missing").is_ok());
    let after = st.list_slots().unwrap();
    assert_eq!(before, after);
}

#[test]
fn delete_then_read_is_not_found() {
    let mut st = Store::new();
    st.write_slot("gone", "data".to_string(), 1).unwrap();
    st.delete_slot("gone").unwrap();
    assert!(matches!(st.read_slot("gone"), Err(StoreError::NotFound)));
    assert_eq!(st.slot_exists("gone").unwrap(), false);
}

#[test]
fn listing_is_newest_first_and_complete() {
    let mut st = Store::new();
    st.write_slot("a", "pa".to_string(), 1).unwrap();
    st.write_slot("b", "pb".to_string(), 2).unwrap();
    st.write_slot("c", "pc".to_string(), 3).unwrap();
    let list = st.list_slots().unwrap();
    let slots: Vec<&str> = list.iter().map(|i| i.slot.as_str()).collect();
    assert_eq!(slots, vec!["c", "b", "a"]);
    st.delete_slot("b").unwrap();
    let list = st.list_slots().unwrap();
    let slots: Vec<&str> = list.iter().map(|i| i.slot.as_str()).collect();
    assert_eq!(slots, vec!["c", "a"]);
}

#[test]
fn listing_breaks_timestamp_ties_by_identifier() {
    let mut st = Store::new();
    st.write_slot("zeta", "z".to_string(), 7).unwrap();
    st.write_slot("alpha", "a".to_string(), 7).unwrap();
    st.write_slot("mid", "m".to_string(), 9).unwrap();
    let list = st.list_slots().unwrap();
    let slots: Vec<&str> = list.iter().map(|i| i.slot.as_str()).collect();
    assert_eq!(slots, vec!["mid", "alpha", "zeta"]);
}

#[test]
fn empty_store_lists_empty() {
    let st = Store::new();
    let list = st.list_slots().unwrap();
    assert!(list.is_empty());
}

#[test]
fn interrupted_write_leaves_old_content_intact() {
    let mut st = Store::new();
    st.write_slot("save", "old content".to_string(), 10).unwrap();
    // The temporary file is written, then the process dies before the
    // rename: the slot must still read as the old content.
    st.begin_write_slot("save", "new content".to_string(), 20).unwrap();
    st.abort_write_slot();
    assert_eq!(st.read_slot("save").unwrap(), "old content");
    let info = st.slot_info("save").unwrap();
    assert_eq!(info.timestamp, 10);
}

#[test]
fn committed_write_shows_new_content() {
    let mut st = Store::new();
    st.write_slot("save", "old content".to_string(), 10).unwrap();
    st.begin_write_slot("save", "new content".to_string(), 20).unwrap();
    st.commit_write_slot();
    assert_eq!(st.read_slot("save").unwrap(), "new content");
    let info = st.slot_info("save").unwrap();
    assert_eq!(info.timestamp, 20);
}

#[test]
fn interrupted_first_write_leaves_slot_absent() {
    let mut st = Store::new();
    st.begin_write_slot("fresh", "data".to_string(), 1).unwrap();
    st.abort_write_slot();
    assert!(matches!(st.read_slot("fresh"), Err(StoreError::NotFound)));
}

#[test]
fn read_missing_is_not_found_never_empty() {
    let st = Store::new();
    assert!(matches!(st.read_slot("missing"), Err(StoreError::NotFound)));
}

#[test]
fn exists_missing_is_false_not_an_error() {
    let st = Store::new();
    assert_eq!(st.slot_exists("missing").unwrap(), false);
}

#[test]
fn slot_info_reports_identifier_and_timestamp() {
    let mut st = Store::new();
    st.write_slot("hero", "data".to_string(), 777).unwrap();
    let info = st.slot_info("hero").unwrap();
    assert_eq!(info.slot, "hero");
    assert_eq!(info.timestamp, 777);
    assert!(matches!(st.slot_info("other"), Err(StoreError::NotFound)));
}

#[test]
fn settings_are_isolated_from_slots() {
    let mut st = Store::new();
    assert!(matches!(st.read_settings(), Err(StoreError::NotFound)));
    st.write_slot("slotx", "sdata".to_string(), 1).unwrap();
    assert!(matches!(st.read_settings(), Err(StoreError::NotFound)));
    st.write_settings("{\"volume\":5}".to_string()).unwrap();
    assert_eq!(st.read_settings().unwrap(), "{\"volume\":5}");
    assert_eq!(st.read_slot("slotx").unwrap(), "sdata");
    let list = st.list_slots().unwrap();
    assert_eq!(list.len(), 1);
    assert_eq!(list[0].slot, "slotx");
    st.delete_slot("slotx").unwrap();
    assert_eq!(st.read_settings().unwrap(), "{\"volume\":5}");
}

#[test]
fn interrupted_settings_write_leaves_old_settings() {
    let mut st = Store::new();
    st.write_settings("old settings".to_string()).unwrap();
    st.begin_write_settings("new settings".to_string()).unwrap();
    st.abort_write_settings();
    assert_eq!(st.read_settings().unwrap(), "old settings");
}

#[test]
fn committed_settings_write_shows_new_settings() {
    let mut st = Store::new();
    st.write_settings("old settings".to_string()).unwrap();
    st.begin_write_settings("new settings".to_string()).unwrap();
    st.commit_write_settings();
    assert_eq!(st.read_settings().unwrap(), "new settings");
}

#[test]
fn settings_overwrite_in_place() {
    let mut st = Store::new();
    st.write_settings("one".to_string()).unwrap();
    st.write_settings("two".to_string()).unwrap();
    assert_eq!(st.read_settings().unwrap(), "two");
}

#[test]
fn traversal_identifier_is_rejected() {
    let mut st = Store::new();
    let r = st.write_slot("../escape", "payload".to_string(), 1);
    assert!(matches!(r, Err(StoreError::InvalidIdentifier)));
    assert!(st.list_slots().unwrap().is_empty());
}

#[test]
fn bad_identifiers_are_rejected_everywhere() {
    let mut st = Store::new();
    for bad in ["", ".", "..", "a/b", "a\\b", "/abs", "nested/../up"] {
        assert!(matches!(
            st.write_slot(bad, "p".to_string(), 1),
            Err(StoreError::InvalidIdentifier)
        ));
        assert!(matches!(st.read_slot(bad), Err(StoreError::InvalidIdentifier)));
        assert!(matches!(st.slot_exists(bad), Err(StoreError::InvalidIdentifier)));
        assert!(matches!(st.delete_slot(bad), Err(StoreError::InvalidIdentifier)));
        assert!(matches!(st.slot_info(bad), Err(StoreError::InvalidIdentifier)));
    }
}

#[test]
fn dotted_but_contained_identifiers_are_accepted() {
    let mut st = Store::new();
    for ok in ["...", "a.b", ".hidden", "save 1", "uni\u{00e9}"] {
        assert!(st.write_slot(ok, "p".to_string(), 1).is_ok(), "{}", ok);
        assert_eq!(st.read_slot(ok).unwrap(), "p");
    }
}

#[test]
fn error_values_are_distinguishable() {
    assert_ne!(StoreError::NotFound, StoreError::InvalidIdentifier);
    assert_ne!(StoreError::ResolutionError, StoreError::NotFound);
    let io = StoreError::IoError("disk full".to_string());
    assert_eq!(io, StoreError::IoError("disk full".to_string()));
    assert_ne!(io, StoreError::IoError("other".to_string()));
}
