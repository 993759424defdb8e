use file_extractor::history::{SelectionHistory, SettingsData, MAX_HISTORY};

fn keys(h: &SelectionHistory) -> Vec<String> {
    h.entries.iter().map(|e| e.source.clone()).collect()
}

#[test]
fn settings_defaults() {
    let s = SettingsData::default();
    assert!(s.dark_mode);
    assert!(s.recent_sources.is_empty());
    assert!(s.last_folder.is_empty());
}

#[test]
fn save_then_lookup_round_trip() {
    let h = SelectionHistory::new();
    let h = h.save("projA", vec!["/a/1.rs".to_string(), "/a/2.rs".to_string()]);
    let files = h.lookup("projA").unwrap();
    assert_eq!(files, &vec!["/a/1.rs".to_string(), "/a/2.rs".to_string()]);
    assert!(h.lookup("projB").is_none());
}

#[test]
fn save_replaces_existing_key() {
    let h = SelectionHistory::new();
    let h = h.save("proj", vec!["/old.rs".to_string()]);
    let h = h.save("proj", vec!["/new.rs".to_string()]);
    assert_eq!(h.entries.len(), 1);
    assert_eq!(h.lookup("proj").unwrap(), &vec!["/new.rs".to_string()]);
}

#[test]
fn keys_are_kept_in_ascending_order() {
    let h = SelectionHistory::new();
    let h = h.save("m", vec![]);
    let h = h.save("a", vec![]);
    let h = h.save("z", vec![]);
    assert_eq!(keys(&h), vec!["a", "m", "z"]);
}

#[test]
fn twenty_first_source_evicts_the_oldest() {
    let mut h = SelectionHistory::new();
    for i in 1..=MAX_HISTORY {
        h = h.save(&format!("s{:02}", i), vec![format!("/f{}.rs", i)]);
    }
    assert_eq!(h.entries.len(), MAX_HISTORY);
    h = h.save("s21", vec!["/f21.rs".to_string()]);
    assert_eq!(h.entries.len(), MAX_HISTORY);
    // Exactly the smallest key is gone; everything else, and the new key,
    // survives.
    assert!(h.lookup("s01").is_none());
    for i in 2..=MAX_HISTORY {
        assert!(h.lookup(&format!("s{:02}", i)).is_some());
    }
    assert_eq!(h.lookup("s21").unwrap(), &vec!["/f21.rs".to_string()]);
}

#[test]
fn smallest_new_key_into_full_history_is_evicted_itself() {
    let mut h = SelectionHistory::new();
    for i in 1..=MAX_HISTORY {
        h = h.save(&format!("s{:02}", i), vec![]);
    }
    h = h.save("a00", vec!["/x.rs".to_string()]);
    assert_eq!(h.entries.len(), MAX_HISTORY);
    // The new key sorts before every stored one, so it is the oldest of the
    // grown history and is evicted at once.
    assert!(h.lookup("a00").is_none());
    assert!(h.lookup("s01").is_some());
}

#[test]
fn eviction_keeps_key_order_intact() {
    let mut h = SelectionHistory::new();
    for i in 1..=MAX_HISTORY {
        h = h.save(&format!("s{:02}", i), vec![]);
    }
    h = h.save("s99", vec![]);
    let expected: Vec<String> =
        (2..=MAX_HISTORY).map(|i| format!("s{:02}", i)).chain(["s99".to_string()]).collect();
    assert_eq!(keys(&h), expected);
}

#[test]
fn saving_within_cap_keeps_all_entries() {
    let mut h = SelectionHistory::new();
    for i in 1..=5 {
        h = h.save(&format!("k{}", i), vec![]);
    }
    assert_eq!(h.entries.len(), 5);
}
