use imagemami::training::{record_decision, TrainingEntry};

#[test]
fn record_decision_appends_to_an_empty_log() {
    let mut entries: Vec<TrainingEntry> = Vec::new();
    record_decision(&mut entries, String::from("hash"), String::from("/p/a.jpg"), Some(true));
    assert_eq!(entries.len(), 1);
    assert_eq!(entries[0].tag, "hash");
    assert_eq!(entries[0].path, "/p/a.jpg");
    assert_eq!(entries[0].delete, Some(true));
}

#[test]
fn record_decision_keeps_what_was_logged() {
    let mut entries = vec![
        TrainingEntry { tag: String::from("hash"), path: String::from("/p/a.jpg"), delete: Some(false) },
        TrainingEntry { tag: String::from("dhash"), path: String::from("/p/b.jpg"), delete: None },
    ];
    record_decision(&mut entries, String::from("dhash"), String::from("/p/c.jpg"), None);
    assert_eq!(entries.len(), 3);
    assert_eq!(entries[0].path, "/p/a.jpg");
    assert_eq!(entries[0].delete, Some(false));
    assert_eq!(entries[1].path, "/p/b.jpg");
    assert_eq!(entries[1].delete, None);
    assert_eq!(entries[2].tag, "dhash");
    assert_eq!(entries[2].path, "/p/c.jpg");
    assert_eq!(entries[2].delete, None);
}
