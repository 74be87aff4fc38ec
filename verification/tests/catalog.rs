use imagemami::catalog::{catalogue, find_allowed_files, find_images, is_candidate_entry, scan_images, WalkedEntry};
use imagemami::file_formats::allowed_extensions;
use imagemami::records::Timestamp;

fn entry(path: &str, is_file: bool, size: u64) -> WalkedEntry {
    let file_name = path.rsplit('/').next().unwrap_or("");
    WalkedEntry {
        path: String::from(path),
        file_name: String::from(file_name),
        is_file,
        size,
        modified: Timestamp { secs: 1_700_000_000 + size, nanos: 0 },
    }
}

fn walk() -> Vec<WalkedEntry> {
    vec![
        entry("/root", false, 0),
        entry("/root/a.jpg", true, 10),
        entry("/root/notes.txt", true, 20),
        entry("/root/album.png", false, 0),
        entry("/root/sub", false, 0),
        entry("/root/sub/B.PNG", true, 30),
        entry("/root/sub/.jpg", true, 40),
        entry("/root/sub/raw.Cr2", true, 50),
        entry("/root/sub/noext", true, 60),
    ]
}

#[test]
fn candidates_are_regular_files_with_an_allowed_extension() {
    let allowed = allowed_extensions();
    assert!(is_candidate_entry(&entry("/r/a.jpg", true, 1), &allowed));
    assert!(is_candidate_entry(&entry("/r/a.JPG", true, 1), &allowed));
    assert!(!is_candidate_entry(&entry("/r/a.jpg", false, 1), &allowed));
    assert!(!is_candidate_entry(&entry("/r/d.txt", true, 1), &allowed));
    assert!(!is_candidate_entry(&entry("/r/jpg", true, 1), &allowed));
    assert!(!is_candidate_entry(&entry("/r/.jpg", true, 1), &allowed));
}

#[test]
fn scan_images_keeps_the_order_of_the_walk() {
    let paths = scan_images(&walk(), &allowed_extensions());
    assert_eq!(paths, vec!["/root/a.jpg", "/root/sub/B.PNG", "/root/sub/raw.Cr2"]);
}

#[test]
fn find_allowed_files_makes_the_same_choice() {
    assert_eq!(find_allowed_files(&walk(), &allowed_extensions()), scan_images(&walk(), &allowed_extensions()));
}

#[test]
fn find_images_never_fails() {
    assert_eq!(
        find_images(&walk(), &allowed_extensions()),
        Ok(vec![String::from("/root/a.jpg"), String::from("/root/sub/B.PNG"), String::from("/root/sub/raw.Cr2")])
    );
    assert_eq!(find_images(&Vec::new(), &allowed_extensions()), Ok(Vec::new()));
}

#[test]
fn nothing_is_let_in_by_an_empty_list() {
    assert!(scan_images(&walk(), &Vec::new()).is_empty());
}

#[test]
fn catalogue_has_a_bare_record_for_every_candidate() {
    let records = catalogue(&walk(), &allowed_extensions());
    assert_eq!(records.len(), 3);
    assert_eq!(records[0].path, "/root/a.jpg");
    assert_eq!(records[0].size, 10);
    assert_eq!(records[0].modified, Timestamp { secs: 1_700_000_010, nanos: 0 });
    assert_eq!(records[1].path, "/root/sub/B.PNG");
    assert_eq!(records[1].size, 30);
    assert_eq!(records[2].path, "/root/sub/raw.Cr2");
    assert_eq!(records[2].size, 50);
    for record in &records {
        assert_eq!(record.byte_hash, None);
        assert_eq!(record.perceptual_hash, None);
        assert_eq!(record.preview_base64, None);
    }
}
