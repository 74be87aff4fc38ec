use imagemami::blackhole::{group_by_folder, is_loose_entry, scan_blackhole_stream, BlackholeEntry, BlackholeFolder};
use imagemami::catalog::WalkedEntry;
use imagemami::file_formats::allowed_extensions;
use imagemami::records::Timestamp;

fn item(path: &str, is_file: bool, inside_destination: bool) -> BlackholeEntry {
    let (parent, file_name) = match path.rfind('/') {
        Some(0) => (Some(String::from("/")), &path[1..]),
        Some(at) => (Some(String::from(&path[..at])), &path[at + 1..]),
        None => (None, path),
    };
    BlackholeEntry {
        entry: WalkedEntry {
            path: String::from(path),
            file_name: String::from(file_name),
            is_file,
            size: 1,
            modified: Timestamp { secs: 0, nanos: 0 },
        },
        parent,
        inside_destination,
    }
}

fn walk() -> Vec<BlackholeEntry> {
    vec![
        item("/home", false, false),
        item("/home/desk/a.jpg", true, false),
        item("/home/desk/notes.txt", true, false),
        item("/home/lib/2020/x.jpg", true, true),
        item("/home/down/b.png", true, false),
        item("/home/desk/c.JPG", true, false),
        item("/home/down", false, false),
        item("/home/desk/d.gif", true, false),
    ]
}

fn by_path(mut folders: Vec<BlackholeFolder>) -> Vec<(String, Vec<String>)> {
    folders.sort_by(|a, b| a.path.cmp(&b.path));
    folders.into_iter().map(|folder| (folder.path, folder.files)).collect()
}

#[test]
fn loose_pictures_lie_outside_the_destination() {
    let allowed = allowed_extensions();
    assert!(is_loose_entry(&item("/home/desk/a.jpg", true, false), &allowed));
    assert!(!is_loose_entry(&item("/home/lib/a.jpg", true, true), &allowed));
    assert!(!is_loose_entry(&item("/home/desk/a.txt", true, false), &allowed));
    assert!(!is_loose_entry(&item("/home/desk/a.jpg", false, false), &allowed));
    assert!(!is_loose_entry(&item("a.jpg", true, false), &allowed));
}

#[test]
fn loose_pictures_are_grouped_by_folder() {
    let mut groups = group_by_folder(&walk(), &allowed_extensions());
    groups.sort();
    assert_eq!(groups, vec![vec![1, 5, 7], vec![4]]);
}

#[test]
fn folders_list_their_pictures_in_walk_order() {
    let folders = by_path(scan_blackhole_stream(&walk(), &allowed_extensions()));
    assert_eq!(
        folders,
        vec![
            (
                String::from("/home/desk"),
                vec![String::from("/home/desk/a.jpg"), String::from("/home/desk/c.JPG"), String::from("/home/desk/d.gif")]
            ),
            (String::from("/home/down"), vec![String::from("/home/down/b.png")]),
        ]
    );
}

#[test]
fn a_folder_with_one_picture_is_listed() {
    let folders = scan_blackhole_stream(&vec![item("/p/only.png", true, false)], &allowed_extensions());
    assert_eq!(folders.len(), 1);
    assert_eq!(folders[0].path, "/p");
    assert_eq!(folders[0].files, vec!["/p/only.png"]);
}

#[test]
fn nothing_loose_no_folders() {
    assert!(scan_blackhole_stream(&Vec::new(), &allowed_extensions()).is_empty());
    let at_home = vec![item("/lib/a.jpg", true, true), item("/lib/b.jpg", true, true)];
    assert!(scan_blackhole_stream(&at_home, &allowed_extensions()).is_empty());
    assert!(scan_blackhole_stream(&walk(), &Vec::new()).is_empty());
}
