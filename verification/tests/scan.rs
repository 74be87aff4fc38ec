use image::{DynamicImage, GrayImage, Luma};
use imagemami::catalog::WalkedEntry;
use imagemami::dhash::{compute_dhash, hamming_distance};
use imagemami::duplicate::{group_settled_duplicates, CompareMethod, DuplicateMatches};
use imagemami::file_formats::allowed_extensions;
use imagemami::hashing::{content_hash, ContentHasher};
use imagemami::picture::to_gray;
use imagemami::records::{FileRecord, Timestamp};
use imagemami::scan::{
    assemble_fingerprints, cancel_scan, emit_progress, find_duplicates, find_settled_duplicates, is_any_pending,
    mark_shared_sizes, methods_from_tags, methods_in_tags, plan_jobs, process_file_once, streamed_fingerprints, wanted_methods,
    CancelToken, Clock, FileJob, Fingerprints, ScanAction, ScanError, ScanEvent, ScanPhase, ScanRun, Wanted,
};
use std::io::Cursor;

const BOTH: Wanted = Wanted { content_hash: true, visual_hash: true };

fn clock(elapsed_ms: u64) -> Clock {
    Clock { now: Timestamp { secs: 1_700_000_100, nanos: 0 }, elapsed_ms }
}

fn scene(width: u32, height: u32) -> DynamicImage {
    DynamicImage::ImageLuma8(GrayImage::from_fn(width, height, |x, y| {
        let fx = x as f32 / width as f32;
        let fy = y as f32 / height as f32;
        let wave = ((fx * 9.0).sin() * (fy * 7.0).cos() * 100.0 + 128.0) as i32;
        Luma([wave.clamp(0, 255) as u8])
    }))
}

fn encoded(picture: &DynamicImage, format: image::ImageFormat) -> Vec<u8> {
    let mut buffer = Cursor::new(Vec::new());
    picture.write_to(&mut buffer, format).unwrap();
    buffer.into_inner()
}

fn entry(path: &str, size: u64) -> WalkedEntry {
    WalkedEntry {
        path: String::from(path),
        file_name: String::from(path.rsplit('/').next().unwrap()),
        is_file: true,
        size,
        modified: Timestamp { secs: 1_700_000_000, nanos: 0 },
    }
}

fn bare(path: &str, size: u64) -> FileRecord {
    FileRecord {
        path: String::from(path),
        size,
        modified: Timestamp { secs: 0, nanos: 0 },
        byte_hash: None,
        perceptual_hash: None,
        preview_base64: None,
    }
}

fn started(methods: Vec<CompareMethod>) -> (ScanRun, CancelToken) {
    let mut run = ScanRun::new(String::from("/root"), methods, allowed_extensions());
    let mut cancel = CancelToken { requested: false };
    let action = run.step(ScanEvent::Start, clock(0), &mut cancel);
    assert!(matches!(action, ScanAction::Walk { ref root } if root == "/root"));
    assert_eq!(run.phase, ScanPhase::Walking);
    (run, cancel)
}

fn jobs_after_walk(run: &mut ScanRun, cancel: &mut CancelToken, files: &[(&str, Vec<u8>)]) -> Vec<FileJob> {
    let entries = files.iter().map(|(path, bytes)| entry(path, bytes.len() as u64)).collect();
    match run.step(ScanEvent::Walked { entries }, clock(1), cancel) {
        ScanAction::Process { jobs } => jobs,
        other => panic!("no jobs: {:?}", other),
    }
}

/// Plays the caller's part: walks, reads every file and hands in the outcomes in order.
/// The token is set after `cancel_after` files, if at all.
fn scan(files: &[(&str, Vec<u8>)], methods: Vec<CompareMethod>, cancel_after: Option<usize>) -> (ScanRun, DuplicateMatches) {
    let (mut run, mut cancel) = started(methods);
    let entries = files.iter().map(|(path, bytes)| entry(path, bytes.len() as u64)).collect();
    let jobs = match run.step(ScanEvent::Walked { entries }, clock(1), &mut cancel) {
        ScanAction::Process { jobs } => jobs,
        ScanAction::Finish { matches } => return (run, matches),
        other => panic!("unexpected: {:?}", other),
    };
    let count = jobs.len();
    for (done, job) in jobs.into_iter().enumerate() {
        if cancel_after == Some(done) {
            cancel_scan(&mut cancel);
        }
        let bytes = &files.iter().find(|(path, _)| *path == job.path).unwrap().1;
        let found = process_file_once(job.wanted, bytes);
        match run.step(ScanEvent::FileDone { index: job.index, found }, clock(10 * (done as u64 + 1)), &mut cancel) {
            ScanAction::Report { progress } => {
                assert_eq!(progress.processed, done + 1);
                assert_eq!(progress.total, count);
                assert_eq!(progress.current, job.path);
            }
            ScanAction::Finish { matches } => {
                assert_eq!(run.phase, ScanPhase::Cancelled);
                assert!(!cancel.requested);
                return (run, matches);
            }
            other => panic!("unexpected: {:?}", other),
        }
    }
    assert_eq!(run.phase, ScanPhase::Clustering);
    match run.step(ScanEvent::Resume, clock(1_000), &mut cancel) {
        ScanAction::Finish { matches } => (run, matches),
        other => panic!("unexpected: {:?}", other),
    }
}

fn groups_of(matches: &DuplicateMatches) -> Vec<Vec<String>> {
    let mut groups: Vec<Vec<String>> = matches
        .groups
        .iter()
        .map(|pair| {
            let mut paths: Vec<String> = pair.files.iter().map(|file| file.path.clone()).collect();
            paths.sort();
            paths
        })
        .collect();
    groups.sort();
    groups
}

fn four_files() -> Vec<(&'static str, Vec<u8>)> {
    let full_size = scene(256, 192);
    let a = encoded(&full_size, image::ImageFormat::Jpeg);
    let c = encoded(&full_size.resize_exact(128, 96, image::imageops::FilterType::Triangle), image::ImageFormat::Jpeg);
    vec![("/root/a.jpg", a.clone()), ("/root/b.jpg", a), ("/root/c.jpg", c), ("/root/d.txt", b"notes".to_vec())]
}

#[test]
fn tags_name_the_methods_in_order() {
    let tags = vec![String::from("dhash"), String::from("other"), String::from("hash"), String::from("hash")];
    assert_eq!(
        methods_from_tags(&tags, 5),
        vec![CompareMethod::PerceptualDHash { threshold: 5 }, CompareMethod::ByteHash, CompareMethod::ByteHash]
    );
    assert!(methods_from_tags(&Vec::new(), 5).is_empty());
    assert!(methods_from_tags(&vec![String::from("Hash"), String::from("")], 5).is_empty());
}

#[test]
fn wanted_methods_tells_what_is_asked_for() {
    assert_eq!(wanted_methods(&Vec::new()), (false, false));
    assert_eq!(wanted_methods(&vec![CompareMethod::ByteHash]), (true, false));
    assert_eq!(wanted_methods(&vec![CompareMethod::PerceptualDHash { threshold: 0 }]), (false, true));
    assert_eq!(
        wanted_methods(&vec![CompareMethod::PerceptualDHash { threshold: 9 }, CompareMethod::ByteHash]),
        (true, true)
    );
}

#[test]
fn progress_estimates_the_time_left() {
    let quarter = emit_progress(1, 4, 1_000, String::from("a"));
    assert_eq!(quarter.eta_ms, Some(3_000));
    let most = emit_progress(3, 4, 1_000, String::from("c"));
    assert_eq!(most.eta_ms, Some(333));
    let done = emit_progress(4, 4, 1_000, String::from("d"));
    assert_eq!(done.eta_ms, Some(0));
    assert_eq!(done.processed, 4);
    assert_eq!(done.total, 4);
    assert_eq!(done.elapsed_ms, 1_000);
    assert_eq!(done.current, "d");
}

#[test]
fn progress_never_divides_by_zero() {
    assert_eq!(emit_progress(0, 4, 1_000, String::new()).eta_ms, None);
    assert_eq!(emit_progress(0, 0, 0, String::new()).eta_ms, None);
}

#[test]
fn progress_does_not_overflow() {
    let progress = emit_progress(1, usize::MAX, u64::MAX, String::new());
    assert_eq!(progress.eta_ms, Some(u64::MAX as u128 * (usize::MAX as u128 - 1)));
}

#[test]
fn cancel_scan_sets_the_token() {
    let mut token = CancelToken { requested: false };
    cancel_scan(&mut token);
    assert!(token.requested);
    cancel_scan(&mut token);
    assert!(token.requested);
}

#[test]
fn shared_sizes_are_marked() {
    let records = vec![bare("a", 5), bare("b", 6), bare("c", 5), bare("d", 7), bare("e", 5), bare("f", 6)];
    assert_eq!(mark_shared_sizes(&records), vec![true, true, true, false, true, true]);
    assert!(mark_shared_sizes(&Vec::new()).is_empty());
    assert_eq!(mark_shared_sizes(&vec![bare("a", 5)]), vec![false]);
}

#[test]
fn content_hashes_are_wanted_only_where_sizes_are_shared() {
    let records = vec![bare("a", 5), bare("b", 6), bare("c", 5), bare("d", 7)];
    let (jobs, pending) = plan_jobs(&records, &vec![CompareMethod::ByteHash]);
    assert_eq!(pending, vec![true, false, true, false]);
    assert_eq!(jobs.len(), 2);
    assert_eq!((jobs[0].index, jobs[0].path.as_str()), (0, "a"));
    assert_eq!((jobs[1].index, jobs[1].path.as_str()), (2, "c"));
    assert_eq!(jobs[0].wanted, Wanted { content_hash: true, visual_hash: false });
    assert_eq!(jobs[1].wanted, Wanted { content_hash: true, visual_hash: false });
}

#[test]
fn difference_hashes_are_wanted_whatever_the_size() {
    let records = vec![bare("a", 5), bare("b", 6), bare("c", 5)];
    let (jobs, pending) = plan_jobs(&records, &vec![CompareMethod::PerceptualDHash { threshold: 5 }, CompareMethod::ByteHash]);
    assert_eq!(pending, vec![true, true, true]);
    assert_eq!(jobs.len(), 3);
    assert_eq!(jobs[0].wanted, BOTH);
    assert_eq!(jobs[1].wanted, Wanted { content_hash: false, visual_hash: true });
    assert_eq!(jobs[2].wanted, BOTH);
}

#[test]
fn without_methods_there_is_no_work() {
    let records = vec![bare("a", 5), bare("b", 5)];
    let (jobs, pending) = plan_jobs(&records, &Vec::new());
    assert!(jobs.is_empty());
    assert_eq!(pending, vec![false, false]);
}

#[test]
fn a_picture_gets_all_that_is_wanted() {
    let picture = scene(64, 48);
    let bytes = encoded(&picture, image::ImageFormat::Png);
    let found = process_file_once(BOTH, &bytes);
    assert_eq!(found.byte_hash, Some(content_hash(&bytes)));
    assert_eq!(found.perceptual_hash, Some(compute_dhash(&to_gray(&picture))));
    assert!(found.preview_base64.unwrap().starts_with("data:image/webp;base64,"));
}

#[test]
fn only_what_is_wanted_is_computed() {
    let bytes = encoded(&scene(64, 48), image::ImageFormat::Png);
    let hash_only = process_file_once(Wanted { content_hash: true, visual_hash: false }, &bytes);
    assert_eq!(hash_only.byte_hash, Some(content_hash(&bytes)));
    assert_eq!(hash_only.perceptual_hash, None);
    let look_only = process_file_once(Wanted { content_hash: false, visual_hash: true }, &bytes);
    assert_eq!(look_only.byte_hash, None);
    assert!(look_only.perceptual_hash.is_some());
}

#[test]
fn a_file_that_is_no_picture_has_no_fingerprint() {
    let found = process_file_once(BOTH, b"this is no picture");
    assert_eq!(found.byte_hash, Some(content_hash(b"this is no picture")));
    assert_eq!(found.perceptual_hash, None);
    assert_eq!(found.preview_base64, None);
    let empty = process_file_once(BOTH, b"");
    assert_eq!(empty.byte_hash, Some(content_hash(b"")));
    assert_eq!(empty.perceptual_hash, None);
}

#[test]
fn a_corrupt_picture_has_no_fingerprint() {
    let mut bytes = encoded(&scene(64, 48), image::ImageFormat::Png);
    bytes.truncate(40);
    let found = process_file_once(BOTH, &bytes);
    assert_eq!(found.perceptual_hash, None);
    assert_eq!(found.preview_base64, None);
    assert_eq!(found.byte_hash, Some(content_hash(&bytes)));
}

#[test]
fn fingerprints_are_assembled_from_what_decoding_gave() {
    let gray = to_gray(&scene(32, 32));
    let expected = compute_dhash(&gray);
    let found = assemble_fingerprints(BOTH, b"xyz", Some(gray), Some(String::from("preview")));
    assert_eq!(found.byte_hash, Some(content_hash(b"xyz")));
    assert_eq!(found.perceptual_hash, Some(expected));
    assert_eq!(found.preview_base64, Some(String::from("preview")));
    let none = assemble_fingerprints(Wanted { content_hash: false, visual_hash: false }, b"xyz", None, None);
    assert_eq!(none.byte_hash, None);
    assert_eq!(none.perceptual_hash, None);
    assert_eq!(none.preview_base64, None);
}

#[test]
fn a_losslessly_reencoded_picture_keeps_its_fingerprint() {
    let picture = scene(120, 90);
    let png = process_file_once(BOTH, &encoded(&picture, image::ImageFormat::Png));
    let bmp = process_file_once(BOTH, &encoded(&picture, image::ImageFormat::Bmp));
    let tiff = process_file_once(BOTH, &encoded(&picture, image::ImageFormat::Tiff));
    assert_ne!(png.byte_hash, bmp.byte_hash);
    assert_eq!(hamming_distance(png.perceptual_hash.unwrap(), bmp.perceptual_hash.unwrap()), 0);
    assert_eq!(hamming_distance(png.perceptual_hash.unwrap(), tiff.perceptual_hash.unwrap()), 0);
}

#[test]
fn find_duplicates_goes_through_the_methods_in_order() {
    let mut records = vec![bare("a", 5), bare("b", 5), bare("c", 6)];
    records[0].byte_hash = Some(String::from("h"));
    records[1].byte_hash = Some(String::from("h"));
    records[0].perceptual_hash = Some(1);
    records[2].perceptual_hash = Some(3);
    let now = Timestamp { secs: 10, nanos: 0 };
    let methods = vec![CompareMethod::PerceptualDHash { threshold: 1 }, CompareMethod::ByteHash];
    let matches = find_duplicates(&records, &methods, now);
    assert_eq!(matches.groups.len(), 2);
    assert_eq!(matches.groups[0].method, CompareMethod::PerceptualDHash { threshold: 1 });
    assert_eq!(matches.groups[1].method, CompareMethod::ByteHash);
    assert_eq!(groups_of(&matches), vec![vec![String::from("a"), String::from("b")], vec![String::from("a"), String::from("c")]]);
    assert!(find_duplicates(&records, &Vec::new(), now).groups.is_empty());
    assert!(find_duplicates(&Vec::new(), &methods, now).groups.is_empty());
}

#[test]
fn content_scan_of_four_files_finds_the_identical_pair() {
    let (run, matches) = scan(&four_files(), vec![CompareMethod::ByteHash], None);
    assert_eq!(run.phase, ScanPhase::Done);
    assert_eq!(groups_of(&matches), vec![vec![String::from("/root/a.jpg"), String::from("/root/b.jpg")]]);
    assert_eq!(matches.groups[0].method, CompareMethod::ByteHash);
    assert_eq!(run.records.len(), 3);
    assert_eq!(run.total, 2);
    assert_eq!(run.processed, 2);
    assert_eq!(run.records[2].byte_hash, None);
}

#[test]
fn visual_scan_of_four_files_finds_the_three_pictures() {
    let (run, matches) = scan(&four_files(), vec![CompareMethod::PerceptualDHash { threshold: 5 }], None);
    assert_eq!(run.phase, ScanPhase::Done);
    assert_eq!(
        groups_of(&matches),
        vec![vec![String::from("/root/a.jpg"), String::from("/root/b.jpg"), String::from("/root/c.jpg")]]
    );
    assert_eq!(run.total, 3);
}

#[test]
fn a_file_with_another_extension_never_appears() {
    let methods = vec![CompareMethod::ByteHash, CompareMethod::PerceptualDHash { threshold: 5 }];
    let (run, matches) = scan(&four_files(), methods, None);
    assert_eq!(matches.groups.len(), 2);
    for pair in &matches.groups {
        assert!(pair.files.iter().all(|file| file.path != "/root/d.txt"));
    }
    assert!(run.records.iter().all(|record| record.path != "/root/d.txt"));
}

#[test]
fn scanning_twice_gives_the_same_groups() {
    let methods = vec![CompareMethod::ByteHash, CompareMethod::PerceptualDHash { threshold: 5 }];
    let (_, once) = scan(&four_files(), methods.clone(), None);
    let (_, again) = scan(&four_files(), methods, None);
    assert_eq!(groups_of(&once), groups_of(&again));
}

#[test]
fn an_empty_root_gives_no_groups_and_no_error() {
    let (mut run, mut cancel) = started(vec![CompareMethod::ByteHash, CompareMethod::PerceptualDHash { threshold: 5 }]);
    let action = run.step(ScanEvent::Walked { entries: Vec::new() }, clock(1), &mut cancel);
    match action {
        ScanAction::Finish { matches } => assert!(matches.groups.is_empty()),
        other => panic!("unexpected: {:?}", other),
    }
    assert_eq!(run.phase, ScanPhase::Done);
    assert_eq!(run.total, 0);
    assert_eq!(run.processed, 0);
    assert!(run.failures.is_empty());
}

#[test]
fn an_unreadable_root_fails_the_scan() {
    let (mut run, mut cancel) = started(vec![CompareMethod::ByteHash]);
    let action = run.step(ScanEvent::WalkFailed { message: String::from("no such directory") }, clock(1), &mut cancel);
    match action {
        ScanAction::Fail { error: ScanError::RootUnreadable { message } } => assert_eq!(message, "no such directory"),
        other => panic!("unexpected: {:?}", other),
    }
    assert_eq!(run.phase, ScanPhase::Done);
}

#[test]
fn a_file_that_cannot_be_read_is_noted_and_left_out() {
    let files = vec![("/root/a.png", vec![1u8; 10]), ("/root/b.png", vec![1u8; 10]), ("/root/c.png", vec![1u8; 10])];
    let (mut run, mut cancel) = started(vec![CompareMethod::ByteHash]);
    let jobs = jobs_after_walk(&mut run, &mut cancel, &files);
    assert_eq!(jobs.len(), 3);
    let found = process_file_once(jobs[0].wanted, &files[0].1);
    assert!(matches!(run.step(ScanEvent::FileDone { index: 0, found }, clock(5), &mut cancel), ScanAction::Report { .. }));
    let failed = run.step(ScanEvent::FileFailed { index: 1, message: String::from("denied") }, clock(6), &mut cancel);
    match failed {
        ScanAction::Report { progress } => {
            assert_eq!(progress.processed, 2);
            assert_eq!(progress.total, 3);
            assert_eq!(progress.current, "/root/b.png");
            assert_eq!(progress.eta_ms, Some(3));
        }
        other => panic!("unexpected: {:?}", other),
    }
    assert_eq!(run.failures.len(), 1);
    assert_eq!(run.failures[0].path, "/root/b.png");
    assert_eq!(run.failures[0].message, "denied");
    let found = process_file_once(jobs[2].wanted, &files[2].1);
    assert!(matches!(run.step(ScanEvent::FileDone { index: 2, found }, clock(7), &mut cancel), ScanAction::Report { .. }));
    assert_eq!(run.phase, ScanPhase::Clustering);
    match run.step(ScanEvent::Resume, clock(8), &mut cancel) {
        ScanAction::Finish { matches } => {
            assert_eq!(groups_of(&matches), vec![vec![String::from("/root/a.png"), String::from("/root/c.png")]]);
        }
        other => panic!("unexpected: {:?}", other),
    }
    assert_eq!(run.phase, ScanPhase::Done);
}

fn six_files() -> Vec<(&'static str, Vec<u8>)> {
    vec![
        ("/root/a.png", vec![1u8; 10]),
        ("/root/b.png", vec![1u8; 10]),
        ("/root/c.png", vec![2u8; 20]),
        ("/root/d.png", vec![2u8; 20]),
        ("/root/e.png", vec![1u8; 10]),
        ("/root/f.png", vec![3u8; 30]),
        ("/root/g.png", vec![3u8; 30]),
    ]
}

fn pair(a: &str, b: &str) -> Vec<String> {
    vec![String::from(a), String::from(b)]
}

#[test]
fn cancelling_ends_the_scan_with_the_groups_that_are_known_for_good() {
    let files = six_files();
    let (_, full) = scan(&files, vec![CompareMethod::ByteHash], None);
    assert_eq!(
        groups_of(&full),
        vec![
            vec![String::from("/root/a.png"), String::from("/root/b.png"), String::from("/root/e.png")],
            pair("/root/c.png", "/root/d.png"),
            pair("/root/f.png", "/root/g.png"),
        ]
    );
    // After a, b and c: e of the size of a and b, and d of the size of c, are awaited.
    let (run, early) = scan(&files, vec![CompareMethod::ByteHash], Some(2));
    assert_eq!(run.phase, ScanPhase::Cancelled);
    assert_eq!(run.processed, 3);
    assert!(early.groups.is_empty());
    // After a, b, c and d: the size of c and d is settled, that of a and b is not.
    let (_, later) = scan(&files, vec![CompareMethod::ByteHash], Some(3));
    assert_eq!(groups_of(&later), vec![pair("/root/c.png", "/root/d.png")]);
    // After all but g: only the size of f and g is open.
    let (_, late) = scan(&files, vec![CompareMethod::ByteHash], Some(5));
    assert_eq!(
        groups_of(&late),
        vec![
            vec![String::from("/root/a.png"), String::from("/root/b.png"), String::from("/root/e.png")],
            pair("/root/c.png", "/root/d.png"),
        ]
    );
}

#[test]
fn a_cancelled_scan_reports_no_group_that_the_full_scan_lacks() {
    let files = six_files();
    for methods in [
        vec![CompareMethod::ByteHash],
        vec![CompareMethod::PerceptualDHash { threshold: 5 }],
        vec![CompareMethod::PerceptualDHash { threshold: 0 }, CompareMethod::ByteHash],
    ] {
        let (_, full) = scan(&files, methods.clone(), None);
        for limit in 0..files.len() {
            let (run, part) = scan(&files, methods.clone(), Some(limit));
            assert_eq!(run.phase, ScanPhase::Cancelled);
            for group in &part.groups {
                let paths: Vec<&String> = group.files.iter().map(|file| &file.path).collect();
                assert!(full.groups.iter().any(|whole| {
                    whole.method == group.method && whole.files.iter().map(|file| &file.path).collect::<Vec<_>>() == paths
                }));
            }
        }
    }
}

#[test]
fn three_of_one_size_cancelled_after_the_second_form_no_group_yet() {
    let files = vec![("/root/a.png", vec![7u8; 9]), ("/root/b.png", vec![7u8; 9]), ("/root/c.png", vec![7u8; 9])];
    let (run, early) = scan(&files, vec![CompareMethod::ByteHash], Some(1));
    assert_eq!(run.processed, 2);
    assert!(early.groups.is_empty());
    let (_, full) = scan(&files, vec![CompareMethod::ByteHash], None);
    assert_eq!(full.groups.len(), 1);
    assert_eq!(full.groups[0].files.len(), 3);
}

#[test]
fn clusters_are_reported_only_once_every_picture_is_in() {
    let files = four_files();
    let methods = vec![CompareMethod::PerceptualDHash { threshold: 5 }];
    let (run, early) = scan(&files, methods.clone(), Some(1));
    assert_eq!(run.phase, ScanPhase::Cancelled);
    assert_eq!(run.processed, 2);
    assert!(early.groups.is_empty());
    // Cancelled with the last picture: nothing is awaited, so the clusters stand.
    let (run, last) = scan(&files, methods.clone(), Some(2));
    assert_eq!(run.phase, ScanPhase::Cancelled);
    assert_eq!(run.processed, 3);
    let (_, full) = scan(&files, methods, None);
    assert_eq!(groups_of(&last), groups_of(&full));
    assert_eq!(last.groups.len(), 1);
}

#[test]
fn a_request_that_comes_after_the_last_file_is_dropped_when_the_scan_ends() {
    let files = vec![("/root/a.png", vec![1u8; 10]), ("/root/b.png", vec![1u8; 10])];
    let (mut run, mut cancel) = started(vec![CompareMethod::ByteHash]);
    let jobs = jobs_after_walk(&mut run, &mut cancel, &files);
    for job in jobs {
        let found = process_file_once(job.wanted, &files[job.index].1);
        run.step(ScanEvent::FileDone { index: job.index, found }, clock(1), &mut cancel);
    }
    assert_eq!(run.phase, ScanPhase::Clustering);
    cancel_scan(&mut cancel);
    match run.step(ScanEvent::Resume, clock(2), &mut cancel) {
        ScanAction::Finish { matches } => assert_eq!(matches.groups.len(), 1),
        other => panic!("unexpected: {:?}", other),
    }
    assert_eq!(run.phase, ScanPhase::Done);
    assert!(!cancel.requested);
}

#[test]
fn no_scan_ends_with_the_token_set() {
    let files = six_files();
    for limit in 0..files.len() {
        let (mut run, mut cancel) = started(vec![CompareMethod::ByteHash]);
        let jobs = jobs_after_walk(&mut run, &mut cancel, &files);
        let mut finished = false;
        for (done, job) in jobs.into_iter().enumerate() {
            if done == limit {
                cancel_scan(&mut cancel);
            }
            let found = process_file_once(job.wanted, &files[job.index].1);
            if let ScanAction::Finish { .. } = run.step(ScanEvent::FileDone { index: job.index, found }, clock(1), &mut cancel) {
                finished = true;
                break;
            }
        }
        assert!(finished);
        assert!(!cancel.requested);
    }
}

#[test]
fn settled_duplicates_leave_out_the_sizes_that_await_a_job() {
    let mut records = vec![bare("a", 5), bare("b", 5), bare("c", 6), bare("d", 6), bare("e", 5)];
    for record in records.iter_mut().take(4) {
        record.byte_hash = Some(format!("h{}", record.size));
    }
    let now = Timestamp { secs: 10, nanos: 0 };
    let methods = vec![CompareMethod::ByteHash];
    let early = find_settled_duplicates(&records, &vec![false, false, false, false, true], &methods, now);
    assert_eq!(groups_of(&early), vec![vec![String::from("c"), String::from("d")]]);
    let mut sorted = group_settled_duplicates(&records, &vec![false, false, false, false, true]);
    sorted.sort();
    assert_eq!(sorted, vec![vec![2, 3]]);
    let settled = find_settled_duplicates(&records, &vec![false; 5], &methods, now);
    assert_eq!(groups_of(&settled), groups_of(&find_duplicates(&records, &methods, now)));
    assert_eq!(settled.groups.len(), 2);
    let none = find_settled_duplicates(&records, &vec![true, false, true, false, false], &methods, now);
    assert!(none.groups.is_empty());
}

#[test]
fn settled_clusters_wait_for_every_job() {
    let mut records = vec![bare("a", 5), bare("b", 6), bare("c", 7)];
    records[0].perceptual_hash = Some(1);
    records[1].perceptual_hash = Some(1);
    let now = Timestamp { secs: 10, nanos: 0 };
    let methods = vec![CompareMethod::PerceptualDHash { threshold: 0 }];
    assert!(find_settled_duplicates(&records, &vec![false, false, true], &methods, now).groups.is_empty());
    let all_in = find_settled_duplicates(&records, &vec![false, false, false], &methods, now);
    assert_eq!(groups_of(&all_in), vec![vec![String::from("a"), String::from("b")]]);
}

#[test]
fn pending_jobs_are_found() {
    assert!(!is_any_pending(&Vec::new()));
    assert!(!is_any_pending(&vec![false, false]));
    assert!(is_any_pending(&vec![false, true]));
    assert!(is_any_pending(&vec![true, false, false]));
}

#[test]
fn tags_are_read_as_a_set() {
    let tag = |t: &str| String::from(t);
    let both = vec![CompareMethod::ByteHash, CompareMethod::PerceptualDHash { threshold: 3 }];
    assert_eq!(methods_in_tags(&vec![tag("dhash"), tag("hash")], 3), both);
    assert_eq!(methods_in_tags(&vec![tag("hash"), tag("hash"), tag("dhash"), tag("x"), tag("dhash")], 3), both);
    assert_eq!(methods_in_tags(&vec![tag("hash"), tag("hash")], 3), vec![CompareMethod::ByteHash]);
    assert_eq!(methods_in_tags(&vec![tag("dhash")], 0), vec![CompareMethod::PerceptualDHash { threshold: 0 }]);
    assert!(methods_in_tags(&vec![tag("Hash"), tag("other")], 3).is_empty());
    assert!(methods_in_tags(&Vec::new(), 3).is_empty());
}

#[test]
fn the_content_hash_of_a_file_has_sixty_four_digits() {
    let found = process_file_once(Wanted { content_hash: true, visual_hash: false }, b"some bytes");
    assert_eq!(found.byte_hash.unwrap().len(), 64);
    let assembled = assemble_fingerprints(BOTH, b"", None, None);
    assert_eq!(assembled.byte_hash.unwrap().len(), 64);
}

#[test]
fn cancelling_during_the_walk_ends_the_scan_with_nothing() {
    let (mut run, mut cancel) = started(vec![CompareMethod::ByteHash]);
    cancel_scan(&mut cancel);
    let entries = vec![entry("/root/a.png", 1), entry("/root/b.png", 1)];
    match run.step(ScanEvent::Walked { entries }, clock(1), &mut cancel) {
        ScanAction::Finish { matches } => assert!(matches.groups.is_empty()),
        other => panic!("unexpected: {:?}", other),
    }
    assert_eq!(run.phase, ScanPhase::Cancelled);
    assert!(!cancel.requested);
}

#[test]
fn starting_drops_a_request_left_over() {
    let mut run = ScanRun::new(String::from("/root"), vec![CompareMethod::ByteHash], allowed_extensions());
    let mut cancel = CancelToken { requested: true };
    assert!(matches!(run.step(ScanEvent::Start, clock(0), &mut cancel), ScanAction::Walk { .. }));
    assert!(!cancel.requested);
}

#[test]
fn events_that_do_not_fit_are_ignored() {
    let mut run = ScanRun::new(String::from("/root"), vec![CompareMethod::ByteHash], allowed_extensions());
    let mut cancel = CancelToken { requested: false };
    assert!(matches!(run.step(ScanEvent::Resume, clock(0), &mut cancel), ScanAction::Ignore));
    assert!(matches!(run.step(ScanEvent::Walked { entries: Vec::new() }, clock(0), &mut cancel), ScanAction::Ignore));
    assert_eq!(run.phase, ScanPhase::Idle);
    run.step(ScanEvent::Start, clock(0), &mut cancel);
    assert!(matches!(run.step(ScanEvent::Start, clock(0), &mut cancel), ScanAction::Ignore));
    let none = Fingerprints { byte_hash: None, perceptual_hash: None, preview_base64: None };
    assert!(matches!(run.step(ScanEvent::FileDone { index: 0, found: none }, clock(0), &mut cancel), ScanAction::Ignore));
    assert_eq!(run.phase, ScanPhase::Walking);
}

#[test]
fn an_outcome_is_taken_once_and_only_for_a_job() {
    let files = vec![("/root/a.png", vec![1u8; 10]), ("/root/b.png", vec![1u8; 10]), ("/root/c.png", vec![3u8; 30])];
    let (mut run, mut cancel) = started(vec![CompareMethod::ByteHash]);
    let jobs = jobs_after_walk(&mut run, &mut cancel, &files);
    assert_eq!(jobs.iter().map(|job| job.index).collect::<Vec<_>>(), vec![0, 1]);
    let found = process_file_once(jobs[0].wanted, &files[0].1);
    assert!(matches!(run.step(ScanEvent::FileDone { index: 0, found }, clock(1), &mut cancel), ScanAction::Report { .. }));
    let again = process_file_once(jobs[0].wanted, &files[0].1);
    assert!(matches!(run.step(ScanEvent::FileDone { index: 0, found: again }, clock(2), &mut cancel), ScanAction::Ignore));
    let stray = process_file_once(BOTH, &files[2].1);
    assert!(matches!(run.step(ScanEvent::FileDone { index: 2, found: stray }, clock(3), &mut cancel), ScanAction::Ignore));
    let beyond = process_file_once(BOTH, &files[2].1);
    assert!(matches!(run.step(ScanEvent::FileDone { index: 9, found: beyond }, clock(4), &mut cancel), ScanAction::Ignore));
    assert!(matches!(
        run.step(ScanEvent::FileFailed { index: 9, message: String::new() }, clock(5), &mut cancel),
        ScanAction::Ignore
    ));
    assert_eq!(run.processed, 1);
    assert_eq!(run.phase, ScanPhase::Hashing);
    assert_eq!(run.pending, vec![false, true, false]);
}

#[test]
fn outcomes_may_come_in_any_order() {
    let files = vec![("/root/a.png", vec![1u8; 10]), ("/root/b.png", vec![1u8; 10]), ("/root/c.png", vec![1u8; 10])];
    let (mut run, mut cancel) = started(vec![CompareMethod::ByteHash]);
    let jobs = jobs_after_walk(&mut run, &mut cancel, &files);
    for index in [2usize, 0, 1] {
        let found = process_file_once(jobs[index].wanted, &files[index].1);
        assert!(matches!(
            run.step(ScanEvent::FileDone { index, found }, clock(1), &mut cancel),
            ScanAction::Report { .. }
        ));
    }
    match run.step(ScanEvent::Resume, clock(2), &mut cancel) {
        ScanAction::Finish { matches } => {
            assert_eq!(matches.groups.len(), 1);
            let paths: Vec<&str> = matches.groups[0].files.iter().map(|file| file.path.as_str()).collect();
            assert_eq!(paths, vec!["/root/a.png", "/root/b.png", "/root/c.png"]);
            assert_eq!(matches.groups[0].files[0].age, 100);
        }
        other => panic!("unexpected: {:?}", other),
    }
}

#[test]
fn size_buckets_lose_no_duplicate() {
    // Hashing every file gives the groups that hashing the survivors of the buckets gives.
    let contents: Vec<Vec<u8>> = vec![vec![1; 10], vec![2; 10], vec![1; 10], vec![3; 7], vec![2; 10], vec![9; 5]];
    let mut hashed_all: Vec<FileRecord> = Vec::new();
    for (i, bytes) in contents.iter().enumerate() {
        let mut record = bare(&format!("/root/{}.png", i), bytes.len() as u64);
        record.byte_hash = Some(content_hash(bytes));
        hashed_all.push(record);
    }
    let everything = find_duplicates(&hashed_all, &vec![CompareMethod::ByteHash], Timestamp { secs: 0, nanos: 0 });
    let files: Vec<(String, Vec<u8>)> =
        contents.iter().enumerate().map(|(i, bytes)| (format!("/root/{}.png", i), bytes.clone())).collect();
    let borrowed: Vec<(&str, Vec<u8>)> = files.iter().map(|(path, bytes)| (path.as_str(), bytes.clone())).collect();
    let (run, pruned) = scan(&borrowed, vec![CompareMethod::ByteHash], None);
    assert_eq!(groups_of(&everything), groups_of(&pruned));
    assert_eq!(run.total, 4);
    assert_eq!(run.records[3].byte_hash, None);
    assert_eq!(run.records[5].byte_hash, None);
}

#[test]
fn a_scan_keeps_its_counts_in_step() {
    let files = vec![("/root/a.png", vec![1u8; 10]), ("/root/b.png", vec![1u8; 10])];
    let mut run = ScanRun::new(String::from("/root"), vec![CompareMethod::ByteHash], allowed_extensions());
    let mut cancel = CancelToken { requested: false };
    assert!(run.well_formed());
    run.step(ScanEvent::Start, clock(0), &mut cancel);
    assert!(run.well_formed());
    let jobs = jobs_after_walk(&mut run, &mut cancel, &files);
    assert!(run.well_formed());
    for job in jobs {
        let found = process_file_once(job.wanted, &files[job.index].1);
        run.step(ScanEvent::FileDone { index: job.index, found }, clock(1), &mut cancel);
        assert!(run.well_formed());
    }
    run.step(ScanEvent::Resume, clock(2), &mut cancel);
    assert!(run.well_formed());
    assert_eq!(run.phase, ScanPhase::Done);
}

#[test]
fn counts_out_of_step_are_found_out() {
    let mut run = ScanRun::new(String::from("/root"), Vec::new(), Vec::new());
    run.total = 3;
    assert!(!run.well_formed());
    run.total = 0;
    run.pending.push(true);
    assert!(!run.well_formed());
    run.records.push(bare("a", 1));
    assert!(!run.well_formed());
    run.phase = ScanPhase::Hashing;
    run.total = 1;
    assert!(run.well_formed());
    run.processed = 1;
    assert!(!run.well_formed());
}

#[test]
fn a_streamed_file_has_its_content_hash_and_nothing_of_the_picture() {
    let bytes = encoded(&scene(64, 48), image::ImageFormat::Png);
    let mut hasher = ContentHasher::new();
    for chunk in bytes.chunks(100) {
        hasher.update(chunk);
    }
    let found = streamed_fingerprints(&hasher);
    assert_eq!(found.byte_hash, Some(content_hash(&bytes)));
    assert_eq!(found.perceptual_hash, None);
    assert_eq!(found.preview_base64, None);
    assert_eq!(found.byte_hash, process_file_once(Wanted { content_hash: true, visual_hash: false }, &bytes).byte_hash);
}
