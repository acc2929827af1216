use folder_scanner::scanner::{
    calculate_dir_size, scan_directory, summarize_deletions, EntryInfo, EntryKind, Listing,
    ScanAction, ScanProgress, ScanRequest,
};

#[derive(Clone)]
enum Node {
    Dir(Vec<Option<(u32, EntryKind, Option<&'static str>, Option<u64>)>>),
    NotDir,
    Denied,
    Broken(&'static str),
}

fn tree(n: u32) -> Node {
    match n {
        0 => Node::Dir(vec![
            Some((1, EntryKind::Directory, Some("a"), None)),
            Some((2, EntryKind::Directory, Some("node_modules"), None)),
            Some((3, EntryKind::File, Some("file.txt"), Some(5))),
            None,
            Some((4, EntryKind::Directory, Some("b"), None)),
            Some((12, EntryKind::Directory, Some("c"), None)),
        ]),
        1 => Node::Dir(vec![
            Some((5, EntryKind::Directory, Some("node_modules"), None)),
            Some((6, EntryKind::File, Some("x.txt"), Some(7))),
        ]),
        2 => Node::Dir(vec![
            Some((7, EntryKind::Directory, Some("node_modules"), None)),
            Some((8, EntryKind::File, Some("f"), Some(100))),
            Some((9, EntryKind::File, Some("g"), None)),
            Some((13, EntryKind::Other, Some("dangling"), None)),
        ]),
        7 => Node::Dir(vec![Some((10, EntryKind::File, Some("h"), Some(11)))]),
        5 => Node::Dir(vec![Some((11, EntryKind::File, Some("i"), Some(1)))]),
        4 => Node::Denied,
        12 => Node::Broken("Input/output error (os error 5)"),
        _ => Node::NotDir,
    }
}

fn listing(n: u32) -> Listing<u32> {
    match tree(n) {
        Node::Dir(es) => Listing::Entries(
            es.into_iter()
                .map(|e| {
                    e.map(|(path, kind, name, len)| EntryInfo {
                        path,
                        kind,
                        name: name.map(|s| s.to_string()),
                        len,
                    })
                })
                .collect(),
        ),
        Node::NotDir => Listing::NotADirectory,
        Node::Denied => Listing::PermissionDenied,
        Node::Broken(e) => Listing::Failed { path_display: format!("/root/{}", n), error: e.to_string() },
    }
}

#[derive(Debug, PartialEq)]
enum Event {
    Scanning(u32),
    Found(u32, u64),
    Warning(String),
}

fn run(root: u32, search: &str) -> (Vec<Event>, u64, Vec<u32>, Vec<ScanRequest<u32>>) {
    let mut scan = scan_directory(root, search);
    let mut reply: Option<Listing<u32>> = None;
    let mut events = Vec::new();
    let mut requests = Vec::new();
    loop {
        assert_eq!(scan.awaiting_listing(), reply.is_some());
        assert!(scan.accepts(&reply));
        match scan.resume(reply.take()) {
            ScanAction::Request(r) => {
                requests.push(r);
                let p = match r {
                    ScanRequest::ListForScan(p) => p,
                    ScanRequest::ListForSize(p) => p,
                };
                reply = Some(listing(p));
            },
            ScanAction::Report(ScanProgress::Scanning(p)) => events.push(Event::Scanning(p)),
            ScanAction::Report(ScanProgress::Found { path, size }) => events.push(Event::Found(path, size)),
            ScanAction::Report(ScanProgress::Warning(m)) => events.push(Event::Warning(m)),
            ScanAction::Finished(out) => {
                assert!(scan.is_finished());
                return (events, out.total_size, out.found_folders, requests);
            },
        }
    }
}

#[test]
fn scan_finds_matches_and_does_not_descend_into_them() {
    let (events, total, found, requests) = run(0, "node_modules");
    assert_eq!(
        events,
        vec![
            Event::Scanning(0),
            Event::Scanning(1),
            Event::Found(5, 1),
            Event::Scanning(0),
            Event::Found(2, 111),
            Event::Scanning(0),
            Event::Scanning(0),
            Event::Warning("Cannot read directory /root/12: Input/output error (os error 5)".to_string()),
        ]
    );
    assert_eq!(total, 112);
    assert_eq!(found, vec![5, 2]);
    // The result agrees with the reports.
    let reported: Vec<u32> = events.iter().filter_map(|e| if let Event::Found(p, _) = e { Some(*p) } else { None }).collect();
    let reported_bytes: u64 = events.iter().map(|e| if let Event::Found(_, s) = e { *s } else { 0 }).sum();
    assert_eq!(reported, found);
    assert_eq!(reported_bytes, total);
    // The nested node_modules (7) is sized but never searched.
    assert!(requests.iter().all(|r| !matches!(r, ScanRequest::ListForScan(7))));
    assert!(requests.iter().any(|r| matches!(r, ScanRequest::ListForSize(7))));
    assert!(matches!(requests[0], ScanRequest::ListForScan(0)));
}

#[test]
fn scan_of_a_non_directory_finds_nothing() {
    let (events, total, found, _) = run(3, "node_modules");
    assert!(events.is_empty());
    assert_eq!(total, 0);
    assert!(found.is_empty());
}

#[test]
fn scan_of_an_unreadable_root_is_silent() {
    let (events, total, found, _) = run(4, "anything");
    assert!(events.is_empty());
    assert_eq!(total, 0);
    assert!(found.is_empty());
}

#[test]
fn scan_without_matches_reports_every_subdirectory() {
    let (events, total, found, _) = run(0, "nothing-here");
    assert_eq!(total, 0);
    assert!(found.is_empty());
    let scanning = events.iter().filter(|e| matches!(e, Event::Scanning(_))).count();
    // Subdirectories: 1, 2, 4, 12 under the root; 5 under 1; 7 under 2.
    assert_eq!(scanning, 6);
}

#[test]
fn scan_rejects_an_overflowing_listing() {
    let mut scan = scan_directory(0u32, "big");
    let first = scan.resume(None);
    assert!(matches!(first, ScanAction::Request(ScanRequest::ListForScan(0))));
    let root = Listing::Entries(vec![Some(EntryInfo {
        path: 1u32,
        kind: EntryKind::Directory,
        name: Some("big".to_string()),
        len: None,
    })]);
    assert!(scan.accepts(&Some(root)));
    let root = Listing::Entries(vec![Some(EntryInfo {
        path: 1u32,
        kind: EntryKind::Directory,
        name: Some("big".to_string()),
        len: None,
    })]);
    assert!(matches!(scan.resume(Some(root)), ScanAction::Report(ScanProgress::Scanning(0))));
    assert!(scan.accepts(&None));
    assert!(!scan.accepts(&Some(Listing::NotADirectory)));
    assert!(matches!(scan.resume(None), ScanAction::Request(ScanRequest::ListForSize(1))));
    let huge = Listing::Entries(vec![
        Some(EntryInfo { path: 2u32, kind: EntryKind::File, name: None, len: Some(u64::MAX) }),
        Some(EntryInfo { path: 3u32, kind: EntryKind::File, name: None, len: Some(1) }),
    ]);
    assert!(!scan.accepts(&Some(huge)));
    let fits = Listing::Entries(vec![Some(EntryInfo { path: 2u32, kind: EntryKind::File, name: None, len: Some(u64::MAX) })]);
    assert!(scan.accepts(&Some(fits)));
}

#[test]
fn size_count_of_a_tree() {
    let mut count = calculate_dir_size(2u32);
    let mut listed = Vec::new();
    while let Some(d) = count.next_dir() {
        listed.push(d);
        let l = listing(d);
        assert!(count.preview(&l).is_some());
        count.take_listing(&l);
    }
    assert_eq!(count.total(), 111);
    assert_eq!(listed, vec![2, 7]);
}

#[test]
fn size_count_of_an_unreadable_directory_is_zero() {
    let mut count = calculate_dir_size(4u32);
    assert_eq!(count.next_dir(), Some(4));
    let l = listing(4);
    assert_eq!(count.preview(&l), Some((0, true)));
    count.take_listing(&l);
    assert_eq!(count.next_dir(), None);
    assert_eq!(count.total(), 0);
}

#[test]
fn deletion_summary_counts_each_folder_once() {
    let s = summarize_deletions(&[true, false, true, true]);
    assert_eq!(s.deleted, 3);
    assert_eq!(s.failed, 1);
    let e = summarize_deletions(&[]);
    assert_eq!(e.deleted, 0);
    assert_eq!(e.failed, 0);
}

fn size_of(root: u32, extra: Option<(u32, u64)>) -> u64 {
    let mut count = calculate_dir_size(root);
    while let Some(d) = count.next_dir() {
        let mut l = listing(d);
        if let (Some((dir, len)), Listing::Entries(es)) = (extra, &mut l) {
            if dir == d {
                es.push(Some(EntryInfo { path: 99, kind: EntryKind::File, name: Some("new.bin".to_string()), len: Some(len) }));
            }
        }
        assert!(count.preview(&l).is_some());
        count.take_listing(&l);
    }
    count.total()
}

#[test]
fn adding_a_file_grows_the_size_by_its_length() {
    assert_eq!(size_of(2, None), 111);
    assert_eq!(size_of(2, Some((2, 40))), 151);
    assert_eq!(size_of(2, Some((7, 40))), 151);
    assert_eq!(size_of(2, Some((5, 40))), 111);
    assert_eq!(size_of(0, Some((5, 9))), size_of(0, None) + 9);
}
