use costree::entry::Entry;
use costree::path::FsPath;
use costree::status::ScanStatus;
use costree::walk::{ScanWalk, Seen, WalkStep};

fn p(s: &str) -> FsPath {
    FsPath::parse(s)
}

/// A small directory tree: `/r` holds `a.txt` (5 bytes), the saved-index
/// folder and `sub`, which holds `b.txt` (10 bytes).
fn read(path: &FsPath) -> Seen {
    let dir = |children: &[&str]| Seen {
        is_dir: true,
        size: 0,
        children: children.iter().map(|c| p(c)).collect(),
    };
    let file = |size| Seen { is_dir: false, size, children: Vec::new() };
    match path.display().as_str() {
        "/r" => dir(&["/r/a.txt", "/r/.costree", "/r/sub"]),
        "/r/sub" => dir(&["/r/sub/b.txt"]),
        "/r/a.txt" => file(5),
        "/r/sub/b.txt" => file(10),
        other => panic!("unexpected read of {other}"),
    }
}

fn run(status: &mut ScanStatus, generation: u64, mut interrupt: impl FnMut(&mut ScanStatus, usize)) -> (Option<Entry>, usize) {
    let mut walk = ScanWalk::start(p("/r"), generation);
    let mut seen = None;
    let mut reads = 0;
    loop {
        match walk.step(status, seen.take()) {
            WalkStep::Inspect(next) => {
                reads += 1;
                interrupt(status, reads);
                seen = Some(read(&next));
            }
            WalkStep::Finished(e) => return (e, reads),
            WalkStep::TooLarge => panic!("too large"),
        }
    }
}

#[test]
fn scan_skips_the_index_directory() {
    let mut status = ScanStatus::new();
    let generation = status.next_generation();
    let (scanned, _) = run(&mut status, generation, |_, _| {});
    let scanned = scanned.expect("scan should not be cancelled");
    assert_eq!(scanned.children.len(), 2);
    assert!(scanned.children.iter().all(|c| c.name != ".costree"));
}

#[test]
fn scan_computes_recursive_size() {
    let mut status = ScanStatus::new();
    let generation = status.next_generation();
    let (scanned, reads) = run(&mut status, generation, |_, _| {});
    let scanned = scanned.expect("scan should not be cancelled");
    assert_eq!(reads, 4);
    assert!(scanned.scanned);
    assert_eq!(scanned.size, 15);
    let names: Vec<&str> = scanned.children.iter().map(|c| c.name.as_str()).collect();
    assert_eq!(names, vec!["sub", "a.txt"]);
    assert_eq!(scanned.children[0].size, 10);
    assert!(scanned.children[0].scanned);
    assert_eq!(status.current_scan_path(), Some(p("/r/sub")));
}

#[test]
fn scan_returns_none_once_generation_is_superseded() {
    let mut status = ScanStatus::new();
    let stale = status.next_generation();
    status.next_generation();
    let (scanned, reads) = run(&mut status, stale, |_, _| {});
    assert!(scanned.is_none());
    assert_eq!(reads, 0);
}

#[test]
fn a_scan_stops_when_cancelled_midway() {
    let mut status = ScanStatus::new();
    let generation = status.next_generation();
    let (scanned, reads) = run(&mut status, generation, |st, n| {
        if n == 2 {
            st.next_generation();
        }
    });
    assert!(scanned.is_none());
    assert_eq!(reads, 2);
}
