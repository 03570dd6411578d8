use sector::browse::{list_dir, RawEntry, RawMetadata};
use sector::cache::{CacheOpen, CacheStats};
use sector::city::{
    accept_cache, cache_stats, find_node, load_cache_file, CacheLoadError, City, Entering, Follow, LoadFollowUp, Scan,
};
use sector::filetype::FileCategory;
use sector::paths::PathStyle;
use sector::skyline::{
    block_color, block_files, block_label, block_path, block_tiles, category_color, done_line, layout_due,
    ranked_children, ranked_children_before, running_line, tallest, Placed, Rgb,
};
use sector::store::{Pruning, StoredFile};
use sector::time::Stamp;
use sector::tree::{NodeId, NodeKind, Tree};
use sector::usn::{freshness, query_mark, volume_names, Freshness, JournalData, UsnMark};
use sector::walk::{has_room_for, read_one_dir, scan, scan_into, DirResult, Progress, RawItem, ScanOptions, ScanStats, Tally};
use std::collections::VecDeque;

const UNIX: PathStyle = PathStyle::Unix;
const WIN: PathStyle = PathStyle::Windows;

fn dir(name: &str, path: &str) -> RawItem {
    RawItem::Dir { name: name.to_string(), path: path.to_string() }
}

fn leaf(name: &str, size: u64) -> RawItem {
    RawItem::Leaf { name: name.to_string(), size: Some(size) }
}

/// What a disk holds: a, a/b and empty, with three files of 350 bytes.
fn fixture(path: &str) -> Option<Vec<RawItem>> {
    match path {
        "/root" => Some(vec![dir("a", "/root/a"), dir("empty", "/root/empty")]),
        "/root/a" => Some(vec![leaf("one.bin", 100), dir("b", "/root/a/b"), leaf("two.bin", 200)]),
        "/root/a/b" => Some(vec![leaf("three.bin", 50)]),
        "/root/empty" => Some(Vec::new()),
        _ => None,
    }
}

/// Walks with `threads` directories read at a time, answers out of order.
fn walk(root: &str, threads: usize) -> (Tree, Tally) {
    let (mut tree, mut tally, first) = scan(root);
    let mut jobs = VecDeque::from([first]);
    while !tally.is_done() {
        let mut read = Vec::new();
        let options = ScanOptions { threads };
        for _ in 0..options.workers() {
            if let Some(job) = jobs.pop_front() {
                let (entries, errors) = read_one_dir(fixture(&job.path));
                read.push(DirResult { parent: job.parent, entries, errors });
            }
        }
        while let Some(result) = read.pop() {
            assert!(has_room_for(&tree, &tally, &result));
            jobs.extend(scan_into(&mut tree, &mut tally, result));
        }
    }
    assert!(jobs.is_empty());
    (tree, tally)
}

#[test]
fn scans_counts_and_sizes() {
    for threads in [1usize, 4, 16] {
        let (tree, tally) = walk("/root", threads);
        let stats = tally.finish(0, false);
        assert_eq!(stats.files, 3, "threads={threads}");
        assert_eq!(stats.dirs, 3, "a, a/b, empty (threads={threads})");
        assert_eq!(stats.bytes, 350, "threads={threads}");
        assert!(!stats.cancelled);
        // Root subtree size must equal total bytes after aggregation.
        assert_eq!(tree.node(Tree::root()).subtree_size, 350, "threads={threads}");
    }
}

#[test]
fn progress_matches_stats() {
    let (_tree, tally) = walk("/root", 8);
    let progress = tally.progress();
    let stats = tally.finish(5, true);
    assert_eq!(progress.files, stats.files);
    assert_eq!(progress.bytes, stats.bytes);
    assert_eq!(progress.dirs, stats.dirs);
    assert_eq!((stats.elapsed_millis, stats.cancelled), (5, true));
}

#[test]
fn unreadable_items_are_counted() {
    let (entries, errors) = read_one_dir(Some(vec![
        RawItem::Failed,
        leaf("a", 3),
        RawItem::Leaf { name: "b".to_string(), size: None },
    ]));
    assert_eq!((entries.len(), errors), (2, 2));
    assert_eq!((entries[1].name.as_str(), entries[1].size), ("b", 0));
    let (tree, tally) = walk("/missing", 1);
    assert_eq!((tree.len(), tally.progress().errors), (1, 1));
}

#[test]
fn workers_are_kept_in_range() {
    assert_eq!(ScanOptions { threads: 0 }.workers(), 1);
    assert_eq!(ScanOptions { threads: 12 }.workers(), 12);
    assert_eq!(ScanOptions::for_system(Some(16)).threads, 16);
    assert_eq!(ScanOptions::for_system(None).threads, 4);
}

#[test]
fn lists_files_and_dirs() {
    let raw = |name: &str, is_dir: bool, len: u64| {
        Some(RawEntry {
            name: name.to_string(),
            is_dir,
            is_link: false,
            metadata: Some(RawMetadata { len, attributes: None, readonly: false, modified: None, created: None }),
        })
    };
    let mut entries = list_dir(&vec![raw("sub", true, 4096), raw("a.txt", false, 123), raw("b.bin", false, 4096)]);
    entries.sort_by(|a, b| a.name.cmp(&b.name));
    assert_eq!(entries.len(), 3);

    let a = entries.iter().find(|e| e.name == "a.txt").unwrap();
    assert!(!a.is_dir);
    assert_eq!(a.size, 123);

    let sub = entries.iter().find(|e| e.name == "sub").unwrap();
    assert!(sub.is_dir);
    assert_eq!(sub.size, 0);
}

fn journal(journal_id: u64, first_usn: i64, next_usn: i64) -> Option<JournalData> {
    Some(JournalData { journal_id, first_usn, next_usn })
}

#[test]
fn the_journal_tells_whether_a_scan_is_current() {
    let mark = query_mark(journal(7, 10, 50)).unwrap();
    assert_eq!(mark, UsnMark { journal_id: 7, next_usn: 50 });
    assert_eq!(freshness(journal(7, 10, 50), &mark), Freshness::Current);
    assert_eq!(freshness(journal(7, 10, 51), &mark), Freshness::Stale);
    assert_eq!(freshness(journal(7, 10, 49), &mark), Freshness::Unknown); // went back
    assert_eq!(freshness(journal(8, 10, 50), &mark), Freshness::Unknown); // another journal
    assert_eq!(freshness(journal(7, 51, 60), &mark), Freshness::Unknown); // wrapped past the mark
    assert_eq!(freshness(None, &mark), Freshness::Unknown);
    assert_eq!(freshness(journal(0, 0, 0), &UsnMark::none()), Freshness::Unknown);
    assert!(!UsnMark::none().is_some() && mark.is_some());
    assert_eq!(query_mark(None), None);
}

#[test]
fn only_drives_have_a_journal() {
    assert_eq!(volume_names(r"C:\Users"), Some((r"C:\".to_string(), r"\\.\C:".to_string())));
    assert_eq!(volume_names(r"\\nas\media"), None);
    assert_eq!(volume_names("/tmp"), None);
}

/// /home ─ Docs ─ a.txt (100), b.mp4 (900)
///       └ x.mp3 (50)
fn home(root: &str) -> (Tree, NodeId) {
    let mut t = Tree::new(root);
    let docs = t.add_child_propagating(Tree::root(), "Docs", NodeKind::Dir, 0);
    t.add_child_propagating(docs, "a.txt", NodeKind::File, 100);
    t.add_child_propagating(docs, "b.mp4", NodeKind::File, 900);
    t.add_child_propagating(Tree::root(), "x.mp3", NodeKind::File, 50);
    (t, docs)
}

fn stats() -> CacheStats {
    CacheStats { dirs: 1, files: 3, bytes: 1050, saved_unix: 99, usn_journal_id: 7, usn_next: 50 }
}

fn done(errors: u64, cancelled: bool) -> ScanStats {
    ScanStats { dirs: 1, files: 3, bytes: 1050, errors, elapsed_millis: 2500, cancelled }
}

fn message(r: Result<sector::city::LoadedCache, CacheLoadError>) -> (String, bool) {
    let e = r.err().unwrap();
    (e.message, e.unusable)
}

#[test]
fn stored_scans_are_loaded_for_their_folder_only() {
    let (t, _) = home("/home");
    let bytes = t.to_cache_bytes(stats()).unwrap();
    let ok = load_cache_file(UNIX, "/c/x", Ok(bytes.clone()), "/home/").ok().unwrap();
    assert_eq!(ok.tree.len(), 5);
    assert_eq!(ok.dominant[0], FileCategory::Video);
    assert_eq!(ok.stats.saved_unix, 99);
    assert_eq!(
        message(load_cache_file(UNIX, "/c/x", Ok(bytes.clone()), "/else")),
        ("the file is for \"/home\", not this folder".to_string(), true)
    );
    assert_eq!(
        message(load_cache_file(UNIX, "/c/x", Err("no access".to_string()), "/home")),
        ("couldn't read /c/x: no access".to_string(), false)
    );
    assert_eq!(
        message(load_cache_file(UNIX, "/c/x", Ok(b"garbage".to_vec()), "/home")),
        ("the file is corrupt".to_string(), true)
    );
    assert_eq!(
        message(load_cache_file(UNIX, "/c/x", Ok(bytes[..20].to_vec()), "/home")),
        ("the file is corrupt".to_string(), true)
    );
    assert_eq!(
        message(accept_cache(UNIX, CacheOpen::TooLarge, None, "/home")),
        ("the loader stopped unexpectedly".to_string(), false)
    );
    let (now, old) = (Tree::CACHE_FORMAT, Tree::CACHE_FORMAT - 1);
    let (text, unusable) = message(accept_cache(UNIX, CacheOpen::Rejected, Some(old), "/home"));
    assert!(text.contains(&old.to_string()) && text.contains(&now.to_string()) && unusable, "{text}");
    // A name with quotes in it is shown as Rust writes it.
    let quoted = home("/a\"b").0.to_cache_bytes(stats()).unwrap();
    assert_eq!(
        message(load_cache_file(UNIX, "/c/x", Ok(quoted), "/else")).0,
        "the file is for \"/a\\\"b\", not this folder"
    );
}

#[test]
fn only_complete_scans_are_stored() {
    let mark = Some(UsnMark { journal_id: 7, next_usn: 50 });
    let s = cache_stats(&done(0, false), mark, 99).unwrap();
    assert_eq!((s.dirs, s.files, s.bytes), (1, 3, 1050));
    assert_eq!((s.saved_unix, s.usn_journal_id, s.usn_next), (99, 7, 50));
    let none = cache_stats(&done(3, false), None, 99).unwrap();
    assert_eq!((none.usn_journal_id, none.usn_next), (0, 0));
    assert!(cache_stats(&done(0, true), mark, 99).is_none());
    // Nor is that of a root that could not be read at all.
    let unreadable = ScanStats { dirs: 0, files: 0, bytes: 0, ..done(1, false) };
    assert!(cache_stats(&unreadable, mark, 99).is_none());
    assert!(cache_stats(&ScanStats { errors: 0, ..unreadable }, mark, 99).is_some());
}

#[test]
fn the_city_finds_folders_in_its_tree() {
    let (t, docs) = home("/home");
    assert_eq!(find_node(UNIX, &t, "/home", "/home/docs"), Some(docs));
    assert_eq!(find_node(UNIX, &t, "/home", "/home"), Some(Tree::root()));
    assert_eq!(find_node(UNIX, &t, "/home", "/home/x/y"), None);
    assert_eq!(find_node(UNIX, &t, "/home", "/elsewhere"), None);

    let mut c = City::new(UNIX);
    assert_eq!(c.city_node_for(&t, "/home/Docs", false), None);
    c.start_scan("/home", None);
    assert_eq!(c.city_node_for(&t, "/home/Docs", false), Some(docs));
    assert_eq!(c.scanned_subtree_size(&t, "/home/Docs"), None); // still counting
    assert!(c.compute_folder_sizes(&t, "/home").is_none());
    c.scan_finished(done(0, false));
    assert_eq!(c.scanned_subtree_size(&t, "/home/Docs"), Some(1000));
    let sizes = c.compute_folder_sizes(&t, "/home").unwrap();
    assert_eq!(sizes.len(), 1);
    assert_eq!((sizes[0].name.as_str(), sizes[0].bytes), ("docs", 1000));
}

#[test]
fn the_city_follows_the_folder() {
    let (t, docs) = home("/home");
    let mut c = City::new(UNIX);
    c.start_scan("/home", None);
    c.scan_finished(done(0, false));
    assert_eq!(c.follow(Some(&t), "/home"), Follow::Stay);
    assert_eq!(c.follow(Some(&t), "/home/Docs"), Follow::Reroot(docs));
    assert_eq!(c.follow(Some(&t), "/other"), Follow::Reload);
    assert_eq!(c.follow(None, "/home/Docs"), Follow::Reload);
    c.reroot(docs, "/home/Docs");
    assert_eq!((c.at, c.synced.as_deref(), c.root.as_deref()), (docs, Some("/home/Docs"), Some("/home")));
    assert_eq!(c.drilled(&t, "/home/Docs"), None);
    c.step_up(&t);
    assert_eq!(c.at, Tree::root());
    assert_eq!(c.drilled(&t, "/home/Docs").as_deref(), Some("/home"));
    c.step_up(&t);
    assert_eq!(c.at, Tree::root());
    c.drill(&t, docs);
    assert_eq!(c.at, docs);
    c.drill(&t, NodeId(2)); // a file's block leads to its folder
    assert_eq!(c.at, docs);
    assert!(c.is_scanned("/home") && !c.is_scanned("/home/Docs"));
}

#[test]
fn entering_a_folder_loads_scans_or_waits() {
    let mark = Some(UsnMark { journal_id: 7, next_usn: 50 });
    let mut c = City::new(WIN);
    assert_eq!(c.sync_city(r"C:\Users", true, Some(Stamp { secs: 5, nanos: 0 }), false, mark), Entering::Load);
    assert_eq!((c.loading.as_deref(), c.cached), (Some(r"C:\Users"), Some(Stamp { secs: 5, nanos: 0 })));
    assert_eq!(c.idle_line(r"C:\Users"), r"Loading the cached scan of C:\Users…");
    assert!(!c.take_load(r"C:\Other"));
    assert_eq!(c.loading, None); // it is over either way
    c.start_cache_load(r"C:\Users");
    assert!(c.take_load(r"c:\Users"));
    assert!(!c.take_load(r"C:\Users"));
    c.install_cache(stats(), r"C:\Users", journal(7, 1, 50));
    assert_eq!(c.freshness, Freshness::Current);
    assert!(c.is_complete());

    assert_eq!(c.sync_city(r"C:\Users", false, None, false, mark), Entering::Scan);
    assert_eq!((c.scan, c.mark), (Scan::Running, mark));
    assert_eq!(c.sync_city(r"C:\", false, None, false, mark), Entering::Nothing); // a drive's root
    assert_eq!(c.sync_city(r"\\nas\m\x", false, None, true, mark), Entering::Nothing); // a network drive
    assert_eq!(c.scan, Scan::Idle);
    assert_eq!(c.idle_line("X"), "No cityscape for X yet — press Scan to build one.");
    c.auto_scan = false;
    assert_eq!(c.sync_city(r"C:\Users", false, None, false, mark), Entering::Nothing);
}

#[test]
fn a_failed_load_is_followed_up() {
    let mut c = City::new(UNIX);
    c.sync_city("/home", true, Some(Stamp { secs: 5, nanos: 0 }), false, None);
    let bad = CacheLoadError { message: "the file is corrupt".to_string(), unusable: true };
    let r = c.load_failed(&bad, "/home", false, None);
    assert_eq!(r, LoadFollowUp { remove_file: true, begin_scan: true });
    assert_eq!(c.cached, None);
    let locked = CacheLoadError { message: "locked".to_string(), unusable: false };
    c.cached = Some(Stamp { secs: 5, nanos: 0 });
    c.auto_scan = false;
    let r = c.load_failed(&locked, "/home", false, None);
    assert_eq!(r, LoadFollowUp { remove_file: false, begin_scan: false });
    assert!(c.cached.is_some());
    assert_eq!(
        c.note.as_deref(),
        Some("Couldn't load the cached scan — locked. Press Scan to rebuild it.")
    );
}

#[test]
fn a_scan_that_died_keeps_its_tally() {
    let mut c = City::new(UNIX);
    c.start_scan("/home", None);
    c.scan_died(Progress { dirs: 1, files: 2, bytes: 3, errors: 4 }, 1500);
    match c.scan {
        Scan::Done(s) => assert_eq!((s.dirs, s.files, s.bytes, s.cancelled, s.elapsed_millis), (1, 2, 3, true, 1500)),
        other => panic!("{other:?}"),
    }
    assert!(!c.is_complete());
    c.city_idle();
    assert_eq!(c.scan, Scan::Idle);
}

#[test]
fn children_are_ranked_by_size() {
    let mut t = Tree::new("r");
    for (name, size) in [("a", 5), ("b", 9), ("none", 0), ("c", 5)] {
        t.add_child_propagating(Tree::root(), name, NodeKind::File, size);
    }
    let ids = |v: Vec<NodeId>| v.iter().map(|n| n.index()).collect::<Vec<_>>();
    assert_eq!(ids(ranked_children(&t, Tree::root())), [2, 1, 4]);
    let (sizes, _) = t.partial_metrics(3);
    assert_eq!(ids(ranked_children_before(&t, Tree::root(), 3, &sizes)), [2, 1]);
}

#[test]
fn blocks_stand_on_what_is_not_drawn_further() {
    let (t, docs) = home("/home");
    let tiles = vec![
        Placed { node: docs, depth: 1 },
        Placed { node: NodeId(3), depth: 2 },
        Placed { node: NodeId(4), depth: 1 },
    ];
    assert_eq!(block_tiles(&t, &tiles), [1, 2]);
    assert_eq!(block_tiles(&t, &vec![Placed { node: docs, depth: 1 }]), [0]);
    assert_eq!(block_files(&t, None, docs), 2);
    assert_eq!(block_files(&t, Some(&vec![0, 7, 0, 0, 0]), docs), 7);
    assert_eq!(tallest(&t, None, &vec![NodeId(4), docs]), 2);
    assert_eq!(tallest(&t, None, &Vec::new()), 1);
}

#[test]
fn blocks_are_colored_and_labelled() {
    let (t, docs) = home("/home");
    assert_eq!(block_color(UNIX, &t, None, NodeId(4)), category_color(FileCategory::Audio));
    assert_eq!(block_color(UNIX, &t, None, docs), Rgb { r: 0x22, g: 0x27, b: 0x30 });
    let dominant = t.dominant_categories_in(UNIX);
    assert_eq!(block_color(UNIX, &t, Some(&dominant), docs), Rgb { r: 0xcf, g: 0x8a, b: 0x3e });
    let (path, line) = block_label(UNIX, &t, docs);
    assert_eq!((path.as_str(), line.as_str()), ("/home/Docs", "1000 B  ·  2 items · 2 files"));
    assert_eq!(block_label(UNIX, &t, NodeId(4)).1, "50 B  ·  Audio");
    assert_eq!(block_path(UNIX, &t, NodeId(4)), ("/home/x.mp3".to_string(), false));
    assert_eq!(block_path(UNIX, &t, docs), ("/home/Docs".to_string(), true));
    let all = [
        FileCategory::Video,
        FileCategory::Image,
        FileCategory::Audio,
        FileCategory::Archive,
        FileCategory::Document,
        FileCategory::Code,
        FileCategory::System,
        FileCategory::Other,
    ];
    for a in all {
        assert_eq!(all.iter().filter(|b| category_color(**b) == category_color(a)).count(), 1);
    }
}

#[test]
fn lines_tell_of_a_walk() {
    let p = Progress { dirs: 1234, files: 5, bytes: 1536, errors: 0 };
    assert_eq!(running_line(&p, "2.0"), "Scanning… 1,234 dirs, 5 files, 1.5 KB (2.0s)");
    assert_eq!(done_line(&done(0, false), "2.5"), "1 dirs · 3 files · 1.0 KB · 2.5s");
    assert_eq!(
        done_line(&done(1000, true), "2.5"),
        "1 dirs · 3 files · 1.0 KB · 2.5s · 1,000 unreadable · (cancelled)"
    );
}

fn stored(path: &str, bytes: u64, secs: i64) -> StoredFile {
    StoredFile { path: path.to_string(), bytes, modified: Stamp { secs, nanos: 0 } }
}

#[test]
fn the_oldest_stored_files_go_first() {
    let files = vec![
        stored("/c/notes.txt", 999, 0),
        stored("/c/new.bin", 60, 9),
        stored("/c/old.bin", 60, 1),
        stored("/c/mid.bin", 60, 5),
        stored("/c/keep.bin", 60, 0),
    ];
    let mut p = Pruning::new(UNIX, &files, "/c/keep.bin", 130);
    assert_eq!(p.next().as_deref(), Some("/c/old.bin"));
    p.removed();
    assert_eq!(p.next().as_deref(), Some("/c/mid.bin"));
    p.removed();
    assert_eq!(p.next(), None); // 120 bytes are left
    // What could not be removed is passed over.
    let mut p = Pruning::new(UNIX, &files, "/c/keep.bin", 130);
    p.next();
    assert_eq!(p.next().as_deref(), Some("/c/mid.bin"));
    // The file that was just written stays, whatever its age.
    let mut p = Pruning::new(UNIX, &files, "/c/keep.bin", 0);
    let mut gone = Vec::new();
    while let Some(f) = p.next() {
        p.removed();
        gone.push(f);
    }
    assert_eq!(gone, ["/c/old.bin", "/c/mid.bin", "/c/new.bin"]);
    assert_eq!(Pruning::new(UNIX, &files, "/c/keep.bin", 240).next(), None);
}

#[test]
fn stored_files_go_until_the_rest_fits() {
    let files = vec![stored("/c/c.bin", 10, 3), stored("/c/a.bin", 30, 1), stored("/c/b.bin", 20, 2)];
    for (keep, want) in [(60, vec![]), (59, vec!["/c/a.bin"]), (29, vec!["/c/a.bin", "/c/b.bin"])] {
        let mut p = Pruning::new(UNIX, &files, "/c/z.bin", keep);
        let mut gone = Vec::new();
        while let Some(f) = p.next() {
            p.removed();
            gone.push(f);
        }
        assert_eq!(gone, want);
    }
    // Where nothing could be removed, every file was tried once.
    let mut p = Pruning::new(UNIX, &files, "/c/z.bin", 0);
    let tried: Vec<String> = std::iter::from_fn(|| p.next()).collect();
    assert_eq!(tried, ["/c/a.bin", "/c/b.bin", "/c/c.bin"]);
    assert_eq!(p.next(), None);
}

#[test]
fn the_city_is_laid_out_in_steps() {
    // Something else to draw: at once.
    assert!(layout_due(true, true, false, false, false, false, false));
    // A replay goes in steps of its own, whatever else is going on.
    assert!(!layout_due(false, true, true, true, true, false, true));
    assert!(layout_due(false, true, false, false, false, true, false));
    // Else while it rises, once to settle, and now and then while a walk runs.
    assert!(layout_due(false, false, true, false, false, false, false));
    assert!(layout_due(false, false, false, true, false, false, false));
    assert!(layout_due(false, false, false, false, true, false, true));
    assert!(!layout_due(false, false, false, false, true, true, false));
    assert!(!layout_due(false, false, false, false, false, true, true));
}
