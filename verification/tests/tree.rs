use sector::cache::{CacheOpen, CacheRecord, CacheStats};
use sector::filetype::FileCategory;
use sector::paths::PathStyle;
use sector::city::find_node;
use sector::tree::{dominant_of, NodeId, NodeKind, Tree};

/// Build:  C: ─ Users ─ a.txt (100)
///                    └ b.txt (200)
///         C: └ Empty (dir, no children)
fn sample() -> (Tree, NodeId, NodeId, NodeId) {
    let mut t = Tree::new("C:");
    let users = t.add_child(Tree::root(), "Users", NodeKind::Dir, 0);
    let a = t.add_child(users, "a.txt", NodeKind::File, 100);
    let _b = t.add_child(users, "b.txt", NodeKind::File, 200);
    let empty = t.add_child(Tree::root(), "Empty", NodeKind::Dir, 0);
    (t, users, a, empty)
}

#[test]
fn structure_and_counts() {
    let (t, users, _a, _empty) = sample();
    assert_eq!(t.len(), 5); // root + Users + a + b + Empty
    assert_eq!(t.children(Tree::root()).len(), 2); // Users, Empty
    assert_eq!(t.children(users).len(), 2); // a, b
    assert_eq!(t.node(users).kind, NodeKind::Dir);
}

#[test]
fn sizes_aggregate_up() {
    let (mut t, users, a, empty) = sample();
    t.recompute_sizes();
    assert_eq!(t.node(Tree::root()).subtree_size, 300);
    assert_eq!(t.node(users).subtree_size, 300);
    assert_eq!(t.node(a).subtree_size, 100);
    assert_eq!(t.node(empty).subtree_size, 0);
}

#[test]
fn recompute_is_idempotent() {
    let (mut t, _users, _a, _empty) = sample();
    t.recompute_sizes();
    t.recompute_sizes(); // must not double-count
    assert_eq!(t.node(Tree::root()).subtree_size, 300);
}

#[test]
fn propagating_insert_keeps_sizes_live() {
    // Same shape as sample(), but built with propagating inserts and NO
    // recompute_sizes call — subtree_size must already be correct.
    let mut t = Tree::new("C:");
    let users = t.add_child_propagating(Tree::root(), "Users", NodeKind::Dir, 0);
    let a = t.add_child_propagating(users, "a.txt", NodeKind::File, 100);
    let _b = t.add_child_propagating(users, "b.txt", NodeKind::File, 200);
    let empty = t.add_child_propagating(Tree::root(), "Empty", NodeKind::Dir, 0);
    assert_eq!(t.node(Tree::root()).subtree_size, 300);
    assert_eq!(t.node(users).subtree_size, 300);
    assert_eq!(t.node(a).subtree_size, 100);
    assert_eq!(t.node(empty).subtree_size, 0);
    // file_count is maintained the same way.
    assert_eq!(t.node(Tree::root()).file_count, 2);
    assert_eq!(t.node(users).file_count, 2);
    assert_eq!(t.node(a).file_count, 1);
    assert_eq!(t.node(empty).file_count, 0);
}

#[test]
fn partial_metrics_grows_with_cutoff() {
    // Arena order: 0=C:, 1=Users, 2=a(100), 3=b(200), 4=Empty
    let mut t = Tree::new("C:");
    let users = t.add_child(Tree::root(), "Users", NodeKind::Dir, 0);
    let _a = t.add_child(users, "a", NodeKind::File, 100);
    let _b = t.add_child(users, "b", NodeKind::File, 200);
    let _e = t.add_child(Tree::root(), "Empty", NodeKind::Dir, 0);

    // Only first 3 nodes discovered (C:, Users, a): root sees 100, 1 file.
    let (sz, ct) = t.partial_metrics(3);
    assert_eq!(sz[Tree::root().index()], 100);
    assert_eq!(ct[Tree::root().index()], 1);
    // Full: 300 bytes, 2 files.
    let (sz, ct) = t.partial_metrics(t.len());
    assert_eq!(sz[Tree::root().index()], 300);
    assert_eq!(ct[Tree::root().index()], 2);
}

#[test]
fn metrics_beyond_the_cutoff_are_zero() {
    let (t, users, _a, _empty) = sample();
    let (sz, ct) = t.partial_metrics(0);
    assert_eq!(sz, vec![0; 5]);
    assert_eq!(ct, vec![0; 5]);
    let (sz, ct) = t.partial_metrics(3);
    assert_eq!(sz, vec![100, 100, 100, 0, 0]);
    assert_eq!(ct, vec![1, 1, 1, 0, 0]);
    assert_eq!(t.partial_metrics(99), t.partial_metrics(5));
    assert_eq!(sz[users.index()], 100);
}

fn stats() -> CacheStats {
    CacheStats { dirs: 2, files: 2, bytes: 300, saved_unix: 42, usn_journal_id: 0, usn_next: 0 }
}

#[test]
fn cache_round_trip() {
    let mut t = Tree::new("C:");
    let users = t.add_child_propagating(Tree::root(), "Users", NodeKind::Dir, 0);
    let _a = t.add_child_propagating(users, "a.txt", NodeKind::File, 100);
    let _b = t.add_child_propagating(users, "movie.mkv", NodeKind::File, 200);
    let _empty = t.add_child_propagating(Tree::root(), "Empty", NodeKind::Dir, 0);

    let bytes = t.to_cache_bytes(stats()).unwrap();
    let (r, rs) = Tree::from_cache_bytes(&bytes).unwrap();

    // Structure, sizes, and counts survive the round trip.
    assert_eq!(r.len(), t.len());
    assert_eq!(r.node(Tree::root()).name.as_str(), "C:");
    assert_eq!(r.node(Tree::root()).subtree_size, 300);
    assert_eq!(r.node(Tree::root()).file_count, 2);
    assert_eq!(r.node(users).subtree_size, 300);
    assert_eq!(r.children(Tree::root()).len(), 2);
    assert_eq!(r.path_components(users), vec!["C:", "Users"]);
    assert_eq!(rs.bytes, 300);
    assert_eq!(rs.saved_unix, 42);

    // Hardening: the framed format carries the magic and rejects anything
    // else — empty, junk, a headerless body, or a corrupted magic.
    assert!(bytes.starts_with(b"SECT"));
    assert!(Tree::from_cache_bytes(&[]).is_none());
    assert!(Tree::from_cache_bytes(b"not a sector cache").is_none());
    assert!(Tree::from_cache_bytes(&bytes[6..]).is_none()); // raw postcard body
    let mut bad = bytes.clone();
    bad[0] = b'X';
    assert!(Tree::from_cache_bytes(&bad).is_none());
}

#[test]
fn cache_keeps_every_field() {
    let (mut t, _users, _a, _empty) = sample();
    t.recompute_sizes();
    let s = CacheStats {
        dirs: u64::MAX,
        files: 1,
        bytes: 300,
        saved_unix: 7,
        usn_journal_id: 0xdead_beef,
        usn_next: i64::MIN,
    };
    let (r, rs) = Tree::from_cache_bytes(&t.to_cache_bytes(s).unwrap()).unwrap();
    assert_eq!(rs, s);
    for id in t.ids() {
        let (x, y) = (t.node(id), r.node(id));
        assert_eq!(x.name, y.name);
        assert_eq!(x.parent, y.parent);
        assert_eq!(x.kind, y.kind);
        assert_eq!(x.own_size, y.own_size);
        assert_eq!(x.subtree_size, y.subtree_size);
        assert_eq!(x.file_count, y.file_count);
        assert_eq!(x.children, y.children);
    }
}

/// A cache file's bytes around a body that was encoded field by field.
fn forge(parent: Vec<u32>, own_size: Vec<u64>) -> Vec<u8> {
    let name = vec!["C:".to_string(), "Users".to_string(), "a.txt".to_string()];
    let fields = (1u64, 1u64, 100u64, 0u64, 0u64, 0i64);
    let body = postcard::to_stdvec(&("C:".to_string(), fields, name, parent, vec![0u8, 0, 1], own_size)).unwrap();
    let mut out = b"SECT".to_vec();
    out.extend_from_slice(&2u16.to_le_bytes());
    out.extend_from_slice(&body);
    out
}

#[test]
fn cache_rejects_broken_parent_links() {
    let sizes = vec![0, 0, 100];
    assert!(Tree::from_cache_bytes(&forge(vec![0, 0, 1], sizes.clone())).is_some()); // valid
    assert!(Tree::from_cache_bytes(&forge(vec![0, 0, 7], sizes.clone())).is_none()); // out of range → would panic
    assert!(Tree::from_cache_bytes(&forge(vec![0, 2, 1], sizes.clone())).is_none()); // cycle → would loop forever
    assert!(Tree::from_cache_bytes(&forge(vec![1, 0, 1], sizes)).is_none()); // root not its own parent
}

#[test]
fn an_unknown_cache_is_opened_with_care() {
    assert!(matches!(Tree::open_cache(&forge(vec![0, 0, 1], vec![0, 0, 100])), CacheOpen::Loaded(_, _)));
    assert!(matches!(Tree::open_cache(&forge(vec![0, 0, 7], vec![0, 0, 100])), CacheOpen::Rejected));
    assert!(matches!(Tree::open_cache(b"SECT\x02\x00"), CacheOpen::Rejected));
    assert!(matches!(Tree::open_cache(b"nonsense"), CacheOpen::Rejected));
    let heavy = forge(vec![0, 0, 1], vec![0, u64::MAX, 1]);
    assert!(matches!(Tree::open_cache(&heavy), CacheOpen::TooLarge));
    // A row too few in one column.
    assert!(matches!(Tree::open_cache(&forge(vec![0, 0], vec![0, 0, 1])), CacheOpen::Rejected));
}

#[test]
fn format_versions_are_told_apart() {
    assert_eq!(Tree::CACHE_FORMAT, 2);
    assert_eq!(Tree::cache_format_version(b"SECT\x02\x00"), Some(2));
    assert_eq!(Tree::cache_format_version(b"SECT\x01\x01rest"), Some(257));
    assert_eq!(Tree::cache_format_version(b"SECX\x02\x00"), None);
    assert_eq!(Tree::cache_format_version(b"SECT\x02"), None);
    let mut old = forge(vec![0, 0, 1], vec![0, 0, 100]);
    old[4] = 1;
    assert!(Tree::from_cache_bytes(&old).is_none());
}

#[test]
fn records_rebuild_kinds_and_children() {
    let rec = CacheRecord {
        root_name: "r".to_string(),
        stats: stats(),
        name: vec!["r".to_string(), "d".to_string(), "f".to_string(), "g".to_string()],
        parent: vec![0, 0, 1, 0],
        kind: vec![0, 9, 1, 1],
        own_size: vec![0, 0, 5, 7],
    };
    assert!(rec.is_sound() && rec.fits());
    let (t, _) = rec.rebuild().unwrap();
    let ids = t.ids();
    assert_eq!(t.node(ids[1]).kind, NodeKind::Dir); // any byte but 1
    assert_eq!(t.children(ids[0]), &[ids[1], ids[3]]);
    assert_eq!(t.node(ids[0]).subtree_size, 12);
    assert_eq!(t.node(ids[0]).file_count, 2);
}

#[test]
fn find_descendant_walks_by_name() {
    let mut t = Tree::new("C:");
    let users = t.add_child(Tree::root(), "Users", NodeKind::Dir, 0);
    let docs = t.add_child(users, "Docs", NodeKind::Dir, 0);

    assert_eq!(t.find_descendant(Tree::root(), &[]), Some(Tree::root()));
    assert_eq!(t.find_descendant(Tree::root(), &["Users"]), Some(users));
    // Case-insensitive (matches Windows).
    assert_eq!(t.find_descendant(Tree::root(), &["users", "docs"]), Some(docs));
    // A component that isn't there ends the walk.
    assert_eq!(t.find_descendant(Tree::root(), &["Users", "Nope"]), None);
}

#[test]
fn find_descendant_is_unicode_case_insensitive() {
    let mut t = Tree::new("Y:");
    let elan = t.add_child(Tree::root(), "Élan", NodeKind::Dir, 0);
    // A non-ASCII uppercase letter must still match its lowercase form.
    assert_eq!(t.find_descendant(Tree::root(), &["élan"]), Some(elan));
    assert_eq!(t.find_descendant(Tree::root(), &["ÉLAN"]), Some(elan));
    assert_eq!(t.find_descendant(Tree::root(), &["elan"]), None); // not a match
}

#[test]
fn the_oldest_of_several_matches_is_found() {
    let mut t = Tree::new("/");
    let first = t.add_child(Tree::root(), "same", NodeKind::Dir, 0);
    let _second = t.add_child(Tree::root(), "SAME", NodeKind::Dir, 0);
    assert_eq!(t.find_descendant(Tree::root(), &["Same"]), Some(first));
}

#[test]
fn a_final_sigma_is_found_by_its_own_name() {
    let mut t = Tree::new("Y:");
    let s = t.add_child(Tree::root(), "ΟΔΟΣ", NodeKind::Dir, 0);
    assert_eq!(t.find_descendant(Tree::root(), &["ΟΔΟΣ"]), Some(s));
    assert_eq!(t.find_descendant(Tree::root(), &["οδος"]), Some(s));
    assert_eq!(t.find_descendant(Tree::root(), &["οδοσ"]), Some(s)); // with the medial form too
    assert_eq!(find_node(PathStyle::Windows, &t, "Y:\\", "y:\\ΟΔΟΣ"), Some(s));
}

#[test]
fn paths_are_found_in_any_case() {
    let (t, _users, _a, _empty) = sample();
    for id in t.ids() {
        let path: Vec<String> = t.path_components(id).iter().map(|c| c.to_ascii_uppercase()).collect();
        let names: Vec<&str> = path[1..].iter().map(|c| c.as_str()).collect();
        assert_eq!(t.find_descendant(Tree::root(), &names), Some(id));
        assert_eq!(t.find_descendant(id, &[]), Some(id));
    }
}

#[test]
fn an_empty_file_has_its_own_category() {
    let mut t = Tree::new("root");
    let d = t.add_child(Tree::root(), "d", NodeKind::Dir, 0);
    let f = t.add_child(Tree::root(), "empty.mp4", NodeKind::File, 0);
    let dom = t.dominant_categories();
    assert_eq!(dom[f.index()], FileCategory::Video);
    assert_eq!(dom[d.index()], FileCategory::Other);
    assert_eq!(dom[0], FileCategory::Other); // a directory with no sized files
}

#[test]
fn nodes_are_found_by_their_own_path() {
    let (t, _users, _a, _empty) = sample();
    for id in t.ids() {
        let path = t.path_components(id);
        assert_eq!(t.find_descendant(Tree::root(), &path[1..]), Some(id));
    }
}

#[test]
fn dominant_category_by_bytes() {
    // movies/ has one big video and one tiny image → dominant is Video.
    let mut t = Tree::new("root");
    let movies = t.add_child(Tree::root(), "movies", NodeKind::Dir, 0);
    t.add_child(movies, "film.mp4", NodeKind::File, 1000);
    t.add_child(movies, "thumb.jpg", NodeKind::File, 10);
    let empty = t.add_child(Tree::root(), "empty", NodeKind::Dir, 0);
    t.recompute_sizes();
    let dom = t.dominant_categories();
    assert_eq!(dom[movies.index()], FileCategory::Video);
    assert_eq!(dom[Tree::root().index()], FileCategory::Video);
    assert_eq!(dom[empty.index()], FileCategory::Other); // no sized files
    assert_eq!(t.dominant_categories_in(PathStyle::Windows), dom);
}

#[test]
fn ties_go_to_the_first_in_the_legend() {
    assert_eq!(dominant_of(&[0, 5, 5, 0, 0, 0, 0, 5]), FileCategory::Image);
    assert_eq!(dominant_of(&[0; 8]), FileCategory::Other);
    assert_eq!(dominant_of(&[1, 0, 0, 0, 0, 0, 9, 8]), FileCategory::System);
}

#[test]
fn path_reconstruction() {
    let (t, _users, a, empty) = sample();
    assert_eq!(t.path_components(a), vec!["C:", "Users", "a.txt"]);
    assert_eq!(t.path_components(empty), vec!["C:", "Empty"]);
    assert_eq!(t.path_components(Tree::root()), vec!["C:"]);
}

#[test]
fn a_new_tree_is_its_root() {
    let t = Tree::new("Y:\\");
    assert_eq!(t.len(), 1);
    assert!(!t.is_empty());
    assert_eq!(t.node(Tree::root()).name, "Y:\\");
    assert_eq!(t.node(Tree::root()).parent, Tree::root());
    assert_eq!(t.ids(), vec![Tree::root()]);
}

#[test]
fn totals_add_up_level_by_level() {
    let mut t = Tree::new("r");
    let a = t.add_child_propagating(Tree::root(), "a", NodeKind::Dir, 0);
    let b = t.add_child_propagating(a, "b", NodeKind::Dir, 0);
    t.add_child_propagating(b, "x", NodeKind::File, 5);
    t.add_child_propagating(Tree::root(), "y", NodeKind::File, 7);
    t.add_child_propagating(a, "z", NodeKind::File, 9);
    for id in t.ids() {
        let n = t.node(id);
        let kids = t.children(id);
        assert_eq!(n.subtree_size, n.own_size + kids.iter().map(|c| t.node(*c).subtree_size).sum::<u64>());
        let own = u64::from(n.kind == NodeKind::File);
        assert_eq!(n.file_count, own + kids.iter().map(|c| t.node(*c).file_count).sum::<u64>());
    }
}
