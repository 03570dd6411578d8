use sector::browse::{list_dir, stat_entry, Entry, RawEntry, RawMetadata};
use sector::details::{properties_of, row_tooltip, Field};
use sector::gestures::{history_menu, typed_address, EnterAction, ListKey};
use sector::listing::{entry_kind, entry_size, filter_entries, sort_entries, FolderSize, SortKey, Sorting};
use sector::order::Rows;
use sector::pane::{Pane, Pick, Visit};
use sector::paths::PathStyle;
use sector::time::Stamp;

const UNIX: PathStyle = PathStyle::Unix;

fn entry(name: &str) -> Entry {
    Entry {
        name: name.into(),
        is_dir: false,
        size: 0,
        modified: None,
        created: None,
        is_symlink: false,
        is_hidden: false,
        readonly: false,
    }
}

fn file(name: &str, size: u64) -> Entry {
    Entry { size, ..entry(name) }
}

fn folder(name: &str) -> Entry {
    Entry { is_dir: true, ..entry(name) }
}

fn names(es: &[Entry]) -> Vec<&str> {
    es.iter().map(|e| e.name.as_str()).collect()
}

fn at(secs: i64) -> Stamp {
    Stamp { secs, nanos: 0 }
}

fn pane(es: Vec<Entry>) -> Pane {
    let mut p = Pane::new(UNIX, "/a");
    p.reload_entries(Ok(es), None, None, false);
    p
}

fn sel(p: &Pane) -> Vec<&str> {
    let mut v: Vec<&str> = p.sel.iter().map(|s| s.as_str()).collect();
    v.sort();
    v
}

#[test]
fn sort_key_round_trips_through_its_name() {
    for k in [SortKey::Name, SortKey::Size, SortKey::Kind, SortKey::Modified] {
        assert!(SortKey::from_name(k.name()) == k);
    }
    assert!(SortKey::from_name("") == SortKey::Name); // old settings files
}

#[test]
fn listings_are_sorted_by_column() {
    let sizes = Some(vec![
        FolderSize { name: "big".to_string(), bytes: 7 },
        FolderSize { name: "big".to_string(), bytes: 900 },
    ]);
    let es = vec![
        file("b.txt", 20),
        folder("Zoo"),
        Entry { modified: Some(at(5)), ..file("A.mp3", 300) },
        folder("Big"),
        Entry { modified: Some(at(9)), ..file("c.jpg", 20) },
    ];
    let sort = |key: SortKey, ascending: bool| {
        let how = Sorting { style: UNIX, key, ascending };
        sort_entries(&how, &sizes, &es).iter().map(|e| e.name.clone()).collect::<Vec<_>>()
    };
    assert_eq!(sort(SortKey::Name, true), ["Big", "Zoo", "A.mp3", "b.txt", "c.jpg"]);
    assert_eq!(sort(SortKey::Name, false), ["Zoo", "Big", "c.jpg", "b.txt", "A.mp3"]);
    // One size: the order they came in.
    assert_eq!(sort(SortKey::Size, true), ["Zoo", "Big", "b.txt", "c.jpg", "A.mp3"]);
    assert_eq!(sort(SortKey::Size, false), ["Big", "Zoo", "A.mp3", "b.txt", "c.jpg"]);
    assert_eq!(sort(SortKey::Kind, true), ["Zoo", "Big", "A.mp3", "b.txt", "c.jpg"]);
    assert_eq!(sort(SortKey::Modified, true), ["Zoo", "Big", "b.txt", "A.mp3", "c.jpg"]);
    assert_eq!(entry_size(&sizes, &es[3]), 900);
    assert_eq!(entry_size(&None, &es[3]), 0);
    assert_eq!(entry_kind(UNIX, &es[2]), "Audio");
    assert_eq!(entry_kind(UNIX, &es[1]), "Folder");
}

#[test]
fn rows_keep_their_places_on_a_tie() {
    let rows = Rows {
        ahead: vec![false, true, false, false],
        keys: vec![vec![2], vec![9], vec![1, 5], vec![2]],
        ascending: true,
    };
    assert_eq!(rows.sorted(), vec![1, 2, 0, 3]);
    let down = Rows { ascending: false, ..rows };
    assert_eq!(down.sorted(), vec![1, 0, 3, 2]);
}

#[test]
fn the_filter_narrows_without_regard_to_case() {
    let es = vec![file("Read me.TXT", 1), Entry { is_hidden: true, ..file("hidden.txt", 1) }, file("b.bin", 1)];
    assert_eq!(names(&filter_entries(&es, false, "  .txt ")), ["Read me.TXT"]);
    assert_eq!(names(&filter_entries(&es, true, "TXT")), ["Read me.TXT", "hidden.txt"]);
    assert_eq!(names(&filter_entries(&es, false, "")), ["Read me.TXT", "b.bin"]);
    assert!(filter_entries(&es, true, "zzz").is_empty());
}

#[test]
fn listing_shows_what_the_system_says() {
    let meta = |attributes: Option<u32>| RawMetadata {
        len: 123,
        attributes,
        readonly: true,
        modified: Some(at(1)),
        created: None,
    };
    let raw = |name: &str, is_dir: bool, metadata: Option<RawMetadata>| {
        Some(RawEntry { name: name.to_string(), is_dir, is_link: false, metadata })
    };
    let es = list_dir(&vec![
        raw("sub", true, Some(meta(Some(0x10)))),
        None,
        raw("a.txt", false, Some(meta(Some(0x2)))),
        raw("gone", false, None),
    ]);
    assert_eq!(names(&es), ["sub", "a.txt", "gone"]);
    assert!(es[0].is_dir && es[0].size == 0 && !es[0].is_hidden);
    assert!(es[1].size == 123 && es[1].is_hidden && es[1].readonly && es[1].modified == Some(at(1)));
    assert!(es[2].size == 0 && es[2].modified.is_none());
    let link = RawEntry { name: "l".to_string(), is_dir: true, is_link: false, metadata: Some(meta(Some(0x404))) };
    let e = stat_entry(&link);
    assert!(e.is_symlink && e.is_hidden); // a reparse point, and a system file
}

#[test]
fn history_restores_the_item_you_were_on() {
    let mut app = sector::explorer::Explorer::new(UNIX, "/a");
    app.pane.entries = vec![entry("one"), entry("two")];
    app.pane.lead = Some(1);

    app.navigate_to("/b");
    assert_eq!(app.pane.back_stack.len(), 1);
    assert_eq!(app.pane.back_stack[0].dir, "/a");
    assert_eq!(app.pane.back_stack[0].item.as_deref(), Some("two"));
    assert!(app.pane.fwd_stack.is_empty());

    // In /b the cursor is on nothing; Back must return to /a AND re-select "two".
    app.pane.entries.clear();
    app.pane.lead = None;
    app.go_back();
    assert_eq!(app.pane.current_dir, "/a");
    let pick = app.pane.select_after_reload.as_ref().unwrap();
    assert_eq!((pick.dir.as_str(), pick.name.as_str()), ("/a", "two"));
    assert_eq!(app.pane.fwd_stack.len(), 1);
    assert_eq!((app.pane.fwd_stack[0].dir.as_str(), &app.pane.fwd_stack[0].item), ("/b", &None));

    app.go_forward();
    assert_eq!(app.pane.current_dir, "/b");
    assert_eq!(app.pane.back_stack.len(), 1);
    assert_eq!((app.pane.back_stack[0].dir.as_str(), &app.pane.back_stack[0].item), ("/a", &None));
}

#[test]
fn history_menus_list_the_newest_folders() {
    let stack: Vec<Visit> = (0..20).map(|n| Visit { dir: format!("/{n}"), item: None }).collect();
    let menu = history_menu(&stack);
    assert_eq!(menu.len(), 12);
    assert_eq!((menu[0].as_str(), menu[11].as_str()), ("/19", "/8"));
    assert!(history_menu(&Vec::new()).is_empty());
}

#[test]
fn going_up_picks_the_folder_that_was_left() {
    let mut p = Pane::new(UNIX, "/a/b");
    assert!(p.go_up());
    assert_eq!(p.current_dir, "/a");
    p.reload_entries(Ok(vec![folder("z"), folder("B")]), Some((10, 20)), None, false);
    assert_eq!(sel(&p), ["B"]); // found in any case
    assert_eq!(p.lead, Some(0));
    assert_eq!(p.status_summary, "2 items · 2 folders · 0 files · 0 B · 10 B free of 20 B");
    assert!(p.go_up());
    assert!(!p.go_up());
    assert_eq!(p.current_dir, "/");
}

#[test]
fn an_unreadable_folder_says_why() {
    let mut p = pane(vec![file("x", 1)]);
    p.reload_entries(Err("no access".to_string()), None, None, false);
    assert_eq!(p.entries_err.as_deref(), Some("no access"));
    assert!(p.entries.is_empty() && p.all_entries.is_empty());
}

#[test]
fn clicks_select_ranges_and_toggle() {
    let mut p = pane(vec![file("a", 1), file("b", 2), file("c", 3), file("d", 4)]);
    p.click(1, false, false);
    p.click(3, true, false);
    assert_eq!(sel(&p), ["b", "c", "d"]);
    p.click(2, false, true);
    assert_eq!(sel(&p), ["b", "d"]);
    p.click(2, false, true);
    assert_eq!(sel(&p), ["b", "c", "d"]);
    // A menu on a selected row keeps the selection, on another one moves it.
    p.take_row(1);
    assert_eq!(sel(&p), ["b", "c", "d"]);
    assert_eq!(p.drag_paths(1), ["/a/b", "/a/c", "/a/d"]);
    assert_eq!(p.drag_paths(0), ["/a/a"]);
    p.take_row(0);
    assert_eq!(sel(&p), ["a"]);
    p.select_all();
    assert_eq!(sel(&p), ["a", "b", "c", "d"]);
    assert_eq!((p.lead, p.anchor), (Some(3), Some(0)));
    p.click(9, false, false);
    assert!(p.sel.is_empty());
}

#[test]
fn keys_move_the_cursor() {
    let mut p = pane((0..40).map(|i| file(&format!("f{i:02}"), 1)).collect());
    assert!(p.move_lead(ListKey::Down, false, false));
    assert_eq!((p.lead, sel(&p)), (Some(0), vec!["f00"]));
    assert!(!p.move_lead(ListKey::Up, false, false));
    assert!(p.move_lead(ListKey::PageDown, false, false));
    assert_eq!(p.lead, Some(12));
    assert!(p.move_lead(ListKey::Down, true, false));
    assert_eq!(sel(&p), ["f12", "f13"]);
    assert!(p.move_lead(ListKey::End, false, true)); // the cursor alone
    assert_eq!((p.lead, sel(&p)), (Some(39), vec!["f12", "f13"]));
    assert_eq!(p.outlined(), Some(39));
    assert!(!p.move_lead(ListKey::PageDown, false, false));
    assert!(p.move_lead(ListKey::PageUp, false, false));
    assert_eq!(p.lead, Some(27));
    assert_eq!(p.outlined(), None);
    assert!(p.move_lead(ListKey::Home, false, false));
    assert_eq!(p.scroll_target, Some(0));
    assert!(!pane(Vec::new()).move_lead(ListKey::Home, false, false));
}

#[test]
fn a_band_adds_the_rows_it_touches() {
    let mut p = pane(vec![file("a", 1), file("b", 2), file("c", 3)]);
    p.click(0, false, false);
    let base = p.band_base(true);
    p.band(&base, &vec![2, 1]);
    assert_eq!(sel(&p), ["a", "b", "c"]);
    assert_eq!((p.anchor, p.lead), (Some(1), Some(2)));
    p.band(&base, &Vec::new());
    assert_eq!(sel(&p), ["a"]);
    assert!(p.band_base(false).is_empty());
}

#[test]
fn a_column_head_sorts_and_turns_round() {
    let mut p = pane(vec![file("a", 1), file("b", 3), file("c", 2)]);
    p.click(1, false, false);
    p.sort_by(SortKey::Size, false);
    assert_eq!(names(&p.entries), ["a", "c", "b"]);
    assert_eq!((p.lead, p.scroll_target), (Some(2), Some(2))); // still on b
    p.sort_by(SortKey::Size, false);
    assert_eq!(names(&p.entries), ["b", "c", "a"]);
    assert_eq!(p.column_head("Size", SortKey::Size), "Size ⏷");
    assert_eq!(p.column_head("Name", SortKey::Name), "Name");
    p.sort_by(SortKey::Name, false);
    assert_eq!(p.column_head("Name", SortKey::Name), "Name ⏶");
}

#[test]
fn a_refresh_keeps_the_cursor() {
    let mut p = pane(vec![file("a", 1), file("b", 2)]);
    p.click(1, false, false);
    p.refresh();
    assert!(p.entries_dirty && p.sel.is_empty());
    p.reload_entries(Ok(vec![file("0", 1), file("a", 1), file("b", 2)]), None, None, false);
    assert_eq!((p.lead, sel(&p)), (Some(2), vec!["b"]));
}

#[test]
fn a_pick_is_made_only_in_its_folder() {
    let mut p = pane(Vec::new());
    p.select_after_reload = Some(Pick { dir: "/other".to_string(), name: "b".to_string() });
    p.reload_entries(Ok(vec![file("b", 2)]), None, None, false);
    assert!(p.sel.is_empty() && p.select_after_reload.is_none());
}

#[test]
fn type_ahead_finds_and_cycles() {
    let mut p = pane(vec![file("Apple", 1), file("beta", 1), file("bravo", 1), file("cat", 1)]);
    assert!(p.type_ahead_list("b", 1000));
    assert_eq!(p.lead, Some(1));
    assert!(p.type_ahead_list("b", 1100)); // the same letter goes on
    assert_eq!(p.lead, Some(2));
    assert!(p.type_ahead_list("b", 1200));
    assert_eq!(p.lead, Some(1));
    assert!(p.type_ahead_list("R", 1300)); // "br"
    assert_eq!(p.lead, Some(2));
    assert!(!p.type_ahead_list("x", 1400)); // "brx"
    assert!(p.type_ahead_list("c", 2400)); // after a pause: "c"
    assert_eq!(p.lead, Some(3));
    assert!(!p.type_ahead_list("", 2500));
}

#[test]
fn enter_opens_files_and_enters_folders() {
    let mut p = pane(vec![folder("d"), folder("e"), file("x.txt", 1), file("y.txt", 1)]);
    assert!(matches!(p.enter(), EnterAction::Nothing));
    p.click(0, false, false);
    assert!(matches!(p.enter(), EnterAction::Enter(d) if d == "/a/d"));
    p.click(1, true, false);
    assert!(matches!(p.enter(), EnterAction::Refused(m) if m == "Enter opens files; select a single folder to enter it."));
    p.select_all();
    assert!(matches!(p.enter(), EnterAction::Open(v) if v == ["/a/x.txt", "/a/y.txt"]));
    let mut many = pane((0..16).map(|i| file(&format!("f{i}"), 1)).collect());
    many.select_all();
    assert!(matches!(many.enter(), EnterAction::Refused(m) if m == "Select 15 or fewer files to open them all at once."));
    assert!(matches!(many.open_row(3), EnterAction::Open(v) if v.len() == 1));
}

#[test]
fn names_are_checked_against_the_listing() {
    let p = pane(vec![file("a.txt", 1), file("B.txt", 1)]);
    assert_eq!(p.validate_name("b.TXT", None), Err("An item with that name already exists.".to_string()));
    assert_eq!(p.validate_name("b.TXT", Some("B.txt")), Ok("b.TXT".to_string()));
    assert_eq!(p.validate_name(" c ", None), Ok("c".to_string()));
    assert_eq!(p.validate_name("", None), Err("Name can't be empty.".to_string()));
    assert_eq!(p.unique_new_folder_name(), "New folder");
}

#[test]
fn typed_addresses_are_completed() {
    assert_eq!(typed_address(" c: "), "c:\\");
    assert_eq!(typed_address("C:\\x "), "C:\\x");
    assert_eq!(typed_address("1:"), "1:");
    assert_eq!(typed_address("ab"), "ab");
}

fn values(f: &[Field]) -> Vec<(&str, &str)> {
    f.iter().map(|x| (x.label, x.value.as_str())).collect()
}

#[test]
fn details_describe_an_entry() {
    let e = Entry {
        modified: Some(at(1_609_459_200)),
        created: Some(at(0)),
        is_hidden: true,
        readonly: true,
        is_symlink: true,
        ..file("Movie.MKV", 1536)
    };
    let now = at(1_609_459_200 + 300);
    assert_eq!(
        values(&properties_of(UNIX, &e, "/v", None, now)),
        vec![
            ("Name", "Movie.MKV"),
            ("Location", "/v"),
            ("Type", "Video  ·  .mkv"),
            ("Size", "1.5 KB (1,536 bytes)"),
            ("Modified", "2021-01-01 00:00 UTC  ·  5m ago"),
            ("Created", "1970-01-01 00:00 UTC"),
            ("Attributes", "Hidden, Read-only, Link / reparse"),
        ]
    );
    assert_eq!(
        row_tooltip(UNIX, &e, &None, now),
        "Movie.MKV\nVideo · 1.5 KB\nModified 2021-01-01 00:00 UTC (5m ago)\nLink / reparse point"
    );
    let d = folder("Docs");
    let plain = properties_of(UNIX, &d, "/v", None, now);
    assert_eq!(
        values(&plain)[2..],
        [("Type", "Folder"), ("Size", "— (scan for folder size)"), ("Attributes", "—")]
    );
    assert_eq!(properties_of(UNIX, &d, "/v", Some(2048), now)[3].value, "2.0 KB (2,048 bytes)");
    let sizes = Some(vec![FolderSize { name: "docs".to_string(), bytes: 1024 }]);
    assert_eq!(row_tooltip(UNIX, &d, &sizes, now), "Docs\nFolder · 1.0 KB");
    assert_eq!(row_tooltip(UNIX, &d, &None, now), "Docs\nFolder");
    assert_eq!(values(&properties_of(UNIX, &file("README", 0), "/", None, now))[2], ("Type", "Other"));
}

#[test]
fn the_status_line_tells_of_the_selection() {
    let mut p = pane(vec![folder("d"), file("x", 1000), Entry { modified: Some(at(0)), ..file("y", 24) }]);
    let now = at(7200);
    assert_eq!(p.selection_text(now), None);
    p.click(2, false, false);
    assert_eq!(p.selection_text(now).as_deref(), Some("y · 24 B · 2h ago"));
    p.click(0, false, false);
    assert_eq!(p.selection_text(now).as_deref(), Some("d"));
    p.folder_sizes = Some(vec![FolderSize { name: "d".to_string(), bytes: 2048 }]);
    assert_eq!(p.selection_text(now).as_deref(), Some("d · 2.0 KB"));
    p.select_all();
    assert_eq!(p.selection_text(now).as_deref(), Some("3 selected · 3.0 KB"));
}

#[test]
fn rows_are_sorted_like_the_standard_library_sorts() {
    // Numbers that repeat, so that equal rows have to keep their order.
    let mut x: u64 = 7;
    let mut next = || {
        x = x.wrapping_mul(6364136223846793005).wrapping_add(1442695040888963407);
        (x >> 33) as i128 % 5
    };
    let keys: Vec<Vec<i128>> = (0..200).map(|i| (0..i % 4).map(|_| next()).collect()).collect();
    let ahead: Vec<bool> = (0..200).map(|i| i % 3 == 0).collect();
    let rows = Rows { ahead: ahead.clone(), keys: keys.clone(), ascending: true };
    let mut want: Vec<usize> = (0..200).collect();
    want.sort_by(|a, b| ahead[*b].cmp(&ahead[*a]).then_with(|| keys[*a].cmp(&keys[*b])));
    assert_eq!(rows.sorted(), want);
    let down = Rows { ascending: false, ..rows };
    want.sort();
    want.sort_by(|a, b| ahead[*b].cmp(&ahead[*a]).then_with(|| keys[*b].cmp(&keys[*a])));
    assert_eq!(down.sorted(), want);
}
