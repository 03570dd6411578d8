use sector::explorer::Explorer;
use sector::location::{
    breadcrumb_segments, cache_file_name, cache_name_for, canonical_drive_case, joined_path, name_of,
    normalize_cache_key, reroot, same_folder, Crumb, DragFiles,
};
use sector::names::{unique_dest, unique_new_folder_name, validate_name_syntax};
use sector::paths::{
    extension, file_name, file_stem, join, native_style, parent, same_path, starts_with, strip_prefix, style_of_separator, PathStyle,
};
use std::path::Path;

const UNIX: PathStyle = PathStyle::Unix;
const WIN: PathStyle = PathStyle::Windows;

fn drag(paths: &[&str]) -> DragFiles {
    DragFiles { paths: paths.iter().map(|p| p.to_string()).collect() }
}

fn pairs(v: Vec<Crumb>) -> Vec<(String, String)> {
    v.into_iter().map(|c| (c.label, c.path)).collect()
}

fn pair(a: &str, b: &str) -> (String, String) {
    (a.to_string(), b.to_string())
}

#[test]
fn cache_key_ignores_trailing_separators_and_case() {
    assert_eq!(normalize_cache_key("Y:"), "y:\\");
    assert_eq!(normalize_cache_key("Y:\\"), "y:\\");
    assert_eq!(normalize_cache_key("Y:\\Media"), "y:\\media");
    assert_eq!(normalize_cache_key("Y:\\Media\\"), "y:\\media"); // trailing sep
    assert_eq!(normalize_cache_key("y:/media/"), "y:\\media"); // forward slashes
    assert_eq!(normalize_cache_key("\\\\nas\\Media\\"), "\\\\nas\\media"); // UNC
}

#[test]
fn keys_of_odd_paths() {
    assert_eq!(normalize_cache_key("  C:\\ \u{a0}"), "c:\\");
    assert_eq!(normalize_cache_key("\\\\\\"), "\\");
    assert_eq!(normalize_cache_key(""), "");
    assert_eq!(normalize_cache_key("D:\\ÉLAN\\"), "d:\\élan");
    assert!(same_folder("C:/Users", "c:\\users\\"));
    for s in ["Y:", "Y:\\Media", "\\\\nas\\Media", "D:\\ÉLAN\\ΟΔΟΣ", "Σ:"] {
        let k = normalize_cache_key(s);
        assert_eq!(k.ends_with('\\'), s.ends_with(':'));
        let turned = s.replace('\\', "/");
        for t in [k.clone(), format!("{s}\\"), format!("{s}/"), s.to_ascii_uppercase(), turned] {
            assert_eq!(normalize_cache_key(&t), k);
        }
    }
    // A bare separator is its own key; so is a key with a character whose
    // lowercase is longer than it.
    assert_eq!(normalize_cache_key("//"), "\\");
    assert_eq!(normalize_cache_key("E:\\İ\\"), "e:\\i\u{307}");
    assert_eq!(normalize_cache_key("e:\\i\u{307}"), "e:\\i\u{307}");
    // White space that a separator stood behind is cut from the key in turn.
    assert_eq!(normalize_cache_key("E:\\a \\"), "e:\\a ");
    assert_eq!(normalize_cache_key("e:\\a "), "e:\\a");
    assert!(!same_folder("C:\\Users", "C:\\Users2"));
}

#[test]
fn breadcrumb_drive_paths() {
    let segs = breadcrumb_segments(r"C:\Users\Docs");
    assert_eq!(
        pairs(segs),
        vec![pair("C:", r"C:\"), pair("Users", r"C:\Users"), pair("Docs", r"C:\Users\Docs")]
    );
    // Drive root stays a root ("C:\", not the drive-relative "C:").
    let root = breadcrumb_segments(r"C:\");
    assert_eq!(pairs(root), vec![pair("C:", r"C:\")]);
}

#[test]
fn breadcrumb_unc_paths() {
    let segs = breadcrumb_segments(r"\\nas\Media\Manga");
    assert_eq!(
        pairs(segs),
        vec![pair(r"\\nas\Media", r"\\nas\Media"), pair("Manga", r"\\nas\Media\Manga")]
    );
    // A malformed \\server with no share yields nothing to click.
    assert!(breadcrumb_segments(r"\\server").is_empty());
}

#[test]
fn a_crumb_has_the_crumbs_up_to_it() {
    for dir in [r"C:\Users\Docs\x", r"c:/a//b\\c/", r"C:\", r"\\nas\Media\Manga\1", r"//nas//Media/", r"a\b"] {
        let all = pairs(breadcrumb_segments(dir));
        for i in 0..all.len() {
            assert_eq!(pairs(breadcrumb_segments(&all[i].1)), all[..=i].to_vec());
            if i > 0 {
                let before = all[i - 1].1.trim_end_matches('\\');
                assert_eq!(all[i].1, format!("{before}\\{}", all[i].0));
            }
        }
    }
    let last = |dir: &str| breadcrumb_segments(dir).pop().unwrap().path;
    assert_eq!(last(r"c:/a//b\\c/"), r"c:\a\b\c");
    assert_eq!(last(r"//nas//Media///x/"), r"\\nas\Media\x");
    assert_eq!(last("D:"), r"D:\");
}

#[test]
fn breadcrumbs_take_either_slash() {
    assert_eq!(pairs(breadcrumb_segments("/a//b/")), vec![pair("a", "a"), pair("b", r"a\b")]);
    assert!(breadcrumb_segments("").is_empty());
}

#[test]
fn drag_payload_refuses_self_and_same_folder_drops() {
    let d = drag(&["/a/x", "/a/y.txt"]);
    assert!(d.can_drop_into(UNIX, "/b")); // elsewhere
    assert!(d.can_drop_into(UNIX, "/a/z")); // a sibling folder
    assert!(!d.can_drop_into(UNIX, "/a")); // where they already are — a no-op
    assert!(!d.can_drop_into(UNIX, "/a/x")); // onto one of themselves
    assert!(!d.can_drop_into(UNIX, "/a/x/deep")); // inside one of themselves
    // Items from different folders: /a is no longer "where they all are".
    let d2 = drag(&["/a/x", "/c/y"]);
    assert!(d2.can_drop_into(UNIX, "/a"));
}

#[test]
fn a_mixed_drag_may_go_to_one_of_its_folders() {
    let d = drag(&["/a/x", "/b/y"]);
    assert!(d.can_drop_into(UNIX, "/a"));
    assert!(!drag(&[]).can_drop_into(UNIX, "/a"));
    assert!(!drag(&[r"C:\a\x"]).can_drop_into(WIN, r"c:/a"));
}

#[test]
fn reroot_follows_renames() {
    let (from, to) = ("/x/old", "/x/new");
    assert_eq!(reroot(UNIX, "/x/old", from, to), Some("/x/new".to_string())); // the folder itself
    assert_eq!(reroot(UNIX, "/x/old/a/b", from, to), Some("/x/new/a/b".to_string())); // inside it
    assert_eq!(reroot(UNIX, "/x/older", from, to), None); // a sibling with a common prefix is NOT inside
    assert_eq!(reroot(UNIX, "/y", from, to), None);
}

#[test]
fn rerooting_there_and_back_gives_the_path_again() {
    for (style, path, from, to) in [
        (UNIX, "/x/old/a/b", "/x/old", "/"),
        (UNIX, "/x/old/a/../b/./c/", "/x//old/", "/y/z"),
        (UNIX, "/x/old", "/x/old", "/q"),
        (WIN, r"c:\old\a/b", r"C:\old", r"\\srv\share"),
        (WIN, r"\\srv\share\a", r"\\srv\share\", r"D:\"),
        (WIN, r"\\.\PIPE\a\b", r"\\.\PIPE\a", r"D:\x"),
        (WIN, r"\\?\C:\a\b\c", r"\\?\C:\a", r"D:\x"),
        (WIN, r"D:\x\b/c", r"D:\x", r"\\?\UNC\srv\share\.\y"),
        (WIN, r"\\?\vol\a\\b", r"\\?\vol", r"\\?\UNC\srv\share"),
    ] {
        let there = reroot(style, path, from, to).unwrap();
        assert!(starts_with(style, &there, to), "{there}");
        assert!(same_path(style, &reroot(style, &there, to, from).unwrap(), path), "{there}");
    }
    // A verbatim path keeps a slash in a name, and no other path does.
    assert_eq!(reroot(WIN, r"\\?\C:\a\b/c", r"\\?\C:\a", r"\\?\D:\x"), Some(r"\\?\D:\x\b\c".to_string()));
    // A name that is written like a drive stands for itself.
    assert_eq!(reroot(WIN, r"\x\C:y", r"\x", r"D:\z"), Some("C:y".to_string()));
}

#[test]
fn drive_letter_is_canonicalised_to_upper_case() {
    assert_eq!(canonical_drive_case(r"y:\Media"), r"Y:\Media");
    assert_eq!(canonical_drive_case(r"y:\"), r"Y:\");
    assert_eq!(canonical_drive_case(r"Y:\Media"), r"Y:\Media"); // untouched
    assert_eq!(canonical_drive_case(r"\\nas\media"), r"\\nas\media"); // UNC untouched
    assert_eq!(canonical_drive_case("/tmp/x"), "/tmp/x");
    // Through navigation: the location and history entries come out canonical.
    let mut app = Explorer::new(WIN, r"C:\");
    app.navigate_to(r"y:\Media");
    assert_eq!(app.pane.current_dir, r"Y:\Media");
}

#[test]
fn names_for_messages() {
    assert_eq!(name_of(WIN, r"C:\a\b.txt"), "b.txt");
    assert_eq!(name_of(WIN, r"C:\"), r"C:\");
    assert_eq!(name_of(UNIX, "/"), "/");
}

#[test]
fn trees_paths_are_joined_without_doubled_separators() {
    assert_eq!(joined_path(WIN, &["Y:\\", "Media", "a/"]), r"Y:\Media\a");
    assert_eq!(joined_path(UNIX, &["/", "home"]), "/home");
    assert_eq!(joined_path(UNIX, &[]), "");
}

#[test]
fn cache_files_are_named_by_hash() {
    assert_eq!(cache_file_name(0), "0000000000000000.bin");
    assert_eq!(cache_file_name(0xdead_beef_0123_4567), "deadbeef01234567.bin");
    assert_eq!(cache_name_for("Y:"), cache_name_for("y:\\"));
    assert_ne!(cache_name_for("Y:"), cache_name_for("Z:"));
}

#[test]
fn paths_agree_with_the_standard_library() {
    let style = native_style();
    assert_eq!(style, style_of_separator(std::path::MAIN_SEPARATOR));
    assert_eq!((style_of_separator('\\'), style_of_separator('/')), (WIN, UNIX));
    let samples = [
        "", "/", "//", "a", "a/", "/a", "/a/", "/a/b", "a/b/c", "./a", "a/./b", "a/..", "..", ".", "/..", "a//b",
        "/a/b/../c", "./", "a/.", "x y/z", "a.b", ".a", "..a", "a.", "a.b.c", "/a.d/b", "a/./", "a/../b/.", "///a", "C:/a",
        "a\\b", "/é/Ü.x",
    ];
    for p in samples {
        let sp = Path::new(p);
        assert_eq!(parent(style, p), sp.parent().map(|x| x.to_str().unwrap().to_string()), "parent {p}");
        assert_eq!(file_name(style, p), sp.file_name().map(|x| x.to_str().unwrap().to_string()), "name {p}");
        assert_eq!(file_stem(style, p), sp.file_stem().map(|x| x.to_str().unwrap().to_string()), "stem {p}");
        assert_eq!(extension(style, p), sp.extension().map(|x| x.to_str().unwrap().to_string()), "extension {p}");
        for q in samples {
            let sq = Path::new(q);
            assert_eq!(same_path(style, p, q), sp == sq, "{p} == {q}");
            assert_eq!(starts_with(style, p, q), sp.starts_with(sq), "{p} under {q}");
            let rest = sp.strip_prefix(sq).ok().map(|x| x.to_str().unwrap().to_string());
            assert_eq!(strip_prefix(style, p, q), rest, "{p} minus {q}");
            assert_eq!(join(style, p, q), sp.join(sq).to_str().unwrap(), "{p} + {q}");
        }
    }
}

#[test]
fn windows_paths_have_prefixes() {
    assert_eq!(parent(WIN, r"C:\a"), Some(r"C:\".to_string()));
    assert_eq!(parent(WIN, r"C:\"), None);
    assert_eq!(parent(WIN, r"C:a"), Some("C:".to_string()));
    assert_eq!(parent(WIN, r"\\srv\share\x"), Some(r"\\srv\share\".to_string()));
    assert_eq!(parent(WIN, r"\\srv\share"), None);
    assert_eq!(file_name(WIN, r"C:\a/b"), Some("b".to_string()));
    assert_eq!(file_name(WIN, r"\\?\C:\a/b"), Some("a/b".to_string()));
    assert!(same_path(WIN, r"c:\a\b", "C:/a//b/"));
    assert!(!same_path(WIN, r"C:\a", r"C:\A"));
    assert!(starts_with(WIN, r"\\srv\share\x", "//srv/share"));
    assert!(!starts_with(WIN, r"C:\a", r"C:a"));
    assert_eq!(join(WIN, r"C:", "a"), "C:a");
    assert_eq!(join(WIN, r"C:\a", "b"), r"C:\a\b");
    assert_eq!(join(WIN, r"C:\a", r"\b"), r"C:\b");
    assert_eq!(join(WIN, r"C:\a", r"D:b"), "D:b");
    assert_eq!(join(WIN, r"\\?\C:\a", r"..\b"), r"\\?\C:\b");
    assert_eq!(strip_prefix(WIN, r"C:\a\b\", r"c:\a"), Some("b".to_string()));
}

#[test]
fn windows_names_are_validated() {
    assert_eq!(validate_name_syntax("  ok name "), Ok("ok name".to_string()));
    assert_eq!(validate_name_syntax("  "), Err("Name can't be empty.".to_string()));
    assert_eq!(validate_name_syntax("a/b"), Err("Name can't contain \\ / : * ? \" < > |".to_string()));
    assert_eq!(validate_name_syntax(".."), Err("That name is reserved.".to_string()));
    assert_eq!(validate_name_syntax("foo."), Err("Name can't end with a dot.".to_string()));
    assert_eq!(validate_name_syntax("con.txt"), Err("\"con\" is a name reserved by Windows.".to_string()));
    assert_eq!(validate_name_syntax("LPT9 .x"), Err("\"LPT9\" is a name reserved by Windows.".to_string()));
    assert_eq!(validate_name_syntax("com0"), Ok("com0".to_string()));
    assert_eq!(validate_name_syntax("COM10"), Ok("COM10".to_string()));
}

#[test]
fn new_folders_get_the_first_free_name() {
    let names = |v: &[&str]| v.iter().map(|s| s.to_string()).collect::<Vec<_>>();
    assert_eq!(unique_new_folder_name(&names(&["x"])), "New folder");
    assert_eq!(unique_new_folder_name(&names(&["NEW folder"])), "New folder (2)");
    assert_eq!(unique_new_folder_name(&names(&["new folder", "New folder (2)"])), "New folder (3)");
    let mut all = names(&["New folder"]);
    all.extend((2..1_000).map(|i| format!("New folder ({i})")));
    assert_eq!(unique_new_folder_name(&all), "New folder (1000)");
}

#[test]
fn destinations_never_clash() {
    let free = |taken: &[&str], name: &str| {
        let t: Vec<String> = taken.iter().map(|s| s.to_string()).collect();
        unique_dest(UNIX, "/d", name, move |p: &str| t.iter().any(|x| x == p))
    };
    assert_eq!(free(&[], "a.txt"), "/d/a.txt");
    assert_eq!(free(&["/d/a.txt"], "a.txt"), "/d/a - Copy.txt");
    assert_eq!(free(&["/d/a.txt", "/d/a - Copy.txt"], "a.txt"), "/d/a - Copy (2).txt");
    assert_eq!(free(&["/d/dir"], "dir"), "/d/dir - Copy");
    assert_eq!(free(&["/d/.cfg"], ".cfg"), "/d/.cfg - Copy");
    // However many are taken, the next one is asked about.
    let late = |p: &str| p != "/d/a - Copy (100003).b";
    assert_eq!(unique_dest(UNIX, "/d", "a.b", late), "/d/a - Copy (100003).b");
}
