use sector::filetype::FileCategory::{Archive, Audio, Code, Document, Image, Other, System, Video};
use sector::filetype::{categorize, categorize_in, FileCategory};
use sector::paths::PathStyle;

#[test]
fn classifies_common_types() {
    assert_eq!(categorize("movie.MKV"), Video); // case-insensitive
    assert_eq!(categorize("photo.jpg"), Image);
    assert_eq!(categorize("song.flac"), Audio);
    assert_eq!(categorize("Chapter 1.cbz"), Archive); // manga
    assert_eq!(categorize("book.epub"), Document);
    assert_eq!(categorize("main.rs"), Code);
}

#[test]
fn no_extension_is_other() {
    assert_eq!(categorize("README"), Other);
    assert_eq!(categorize(".gitignore"), Other);
    assert_eq!(categorize("weird.qwerty"), Other);
}

#[test]
fn the_last_extension_counts() {
    assert_eq!(categorize("clip.ts"), Video); // a transport stream, not TypeScript
    assert_eq!(categorize("kernel.DLL"), System);
    assert_eq!(categorize("a.rs.zip"), Archive);
    assert_eq!(categorize("trailing."), Other);
    assert_eq!(categorize("dir.mp4/file"), Other);
    assert_eq!(categorize("dir/file.mp4/"), Video);
    assert_eq!(categorize(".."), Other);
    assert_eq!(categorize(""), Other);
    assert_eq!(categorize("é.mp3"), Audio);
}

#[test]
fn separators_follow_the_style() {
    assert_eq!(categorize_in(PathStyle::Unix, "x\\.mp4"), Video);
    assert_eq!(categorize_in(PathStyle::Windows, "x\\.mp4"), Other);
    assert_eq!(categorize_in(PathStyle::Windows, "C:\\a\\b.mp4"), Video);
    assert_eq!(categorize_in(PathStyle::Windows, "C:.mp4"), Other);
    assert_eq!(categorize_in(PathStyle::Unix, "C:.mp4"), Video);
}

#[test]
fn extensions_agree_with_the_standard_library() {
    for name in ["a.b", ".b", "a.", "..", "...", "a/b.c", "a/.c", "a.b/", "a.b/.", "a.b/..", "/", "", ".a.b", "x..y"] {
        let std_ext = std::path::Path::new(name).extension().map(|e| e.to_str().unwrap().to_string());
        assert_eq!(sector::paths::extension(sector::paths::native_style(), name), std_ext, "{name}");
    }
}

#[test]
fn labels_and_places_in_the_legend() {
    assert_eq!(FileCategory::COUNT, FileCategory::ALL.len());
    for (i, c) in FileCategory::ALL.iter().enumerate() {
        assert_eq!(c.index(), i);
    }
    assert_eq!(Video.label(), "Video");
    assert_eq!(Other.label(), "Other");
    assert_eq!(Archive.label(), "Archive");
}
