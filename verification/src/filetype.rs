//! Coarse file-type classification by extension: a small set of broad
//! categories that answer at a glance what kind of stuff takes the space.
use vstd::prelude::*;
use crate::paths::{self, extension, native_style, PathStyle};
use crate::text::{self, same_text, to_ascii_lower_text};

verus! {

/// Broad content categories used for coloring.
#[derive(Clone, Copy, Debug, PartialEq, Eq, Structural)]
pub enum FileCategory {
    Video,
    Image,
    Audio,
    Archive,
    Document,
    Code,
    System,
    Other,
}

/// The name a category goes by in a legend.
pub open spec fn label_spec(c: FileCategory) -> Seq<char> {
    match c {
        FileCategory::Video => "Video"@,
        FileCategory::Image => "Image"@,
        FileCategory::Audio => "Audio"@,
        FileCategory::Archive => "Archive"@,
        FileCategory::Document => "Document"@,
        FileCategory::Code => "Code"@,
        FileCategory::System => "System"@,
        FileCategory::Other => "Other"@,
    }
}

/// The categories in legend order.
pub open spec fn category_at(i: int) -> FileCategory {
    if i == 0 {
        FileCategory::Video
    } else if i == 1 {
        FileCategory::Image
    } else if i == 2 {
        FileCategory::Audio
    } else if i == 3 {
        FileCategory::Archive
    } else if i == 4 {
        FileCategory::Document
    } else if i == 5 {
        FileCategory::Code
    } else if i == 6 {
        FileCategory::System
    } else {
        FileCategory::Other
    }
}

impl FileCategory {
    /// Number of categories.
    pub const COUNT: usize = 8;

    /// All categories, in legend order.
    pub const ALL: [FileCategory; 8] = [
        FileCategory::Video,
        FileCategory::Image,
        FileCategory::Audio,
        FileCategory::Archive,
        FileCategory::Document,
        FileCategory::Code,
        FileCategory::System,
        FileCategory::Other,
    ];

    /// The category's place in the legend.
    pub open spec fn rank(self) -> int {
        match self {
            FileCategory::Video => 0,
            FileCategory::Image => 1,
            FileCategory::Audio => 2,
            FileCategory::Archive => 3,
            FileCategory::Document => 4,
            FileCategory::Code => 5,
            FileCategory::System => 6,
            FileCategory::Other => 7,
        }
    }

    /// The category's place in the legend.
    pub fn index(self) -> (r: usize)
        ensures
            r == self.rank(),
            r < 8,
            category_at(r as int) == self,
    {
        match self {
            FileCategory::Video => 0,
            FileCategory::Image => 1,
            FileCategory::Audio => 2,
            FileCategory::Archive => 3,
            FileCategory::Document => 4,
            FileCategory::Code => 5,
            FileCategory::System => 6,
            FileCategory::Other => 7,
        }
    }

    /// The name the category goes by in a legend.
    pub fn label(self) -> (r: &'static str)
        ensures
            r@ == label_spec(self),
    {
        match self {
            FileCategory::Video => "Video",
            FileCategory::Image => "Image",
            FileCategory::Audio => "Audio",
            FileCategory::Archive => "Archive",
            FileCategory::Document => "Document",
            FileCategory::Code => "Code",
            FileCategory::System => "System",
            FileCategory::Other => "Other",
        }
    }
}

/// Moving pictures. `.ts` counts here (an MPEG transport stream), not as code.
pub open spec fn is_video(e: Seq<char>) -> bool {
    ||| e == "mp4"@
    ||| e == "mkv"@
    ||| e == "avi"@
    ||| e == "mov"@
    ||| e == "wmv"@
    ||| e == "flv"@
    ||| e == "webm"@
    ||| e == "m4v"@
    ||| e == "mpg"@
    ||| e == "mpeg"@
    ||| e == "m2ts"@
    ||| e == "ts"@
    ||| e == "vob"@
    ||| e == "3gp"@
    ||| e == "ogv"@
    ||| e == "rm"@
    ||| e == "rmvb"@
    ||| e == "divx"@
    ||| e == "mts"@
}

/// Pictures.
pub open spec fn is_image(e: Seq<char>) -> bool {
    ||| e == "jpg"@
    ||| e == "jpeg"@
    ||| e == "png"@
    ||| e == "gif"@
    ||| e == "bmp"@
    ||| e == "webp"@
    ||| e == "tif"@
    ||| e == "tiff"@
    ||| e == "heic"@
    ||| e == "heif"@
    ||| e == "raw"@
    ||| e == "cr2"@
    ||| e == "nef"@
    ||| e == "arw"@
    ||| e == "dng"@
    ||| e == "psd"@
    ||| e == "svg"@
    ||| e == "ico"@
    ||| e == "jfif"@
    ||| e == "avif"@
}

/// Sound.
pub open spec fn is_audio(e: Seq<char>) -> bool {
    ||| e == "mp3"@
    ||| e == "flac"@
    ||| e == "wav"@
    ||| e == "aac"@
    ||| e == "ogg"@
    ||| e == "m4a"@
    ||| e == "wma"@
    ||| e == "opus"@
    ||| e == "alac"@
    ||| e == "aiff"@
    ||| e == "aif"@
    ||| e == "ape"@
    ||| e == "mid"@
}

/// Archives, comic archives and disc images among them.
pub open spec fn is_archive(e: Seq<char>) -> bool {
    ||| e == "zip"@
    ||| e == "rar"@
    ||| e == "7z"@
    ||| e == "tar"@
    ||| e == "gz"@
    ||| e == "tgz"@
    ||| e == "bz2"@
    ||| e == "xz"@
    ||| e == "zst"@
    ||| e == "cbz"@
    ||| e == "cbr"@
    ||| e == "iso"@
    ||| e == "cab"@
    ||| e == "lz"@
    ||| e == "lzma"@
}

/// Documents, ebooks and office files.
pub open spec fn is_document(e: Seq<char>) -> bool {
    ||| e == "pdf"@
    ||| e == "epub"@
    ||| e == "mobi"@
    ||| e == "azw"@
    ||| e == "azw3"@
    ||| e == "djvu"@
    ||| e == "doc"@
    ||| e == "docx"@
    ||| e == "txt"@
    ||| e == "md"@
    ||| e == "rtf"@
    ||| e == "odt"@
    ||| e == "xls"@
    ||| e == "xlsx"@
    ||| e == "csv"@
    ||| e == "ppt"@
    ||| e == "pptx"@
}

/// Code, configuration and markup.
pub open spec fn is_code(e: Seq<char>) -> bool {
    ||| e == "rs"@
    ||| e == "py"@
    ||| e == "js"@
    ||| e == "jsx"@
    ||| e == "tsx"@
    ||| e == "c"@
    ||| e == "h"@
    ||| e == "cpp"@
    ||| e == "hpp"@
    ||| e == "cc"@
    ||| e == "go"@
    ||| e == "rb"@
    ||| e == "java"@
    ||| e == "kt"@
    ||| e == "swift"@
    ||| e == "php"@
    ||| e == "sh"@
    ||| e == "bash"@
    ||| e == "ps1"@
    ||| e == "json"@
    ||| e == "xml"@
    ||| e == "yaml"@
    ||| e == "yml"@
    ||| e == "toml"@
    ||| e == "html"@
    ||| e == "css"@
    ||| e == "scss"@
    ||| e == "sql"@
    ||| e == "lua"@
}

/// System files and binaries.
pub open spec fn is_system(e: Seq<char>) -> bool {
    ||| e == "exe"@
    ||| e == "dll"@
    ||| e == "sys"@
    ||| e == "msi"@
    ||| e == "so"@
    ||| e == "dylib"@
    ||| e == "bin"@
    ||| e == "lib"@
    ||| e == "obj"@
    ||| e == "o"@
    ||| e == "a"@
    ||| e == "pdb"@
    ||| e == "ocx"@
    ||| e == "drv"@
    ||| e == "dmp"@
    ||| e == "pak"@
    ||| e == "dat"@
    ||| e == "cache"@
    ||| e == "winmd"@
}

/// The category of a lowercase extension.
pub open spec fn extension_category(e: Seq<char>) -> FileCategory {
    if is_video(e) {
        FileCategory::Video
    } else if is_image(e) {
        FileCategory::Image
    } else if is_audio(e) {
        FileCategory::Audio
    } else if is_archive(e) {
        FileCategory::Archive
    } else if is_document(e) {
        FileCategory::Document
    } else if is_code(e) {
        FileCategory::Code
    } else if is_system(e) {
        FileCategory::System
    } else {
        FileCategory::Other
    }
}

/// The category of a file by its name's extension in any case. A name without
/// an extension is [`FileCategory::Other`].
pub open spec fn category_spec(style: PathStyle, name: Seq<char>) -> FileCategory {
    match paths::extension_spec(style, name) {
        Some(e) => extension_category(text::ascii_lower_text(e)),
        None => FileCategory::Other,
    }
}

fn in_video(e: &str) -> (r: bool)
    ensures
        r == is_video(e@),
{
    same_text(e, "mp4")
        || same_text(e, "mkv")
        || same_text(e, "avi")
        || same_text(e, "mov")
        || same_text(e, "wmv")
        || same_text(e, "flv")
        || same_text(e, "webm")
        || same_text(e, "m4v")
        || same_text(e, "mpg")
        || same_text(e, "mpeg")
        || same_text(e, "m2ts")
        || same_text(e, "ts")
        || same_text(e, "vob")
        || same_text(e, "3gp")
        || same_text(e, "ogv")
        || same_text(e, "rm")
        || same_text(e, "rmvb")
        || same_text(e, "divx")
        || same_text(e, "mts")
}

fn in_image(e: &str) -> (r: bool)
    ensures
        r == is_image(e@),
{
    same_text(e, "jpg")
        || same_text(e, "jpeg")
        || same_text(e, "png")
        || same_text(e, "gif")
        || same_text(e, "bmp")
        || same_text(e, "webp")
        || same_text(e, "tif")
        || same_text(e, "tiff")
        || same_text(e, "heic")
        || same_text(e, "heif")
        || same_text(e, "raw")
        || same_text(e, "cr2")
        || same_text(e, "nef")
        || same_text(e, "arw")
        || same_text(e, "dng")
        || same_text(e, "psd")
        || same_text(e, "svg")
        || same_text(e, "ico")
        || same_text(e, "jfif")
        || same_text(e, "avif")
}

fn in_audio(e: &str) -> (r: bool)
    ensures
        r == is_audio(e@),
{
    same_text(e, "mp3")
        || same_text(e, "flac")
        || same_text(e, "wav")
        || same_text(e, "aac")
        || same_text(e, "ogg")
        || same_text(e, "m4a")
        || same_text(e, "wma")
        || same_text(e, "opus")
        || same_text(e, "alac")
        || same_text(e, "aiff")
        || same_text(e, "aif")
        || same_text(e, "ape")
        || same_text(e, "mid")
}

fn in_archive(e: &str) -> (r: bool)
    ensures
        r == is_archive(e@),
{
    same_text(e, "zip")
        || same_text(e, "rar")
        || same_text(e, "7z")
        || same_text(e, "tar")
        || same_text(e, "gz")
        || same_text(e, "tgz")
        || same_text(e, "bz2")
        || same_text(e, "xz")
        || same_text(e, "zst")
        || same_text(e, "cbz")
        || same_text(e, "cbr")
        || same_text(e, "iso")
        || same_text(e, "cab")
        || same_text(e, "lz")
        || same_text(e, "lzma")
}

fn in_document(e: &str) -> (r: bool)
    ensures
        r == is_document(e@),
{
    same_text(e, "pdf")
        || same_text(e, "epub")
        || same_text(e, "mobi")
        || same_text(e, "azw")
        || same_text(e, "azw3")
        || same_text(e, "djvu")
        || same_text(e, "doc")
        || same_text(e, "docx")
        || same_text(e, "txt")
        || same_text(e, "md")
        || same_text(e, "rtf")
        || same_text(e, "odt")
        || same_text(e, "xls")
        || same_text(e, "xlsx")
        || same_text(e, "csv")
        || same_text(e, "ppt")
        || same_text(e, "pptx")
}

fn in_code(e: &str) -> (r: bool)
    ensures
        r == is_code(e@),
{
    same_text(e, "rs")
        || same_text(e, "py")
        || same_text(e, "js")
        || same_text(e, "jsx")
        || same_text(e, "tsx")
        || same_text(e, "c")
        || same_text(e, "h")
        || same_text(e, "cpp")
        || same_text(e, "hpp")
        || same_text(e, "cc")
        || same_text(e, "go")
        || same_text(e, "rb")
        || same_text(e, "java")
        || same_text(e, "kt")
        || same_text(e, "swift")
        || same_text(e, "php")
        || same_text(e, "sh")
        || same_text(e, "bash")
        || same_text(e, "ps1")
        || same_text(e, "json")
        || same_text(e, "xml")
        || same_text(e, "yaml")
        || same_text(e, "yml")
        || same_text(e, "toml")
        || same_text(e, "html")
        || same_text(e, "css")
        || same_text(e, "scss")
        || same_text(e, "sql")
        || same_text(e, "lua")
}

fn in_system(e: &str) -> (r: bool)
    ensures
        r == is_system(e@),
{
    same_text(e, "exe")
        || same_text(e, "dll")
        || same_text(e, "sys")
        || same_text(e, "msi")
        || same_text(e, "so")
        || same_text(e, "dylib")
        || same_text(e, "bin")
        || same_text(e, "lib")
        || same_text(e, "obj")
        || same_text(e, "o")
        || same_text(e, "a")
        || same_text(e, "pdb")
        || same_text(e, "ocx")
        || same_text(e, "drv")
        || same_text(e, "dmp")
        || same_text(e, "pak")
        || same_text(e, "dat")
        || same_text(e, "cache")
        || same_text(e, "winmd")
}

/// The category of a file by its name's extension, the name read in the given
/// style.
pub fn categorize_in(style: PathStyle, name: &str) -> (r: FileCategory)
    ensures
        r == category_spec(style, name@),
{
    let ext = match extension(style, name) {
        Some(e) => to_ascii_lower_text(e.as_str()),
        None => {
            return FileCategory::Other;
        },
    };
    let e = ext.as_str();
    if in_video(e) {
        FileCategory::Video
    } else if in_image(e) {
        FileCategory::Image
    } else if in_audio(e) {
        FileCategory::Audio
    } else if in_archive(e) {
        FileCategory::Archive
    } else if in_document(e) {
        FileCategory::Document
    } else if in_code(e) {
        FileCategory::Code
    } else if in_system(e) {
        FileCategory::System
    } else {
        FileCategory::Other
    }
}

/// The category of a plain name, one without separators and drives.
pub open spec fn name_category(name: Seq<char>) -> FileCategory {
    match paths::name_extension(name) {
        Some(e) => extension_category(text::ascii_lower_text(e)),
        None => FileCategory::Other,
    }
}

proof fn lemma_no_name(style: PathStyle, name: Seq<char>)
    requires
        name.len() == 0 || name == "."@ || name == ".."@,
    ensures
        paths::file_name_spec(style, name) is None,
{
    reveal_strlit(".");
    reveal_strlit("..");
    reveal_with_fuel(paths::piece_end, 3);
    reveal_with_fuel(paths::body_parts, 2);
    let ps = paths::parts(style, name);
    assert(paths::prefix_of(style, name) == paths::no_prefix());
    assert(paths::head_parts(style, name) =~= Seq::empty());
    assert(ps =~= paths::body_parts(style, false, true, name, 0));
    assert(forall|i: int| 0 <= i < ps.len() ==> (#[trigger] ps[i]).kind != paths::PartKind::Name);
}

/// The extensions letter by letter.
proof fn lemma_spelled()
    ensures
        "3gp"@.len() == 3 && "3gp"@[0] == '3' && "3gp"@[1] == 'g' && "3gp"@[2] == 'p',
        "7z"@.len() == 2 && "7z"@[0] == '7' && "7z"@[1] == 'z',
        "a"@.len() == 1 && "a"@[0] == 'a',
        "aac"@.len() == 3 && "aac"@[0] == 'a' && "aac"@[1] == 'a' && "aac"@[2] == 'c',
        "aif"@.len() == 3 && "aif"@[0] == 'a' && "aif"@[1] == 'i' && "aif"@[2] == 'f',
        "aiff"@.len() == 4 && "aiff"@[0] == 'a' && "aiff"@[1] == 'i' && "aiff"@[2] == 'f' && "aiff"@[3] == 'f',
        "alac"@.len() == 4 && "alac"@[0] == 'a' && "alac"@[1] == 'l' && "alac"@[2] == 'a' && "alac"@[3] == 'c',
        "ape"@.len() == 3 && "ape"@[0] == 'a' && "ape"@[1] == 'p' && "ape"@[2] == 'e',
        "arw"@.len() == 3 && "arw"@[0] == 'a' && "arw"@[1] == 'r' && "arw"@[2] == 'w',
        "avi"@.len() == 3 && "avi"@[0] == 'a' && "avi"@[1] == 'v' && "avi"@[2] == 'i',
        "avif"@.len() == 4 && "avif"@[0] == 'a' && "avif"@[1] == 'v' && "avif"@[2] == 'i' && "avif"@[3] == 'f',
        "azw"@.len() == 3 && "azw"@[0] == 'a' && "azw"@[1] == 'z' && "azw"@[2] == 'w',
        "azw3"@.len() == 4 && "azw3"@[0] == 'a' && "azw3"@[1] == 'z' && "azw3"@[2] == 'w' && "azw3"@[3] == '3',
        "bash"@.len() == 4 && "bash"@[0] == 'b' && "bash"@[1] == 'a' && "bash"@[2] == 's' && "bash"@[3] == 'h',
        "bin"@.len() == 3 && "bin"@[0] == 'b' && "bin"@[1] == 'i' && "bin"@[2] == 'n',
        "bmp"@.len() == 3 && "bmp"@[0] == 'b' && "bmp"@[1] == 'm' && "bmp"@[2] == 'p',
        "bz2"@.len() == 3 && "bz2"@[0] == 'b' && "bz2"@[1] == 'z' && "bz2"@[2] == '2',
        "c"@.len() == 1 && "c"@[0] == 'c',
        "cab"@.len() == 3 && "cab"@[0] == 'c' && "cab"@[1] == 'a' && "cab"@[2] == 'b',
        "cache"@.len() == 5 && "cache"@[0] == 'c' && "cache"@[1] == 'a' && "cache"@[2] == 'c' && "cache"@[3] == 'h' && "cache"@[4] == 'e',
        "cbr"@.len() == 3 && "cbr"@[0] == 'c' && "cbr"@[1] == 'b' && "cbr"@[2] == 'r',
        "cbz"@.len() == 3 && "cbz"@[0] == 'c' && "cbz"@[1] == 'b' && "cbz"@[2] == 'z',
        "cc"@.len() == 2 && "cc"@[0] == 'c' && "cc"@[1] == 'c',
        "cpp"@.len() == 3 && "cpp"@[0] == 'c' && "cpp"@[1] == 'p' && "cpp"@[2] == 'p',
        "cr2"@.len() == 3 && "cr2"@[0] == 'c' && "cr2"@[1] == 'r' && "cr2"@[2] == '2',
        "css"@.len() == 3 && "css"@[0] == 'c' && "css"@[1] == 's' && "css"@[2] == 's',
        "csv"@.len() == 3 && "csv"@[0] == 'c' && "csv"@[1] == 's' && "csv"@[2] == 'v',
        "dat"@.len() == 3 && "dat"@[0] == 'd' && "dat"@[1] == 'a' && "dat"@[2] == 't',
        "divx"@.len() == 4 && "divx"@[0] == 'd' && "divx"@[1] == 'i' && "divx"@[2] == 'v' && "divx"@[3] == 'x',
        "djvu"@.len() == 4 && "djvu"@[0] == 'd' && "djvu"@[1] == 'j' && "djvu"@[2] == 'v' && "djvu"@[3] == 'u',
        "dll"@.len() == 3 && "dll"@[0] == 'd' && "dll"@[1] == 'l' && "dll"@[2] == 'l',
        "dmp"@.len() == 3 && "dmp"@[0] == 'd' && "dmp"@[1] == 'm' && "dmp"@[2] == 'p',
        "dng"@.len() == 3 && "dng"@[0] == 'd' && "dng"@[1] == 'n' && "dng"@[2] == 'g',
        "doc"@.len() == 3 && "doc"@[0] == 'd' && "doc"@[1] == 'o' && "doc"@[2] == 'c',
        "docx"@.len() == 4 && "docx"@[0] == 'd' && "docx"@[1] == 'o' && "docx"@[2] == 'c' && "docx"@[3] == 'x',
        "drv"@.len() == 3 && "drv"@[0] == 'd' && "drv"@[1] == 'r' && "drv"@[2] == 'v',
        "dylib"@.len() == 5 && "dylib"@[0] == 'd' && "dylib"@[1] == 'y' && "dylib"@[2] == 'l' && "dylib"@[3] == 'i' && "dylib"@[4] == 'b',
        "epub"@.len() == 4 && "epub"@[0] == 'e' && "epub"@[1] == 'p' && "epub"@[2] == 'u' && "epub"@[3] == 'b',
        "exe"@.len() == 3 && "exe"@[0] == 'e' && "exe"@[1] == 'x' && "exe"@[2] == 'e',
        "flac"@.len() == 4 && "flac"@[0] == 'f' && "flac"@[1] == 'l' && "flac"@[2] == 'a' && "flac"@[3] == 'c',
        "flv"@.len() == 3 && "flv"@[0] == 'f' && "flv"@[1] == 'l' && "flv"@[2] == 'v',
        "gif"@.len() == 3 && "gif"@[0] == 'g' && "gif"@[1] == 'i' && "gif"@[2] == 'f',
        "go"@.len() == 2 && "go"@[0] == 'g' && "go"@[1] == 'o',
        "gz"@.len() == 2 && "gz"@[0] == 'g' && "gz"@[1] == 'z',
        "h"@.len() == 1 && "h"@[0] == 'h',
        "heic"@.len() == 4 && "heic"@[0] == 'h' && "heic"@[1] == 'e' && "heic"@[2] == 'i' && "heic"@[3] == 'c',
        "heif"@.len() == 4 && "heif"@[0] == 'h' && "heif"@[1] == 'e' && "heif"@[2] == 'i' && "heif"@[3] == 'f',
        "hpp"@.len() == 3 && "hpp"@[0] == 'h' && "hpp"@[1] == 'p' && "hpp"@[2] == 'p',
        "html"@.len() == 4 && "html"@[0] == 'h' && "html"@[1] == 't' && "html"@[2] == 'm' && "html"@[3] == 'l',
        "ico"@.len() == 3 && "ico"@[0] == 'i' && "ico"@[1] == 'c' && "ico"@[2] == 'o',
        "iso"@.len() == 3 && "iso"@[0] == 'i' && "iso"@[1] == 's' && "iso"@[2] == 'o',
        "java"@.len() == 4 && "java"@[0] == 'j' && "java"@[1] == 'a' && "java"@[2] == 'v' && "java"@[3] == 'a',
        "jfif"@.len() == 4 && "jfif"@[0] == 'j' && "jfif"@[1] == 'f' && "jfif"@[2] == 'i' && "jfif"@[3] == 'f',
        "jpeg"@.len() == 4 && "jpeg"@[0] == 'j' && "jpeg"@[1] == 'p' && "jpeg"@[2] == 'e' && "jpeg"@[3] == 'g',
        "jpg"@.len() == 3 && "jpg"@[0] == 'j' && "jpg"@[1] == 'p' && "jpg"@[2] == 'g',
        "js"@.len() == 2 && "js"@[0] == 'j' && "js"@[1] == 's',
        "json"@.len() == 4 && "json"@[0] == 'j' && "json"@[1] == 's' && "json"@[2] == 'o' && "json"@[3] == 'n',
        "jsx"@.len() == 3 && "jsx"@[0] == 'j' && "jsx"@[1] == 's' && "jsx"@[2] == 'x',
        "kt"@.len() == 2 && "kt"@[0] == 'k' && "kt"@[1] == 't',
        "lib"@.len() == 3 && "lib"@[0] == 'l' && "lib"@[1] == 'i' && "lib"@[2] == 'b',
        "lua"@.len() == 3 && "lua"@[0] == 'l' && "lua"@[1] == 'u' && "lua"@[2] == 'a',
        "lz"@.len() == 2 && "lz"@[0] == 'l' && "lz"@[1] == 'z',
        "lzma"@.len() == 4 && "lzma"@[0] == 'l' && "lzma"@[1] == 'z' && "lzma"@[2] == 'm' && "lzma"@[3] == 'a',
        "m2ts"@.len() == 4 && "m2ts"@[0] == 'm' && "m2ts"@[1] == '2' && "m2ts"@[2] == 't' && "m2ts"@[3] == 's',
        "m4a"@.len() == 3 && "m4a"@[0] == 'm' && "m4a"@[1] == '4' && "m4a"@[2] == 'a',
        "m4v"@.len() == 3 && "m4v"@[0] == 'm' && "m4v"@[1] == '4' && "m4v"@[2] == 'v',
        "md"@.len() == 2 && "md"@[0] == 'm' && "md"@[1] == 'd',
        "mid"@.len() == 3 && "mid"@[0] == 'm' && "mid"@[1] == 'i' && "mid"@[2] == 'd',
        "mkv"@.len() == 3 && "mkv"@[0] == 'm' && "mkv"@[1] == 'k' && "mkv"@[2] == 'v',
        "mobi"@.len() == 4 && "mobi"@[0] == 'm' && "mobi"@[1] == 'o' && "mobi"@[2] == 'b' && "mobi"@[3] == 'i',
        "mov"@.len() == 3 && "mov"@[0] == 'm' && "mov"@[1] == 'o' && "mov"@[2] == 'v',
        "mp3"@.len() == 3 && "mp3"@[0] == 'm' && "mp3"@[1] == 'p' && "mp3"@[2] == '3',
        "mp4"@.len() == 3 && "mp4"@[0] == 'm' && "mp4"@[1] == 'p' && "mp4"@[2] == '4',
        "mpeg"@.len() == 4 && "mpeg"@[0] == 'm' && "mpeg"@[1] == 'p' && "mpeg"@[2] == 'e' && "mpeg"@[3] == 'g',
        "mpg"@.len() == 3 && "mpg"@[0] == 'm' && "mpg"@[1] == 'p' && "mpg"@[2] == 'g',
        "msi"@.len() == 3 && "msi"@[0] == 'm' && "msi"@[1] == 's' && "msi"@[2] == 'i',
        "mts"@.len() == 3 && "mts"@[0] == 'm' && "mts"@[1] == 't' && "mts"@[2] == 's',
        "nef"@.len() == 3 && "nef"@[0] == 'n' && "nef"@[1] == 'e' && "nef"@[2] == 'f',
        "o"@.len() == 1 && "o"@[0] == 'o',
        "obj"@.len() == 3 && "obj"@[0] == 'o' && "obj"@[1] == 'b' && "obj"@[2] == 'j',
        "ocx"@.len() == 3 && "ocx"@[0] == 'o' && "ocx"@[1] == 'c' && "ocx"@[2] == 'x',
        "odt"@.len() == 3 && "odt"@[0] == 'o' && "odt"@[1] == 'd' && "odt"@[2] == 't',
        "ogg"@.len() == 3 && "ogg"@[0] == 'o' && "ogg"@[1] == 'g' && "ogg"@[2] == 'g',
        "ogv"@.len() == 3 && "ogv"@[0] == 'o' && "ogv"@[1] == 'g' && "ogv"@[2] == 'v',
        "opus"@.len() == 4 && "opus"@[0] == 'o' && "opus"@[1] == 'p' && "opus"@[2] == 'u' && "opus"@[3] == 's',
        "pak"@.len() == 3 && "pak"@[0] == 'p' && "pak"@[1] == 'a' && "pak"@[2] == 'k',
        "pdb"@.len() == 3 && "pdb"@[0] == 'p' && "pdb"@[1] == 'd' && "pdb"@[2] == 'b',
        "pdf"@.len() == 3 && "pdf"@[0] == 'p' && "pdf"@[1] == 'd' && "pdf"@[2] == 'f',
        "php"@.len() == 3 && "php"@[0] == 'p' && "php"@[1] == 'h' && "php"@[2] == 'p',
        "png"@.len() == 3 && "png"@[0] == 'p' && "png"@[1] == 'n' && "png"@[2] == 'g',
        "ppt"@.len() == 3 && "ppt"@[0] == 'p' && "ppt"@[1] == 'p' && "ppt"@[2] == 't',
        "pptx"@.len() == 4 && "pptx"@[0] == 'p' && "pptx"@[1] == 'p' && "pptx"@[2] == 't' && "pptx"@[3] == 'x',
        "ps1"@.len() == 3 && "ps1"@[0] == 'p' && "ps1"@[1] == 's' && "ps1"@[2] == '1',
        "psd"@.len() == 3 && "psd"@[0] == 'p' && "psd"@[1] == 's' && "psd"@[2] == 'd',
        "py"@.len() == 2 && "py"@[0] == 'p' && "py"@[1] == 'y',
        "rar"@.len() == 3 && "rar"@[0] == 'r' && "rar"@[1] == 'a' && "rar"@[2] == 'r',
        "raw"@.len() == 3 && "raw"@[0] == 'r' && "raw"@[1] == 'a' && "raw"@[2] == 'w',
        "rb"@.len() == 2 && "rb"@[0] == 'r' && "rb"@[1] == 'b',
        "rm"@.len() == 2 && "rm"@[0] == 'r' && "rm"@[1] == 'm',
        "rmvb"@.len() == 4 && "rmvb"@[0] == 'r' && "rmvb"@[1] == 'm' && "rmvb"@[2] == 'v' && "rmvb"@[3] == 'b',
        "rs"@.len() == 2 && "rs"@[0] == 'r' && "rs"@[1] == 's',
        "rtf"@.len() == 3 && "rtf"@[0] == 'r' && "rtf"@[1] == 't' && "rtf"@[2] == 'f',
        "scss"@.len() == 4 && "scss"@[0] == 's' && "scss"@[1] == 'c' && "scss"@[2] == 's' && "scss"@[3] == 's',
        "sh"@.len() == 2 && "sh"@[0] == 's' && "sh"@[1] == 'h',
        "so"@.len() == 2 && "so"@[0] == 's' && "so"@[1] == 'o',
        "sql"@.len() == 3 && "sql"@[0] == 's' && "sql"@[1] == 'q' && "sql"@[2] == 'l',
        "svg"@.len() == 3 && "svg"@[0] == 's' && "svg"@[1] == 'v' && "svg"@[2] == 'g',
        "swift"@.len() == 5 && "swift"@[0] == 's' && "swift"@[1] == 'w' && "swift"@[2] == 'i' && "swift"@[3] == 'f' && "swift"@[4] == 't',
        "sys"@.len() == 3 && "sys"@[0] == 's' && "sys"@[1] == 'y' && "sys"@[2] == 's',
        "tar"@.len() == 3 && "tar"@[0] == 't' && "tar"@[1] == 'a' && "tar"@[2] == 'r',
        "tgz"@.len() == 3 && "tgz"@[0] == 't' && "tgz"@[1] == 'g' && "tgz"@[2] == 'z',
        "tif"@.len() == 3 && "tif"@[0] == 't' && "tif"@[1] == 'i' && "tif"@[2] == 'f',
        "tiff"@.len() == 4 && "tiff"@[0] == 't' && "tiff"@[1] == 'i' && "tiff"@[2] == 'f' && "tiff"@[3] == 'f',
        "toml"@.len() == 4 && "toml"@[0] == 't' && "toml"@[1] == 'o' && "toml"@[2] == 'm' && "toml"@[3] == 'l',
        "ts"@.len() == 2 && "ts"@[0] == 't' && "ts"@[1] == 's',
        "tsx"@.len() == 3 && "tsx"@[0] == 't' && "tsx"@[1] == 's' && "tsx"@[2] == 'x',
        "txt"@.len() == 3 && "txt"@[0] == 't' && "txt"@[1] == 'x' && "txt"@[2] == 't',
        "vob"@.len() == 3 && "vob"@[0] == 'v' && "vob"@[1] == 'o' && "vob"@[2] == 'b',
        "wav"@.len() == 3 && "wav"@[0] == 'w' && "wav"@[1] == 'a' && "wav"@[2] == 'v',
        "webm"@.len() == 4 && "webm"@[0] == 'w' && "webm"@[1] == 'e' && "webm"@[2] == 'b' && "webm"@[3] == 'm',
        "webp"@.len() == 4 && "webp"@[0] == 'w' && "webp"@[1] == 'e' && "webp"@[2] == 'b' && "webp"@[3] == 'p',
        "winmd"@.len() == 5 && "winmd"@[0] == 'w' && "winmd"@[1] == 'i' && "winmd"@[2] == 'n' && "winmd"@[3] == 'm' && "winmd"@[4] == 'd',
        "wma"@.len() == 3 && "wma"@[0] == 'w' && "wma"@[1] == 'm' && "wma"@[2] == 'a',
        "wmv"@.len() == 3 && "wmv"@[0] == 'w' && "wmv"@[1] == 'm' && "wmv"@[2] == 'v',
        "xls"@.len() == 3 && "xls"@[0] == 'x' && "xls"@[1] == 'l' && "xls"@[2] == 's',
        "xlsx"@.len() == 4 && "xlsx"@[0] == 'x' && "xlsx"@[1] == 'l' && "xlsx"@[2] == 's' && "xlsx"@[3] == 'x',
        "xml"@.len() == 3 && "xml"@[0] == 'x' && "xml"@[1] == 'm' && "xml"@[2] == 'l',
        "xz"@.len() == 2 && "xz"@[0] == 'x' && "xz"@[1] == 'z',
        "yaml"@.len() == 4 && "yaml"@[0] == 'y' && "yaml"@[1] == 'a' && "yaml"@[2] == 'm' && "yaml"@[3] == 'l',
        "yml"@.len() == 3 && "yml"@[0] == 'y' && "yml"@[1] == 'm' && "yml"@[2] == 'l',
        "zip"@.len() == 3 && "zip"@[0] == 'z' && "zip"@[1] == 'i' && "zip"@[2] == 'p',
        "zst"@.len() == 3 && "zst"@[0] == 'z' && "zst"@[1] == 's' && "zst"@[2] == 't',
{
    reveal_strlit("3gp");
    reveal_strlit("7z");
    reveal_strlit("a");
    reveal_strlit("aac");
    reveal_strlit("aif");
    reveal_strlit("aiff");
    reveal_strlit("alac");
    reveal_strlit("ape");
    reveal_strlit("arw");
    reveal_strlit("avi");
    reveal_strlit("avif");
    reveal_strlit("azw");
    reveal_strlit("azw3");
    reveal_strlit("bash");
    reveal_strlit("bin");
    reveal_strlit("bmp");
    reveal_strlit("bz2");
    reveal_strlit("c");
    reveal_strlit("cab");
    reveal_strlit("cache");
    reveal_strlit("cbr");
    reveal_strlit("cbz");
    reveal_strlit("cc");
    reveal_strlit("cpp");
    reveal_strlit("cr2");
    reveal_strlit("css");
    reveal_strlit("csv");
    reveal_strlit("dat");
    reveal_strlit("divx");
    reveal_strlit("djvu");
    reveal_strlit("dll");
    reveal_strlit("dmp");
    reveal_strlit("dng");
    reveal_strlit("doc");
    reveal_strlit("docx");
    reveal_strlit("drv");
    reveal_strlit("dylib");
    reveal_strlit("epub");
    reveal_strlit("exe");
    reveal_strlit("flac");
    reveal_strlit("flv");
    reveal_strlit("gif");
    reveal_strlit("go");
    reveal_strlit("gz");
    reveal_strlit("h");
    reveal_strlit("heic");
    reveal_strlit("heif");
    reveal_strlit("hpp");
    reveal_strlit("html");
    reveal_strlit("ico");
    reveal_strlit("iso");
    reveal_strlit("java");
    reveal_strlit("jfif");
    reveal_strlit("jpeg");
    reveal_strlit("jpg");
    reveal_strlit("js");
    reveal_strlit("json");
    reveal_strlit("jsx");
    reveal_strlit("kt");
    reveal_strlit("lib");
    reveal_strlit("lua");
    reveal_strlit("lz");
    reveal_strlit("lzma");
    reveal_strlit("m2ts");
    reveal_strlit("m4a");
    reveal_strlit("m4v");
    reveal_strlit("md");
    reveal_strlit("mid");
    reveal_strlit("mkv");
    reveal_strlit("mobi");
    reveal_strlit("mov");
    reveal_strlit("mp3");
    reveal_strlit("mp4");
    reveal_strlit("mpeg");
    reveal_strlit("mpg");
    reveal_strlit("msi");
    reveal_strlit("mts");
    reveal_strlit("nef");
    reveal_strlit("o");
    reveal_strlit("obj");
    reveal_strlit("ocx");
    reveal_strlit("odt");
    reveal_strlit("ogg");
    reveal_strlit("ogv");
    reveal_strlit("opus");
    reveal_strlit("pak");
    reveal_strlit("pdb");
    reveal_strlit("pdf");
    reveal_strlit("php");
    reveal_strlit("png");
    reveal_strlit("ppt");
    reveal_strlit("pptx");
    reveal_strlit("ps1");
    reveal_strlit("psd");
    reveal_strlit("py");
    reveal_strlit("rar");
    reveal_strlit("raw");
    reveal_strlit("rb");
    reveal_strlit("rm");
    reveal_strlit("rmvb");
    reveal_strlit("rs");
    reveal_strlit("rtf");
    reveal_strlit("scss");
    reveal_strlit("sh");
    reveal_strlit("so");
    reveal_strlit("sql");
    reveal_strlit("svg");
    reveal_strlit("swift");
    reveal_strlit("sys");
    reveal_strlit("tar");
    reveal_strlit("tgz");
    reveal_strlit("tif");
    reveal_strlit("tiff");
    reveal_strlit("toml");
    reveal_strlit("ts");
    reveal_strlit("tsx");
    reveal_strlit("txt");
    reveal_strlit("vob");
    reveal_strlit("wav");
    reveal_strlit("webm");
    reveal_strlit("webp");
    reveal_strlit("winmd");
    reveal_strlit("wma");
    reveal_strlit("wmv");
    reveal_strlit("xls");
    reveal_strlit("xlsx");
    reveal_strlit("xml");
    reveal_strlit("xz");
    reveal_strlit("yaml");
    reveal_strlit("yml");
    reveal_strlit("zip");
    reveal_strlit("zst");
}

proof fn lemma_empty_is_other(e: Seq<char>)
    requires
        e.len() == 0,
    ensures
        extension_category(e) == FileCategory::Other,
{
    lemma_spelled();
}

/// A plain name has one category, whatever the style it is read in.
pub proof fn lemma_plain_category(style: PathStyle, name: Seq<char>)
    requires
        paths::is_plain(name),
    ensures
        category_spec(style, name) == name_category(name),
{
    reveal_strlit(".");
    reveal_strlit("..");
    if name.len() == 0 || name == "."@ {
        assert(paths::last_dot(name) <= 0) by {
            reveal_with_fuel(paths::last_dot, 2);
        }
        lemma_no_name(style, name);
    } else if name == ".."@ {
        lemma_no_name(style, name);
        let e = name.subrange(paths::last_dot(name) + 1, name.len() as int);
        assert(paths::last_dot(name) == 1);
        assert(text::ascii_lower_text(e).len() == 0);
        lemma_empty_is_other(text::ascii_lower_text(e));
    } else {
        paths::lemma_plain_is_its_name(style, name);
    }
}

/// Classify a file by its name's extension. Names with no extension (or a
/// leading-dot name like `.gitignore`) are [`FileCategory::Other`]. A name that
/// holds separators is read as the system the program runs on reads it.
pub fn categorize(name: &str) -> (r: FileCategory)
    ensures
        paths::is_plain(name@) ==> r == name_category(name@),
        r == category_spec(PathStyle::Unix, name@) || r == category_spec(PathStyle::Windows, name@),
{
    let style = native_style();
    proof {
        if paths::is_plain(name@) {
            lemma_plain_category(style, name@);
        }
    }
    categorize_in(style, name)
}

/// The extensions of moving pictures.
pub proof fn law_video_extensions(e: Seq<char>)
    requires
        e == "mp4"@ || e == "mkv"@ || e == "avi"@ || e == "mov"@ || e == "wmv"@ || e == "flv"@
            || e == "webm"@ || e == "m4v"@ || e == "mpg"@ || e == "mpeg"@ || e == "m2ts"@ || e == "ts"@
            || e == "vob"@ || e == "3gp"@ || e == "ogv"@ || e == "rm"@ || e == "rmvb"@ || e == "divx"@
            || e == "mts"@,
    ensures
        extension_category(e) == FileCategory::Video,
{
}

/// The extensions of pictures.
pub proof fn law_image_extensions(e: Seq<char>)
    requires
        e == "jpg"@ || e == "jpeg"@ || e == "png"@ || e == "gif"@ || e == "bmp"@ || e == "webp"@
            || e == "tif"@ || e == "tiff"@ || e == "heic"@ || e == "heif"@ || e == "raw"@ || e == "cr2"@
            || e == "nef"@ || e == "arw"@ || e == "dng"@ || e == "psd"@ || e == "svg"@ || e == "ico"@
            || e == "jfif"@ || e == "avif"@,
    ensures
        extension_category(e) == FileCategory::Image,
{
    lemma_spelled();
}

/// The extensions of sound.
pub proof fn law_audio_extensions(e: Seq<char>)
    requires
        e == "mp3"@ || e == "flac"@ || e == "wav"@ || e == "aac"@ || e == "ogg"@ || e == "m4a"@
            || e == "wma"@ || e == "opus"@ || e == "alac"@ || e == "aiff"@ || e == "aif"@ || e == "ape"@
            || e == "mid"@,
    ensures
        extension_category(e) == FileCategory::Audio,
{
    lemma_spelled();
}

/// The extensions of archives.
pub proof fn law_archive_extensions(e: Seq<char>)
    requires
        e == "zip"@ || e == "rar"@ || e == "7z"@ || e == "tar"@ || e == "gz"@ || e == "tgz"@ || e == "bz2"@
            || e == "xz"@ || e == "zst"@ || e == "cbz"@ || e == "cbr"@ || e == "iso"@ || e == "cab"@
            || e == "lz"@ || e == "lzma"@,
    ensures
        extension_category(e) == FileCategory::Archive,
{
    lemma_spelled();
}

/// The extensions of documents.
pub proof fn law_document_extensions(e: Seq<char>)
    requires
        e == "pdf"@ || e == "epub"@ || e == "mobi"@ || e == "azw"@ || e == "azw3"@ || e == "djvu"@
            || e == "doc"@ || e == "docx"@ || e == "txt"@ || e == "md"@ || e == "rtf"@ || e == "odt"@
            || e == "xls"@ || e == "xlsx"@ || e == "csv"@ || e == "ppt"@ || e == "pptx"@,
    ensures
        extension_category(e) == FileCategory::Document,
{
    lemma_spelled();
}

/// The extensions of code.
pub proof fn law_code_extensions(e: Seq<char>)
    requires
        e == "rs"@ || e == "py"@ || e == "js"@ || e == "jsx"@ || e == "tsx"@ || e == "c"@ || e == "h"@
            || e == "cpp"@ || e == "hpp"@ || e == "cc"@ || e == "go"@ || e == "rb"@ || e == "java"@
            || e == "kt"@ || e == "swift"@ || e == "php"@ || e == "sh"@ || e == "bash"@ || e == "ps1"@
            || e == "json"@ || e == "xml"@ || e == "yaml"@ || e == "yml"@ || e == "toml"@ || e == "html"@
            || e == "css"@ || e == "scss"@ || e == "sql"@ || e == "lua"@,
    ensures
        extension_category(e) == FileCategory::Code,
{
    lemma_spelled();
}

/// The extensions of system files.
pub proof fn law_system_extensions(e: Seq<char>)
    requires
        e == "exe"@ || e == "dll"@ || e == "sys"@ || e == "msi"@ || e == "so"@ || e == "dylib"@
            || e == "bin"@ || e == "lib"@ || e == "obj"@ || e == "o"@ || e == "a"@ || e == "pdb"@ || e == "ocx"@
            || e == "drv"@ || e == "dmp"@ || e == "pak"@ || e == "dat"@ || e == "cache"@ || e == "winmd"@,
    ensures
        extension_category(e) == FileCategory::System,
{
    lemma_spelled();
}

/// What stands behind the last dot of a name decides, whatever the case of its
/// letters and whatever stands before it; a name without a dot, or whose only dot
/// leads it, is of no category.
pub proof fn law_last_extension_decides(style: PathStyle, name: Seq<char>, dot: int)
    requires
        paths::is_entry_name(name),
        -1 <= dot < name.len(),
        dot >= 0 ==> name[dot] == '.',
        forall|i: int| dot < i < name.len() ==> name[i] != '.',
    ensures
        dot > 0 ==> category_spec(style, name) == extension_category(
            text::ascii_lower_text(name.subrange(dot + 1, name.len() as int)),
        ),
        dot <= 0 ==> category_spec(style, name) == FileCategory::Other,
{
    paths::lemma_plain_is_its_name(style, name);
    lemma_last_dot_is(name, dot);
}

proof fn lemma_last_dot_is(s: Seq<char>, dot: int)
    requires
        -1 <= dot < s.len() || (dot == -1 && s.len() == 0),
        dot >= 0 ==> s[dot] == '.',
        forall|i: int| dot < i < s.len() ==> s[i] != '.',
    ensures
        paths::last_dot(s) == dot,
    decreases s.len(),
{
    if dot < s.len() - 1 {
        lemma_last_dot_is(s.drop_last(), dot);
    }
}

/// The category that a place in the legend has is the one that has that place.
pub proof fn law_legend(i: int, c: FileCategory)
    ensures
        0 <= i < 8 ==> category_at(i).rank() == i,
        category_at(c.rank()) == c,
        0 <= c.rank() < 8,
{
}

} // verus!
