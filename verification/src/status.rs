//! What the explorer says: its title, the rows of the list, the footer, the
//! question before a deletion, and what a drop will do.
use vstd::prelude::*;
use crate::browse::Entry;
use crate::clipboard::Files;
use crate::details;
use crate::explorer::{Explorer, Job};
use crate::filetype::{self, categorize_in, FileCategory};
use crate::labels::{self, decimal, human_size};
use crate::listing::{self, entry_kind, folder_size, FolderSize, SortKey};
use crate::location::{self, name_of};
use crate::pane::Pane;
use crate::paths::{self, file_name, join, PathStyle};
use crate::sidebar;
use crate::text::{self, cat, cat3};
use crate::time::{humanize_age, Stamp};
use crate::undo::UndoEntry;

verus! {

/// The title of the window: the program and the folder.
pub fn window_title(dir: &str) -> (r: String)
    ensures
        r@ == crate::APP_NAME@ + " — "@ + dir@,
{
    cat3(crate::APP_NAME, " — ", dir)
}

/// What the footer shows.
pub enum Footer {
    /// A running operation.
    Working { label: String, can_cancel: bool },
    /// What went wrong last.
    Problem(String),
    /// The folder and what can be done.
    Ready { summary: String, clip: Option<String>, undo: Option<String>, redo: Option<String> },
}

/// What the footer says of an entry that can be reversed.
pub open spec fn reversal_label(lead: Seq<char>, stack: Seq<UndoEntry>) -> Option<Seq<char>> {
    if stack.len() > 0 {
        Some(lead + stack.last().label@)
    } else {
        None
    }
}

/// What the footer says of the clipboard.
pub open spec fn clip_label(c: Option<Files>) -> Option<Seq<char>> {
    match c {
        Some(f) => Some(
            "📋 "@ + labels::dec(f.paths@.len()) + (if f.cut {
                " cut"@
            } else {
                " copied"@
            }),
        ),
        None => None,
    }
}

/// What the footer shows: a running operation before an error, and an error
/// before all else.
pub open spec fn footer_shows(x: Explorer, f: Footer) -> bool {
    match x.job {
        Job::Reversing { entry, redo } => f matches Footer::Working { label, can_cancel } && !can_cancel && label@ == (
        if redo {
            "Redoing "@
        } else {
            "Undoing "@
        }) + entry.label@ + "…"@,
        Job::Deleting => f matches Footer::Working { label, can_cancel } && !can_cancel && label@
            == "Moving to Recycle Bin…"@,
        Job::Pasting { label: l, .. } => f matches Footer::Working { label, can_cancel } && can_cancel && label == l,
        Job::Idle => match x.op_error {
            Some(e) => f matches Footer::Problem(m) && m@ == "⚠ "@ + e@,
            None => f matches Footer::Ready { summary, clip, undo, redo } && {
                &&& summary == x.pane.status_summary
                &&& text::opt_text(clip) == clip_label(x.clipboard)
                &&& text::opt_text(undo) == reversal_label("↺ Undo "@, x.history.undo@)
                &&& text::opt_text(redo) == reversal_label("↻ Redo "@, x.history.redo@)
            },
        },
    }
}

fn reversal_text(lead: &str, stack: &Vec<UndoEntry>) -> (r: Option<String>)
    ensures
        text::opt_text(r) == reversal_label(lead@, stack@),
{
    let n: usize = stack.len();
    if n > 0 {
        Some(cat(lead, stack[n - 1].label))
    } else {
        None
    }
}

fn clip_text(c: &Option<Files>) -> (r: Option<String>)
    ensures
        text::opt_text(r) == clip_label(*c),
{
    match c {
        Some(f) => {
            let verb = if f.cut {
                " cut"
            } else {
                " copied"
            };
            Some(cat3("📋 ", decimal(f.paths.len() as u64).as_str(), verb))
        },
        None => None,
    }
}

impl Explorer {
    /// What the footer shows.
    pub fn footer(&self) -> (r: Footer)
        ensures
            footer_shows(*self, r),
    {
        match &self.job {
            Job::Reversing { entry, redo } => {
                let lead = if *redo {
                    "Redoing "
                } else {
                    "Undoing "
                };
                Footer::Working { label: cat3(lead, entry.label, "…"), can_cancel: false }
            },
            Job::Deleting => Footer::Working { label: "Moving to Recycle Bin…".to_owned(), can_cancel: false },
            Job::Pasting { label, .. } => Footer::Working { label: label.clone(), can_cancel: true },
            Job::Idle => match &self.op_error {
                Some(e) => Footer::Problem(cat("⚠ ", e.as_str())),
                None => Footer::Ready {
                    summary: self.pane.status_summary.clone(),
                    clip: clip_text(&self.clipboard),
                    undo: reversal_text("↺ Undo ", &self.history.undo),
                    redo: reversal_text("↻ Redo ", &self.history.redo),
                },
            },
        }
    }
}

/// What is to be deleted, in words.
pub open spec fn deleted_what(style: PathStyle, files: Seq<Seq<char>>) -> Seq<char> {
    if files.len() == 1 {
        match paths::file_name_spec(style, files[0]) {
            Some(n) => "“"@ + n + "”"@,
            None => "1 item"@,
        }
    } else {
        labels::dec(files.len()) + " items"@
    }
}

/// The question before a deletion.
pub struct DeleteQuestion {
    pub title: &'static str,
    pub text: String,
    pub button: &'static str,
    /// Enter means yes: only where what is deleted can be brought back.
    pub enter_confirms: bool,
}

/// The question says that. What is on a network drive is deleted for good.
pub open spec fn asks_delete(q: DeleteQuestion, what: Seq<char>, permanent: bool) -> bool {
    if permanent {
        &&& q.title@ == "Delete from network drive?"@
        &&& q.text@ == "⚠ "@ + what
            + " won't go to the Windows Recycle Bin. If your NAS keeps its own (e.g. Synology's #recycle), it may be recoverable there — otherwise this is permanent."@
        &&& q.button@ == "Delete"@
        &&& !q.enter_confirms
    } else {
        &&& q.title@ == "Move to Recycle Bin?"@
        &&& q.text@ == what + " will be moved to the Recycle Bin."@
        &&& q.button@ == "Move to Recycle Bin"@
        &&& q.enter_confirms
    }
}

/// The question before deleting `files`; `permanent` where one of them is on a
/// network drive.
pub fn delete_question(style: PathStyle, files: &Vec<String>, permanent: bool) -> (r: DeleteQuestion)
    ensures
        asks_delete(r, deleted_what(style, text::texts(files@)), permanent),
{
    let what = if files.len() == 1 {
        assert(text::texts(files@)[0] == files@[0]@);
        match file_name(style, files[0].as_str()) {
            Some(n) => cat3("“", n.as_str(), "”"),
            None => "1 item".to_owned(),
        }
    } else {
        cat(decimal(files.len() as u64).as_str(), " items")
    };
    if permanent {
        DeleteQuestion {
            title: "Delete from network drive?",
            text: cat3(
                "⚠ ",
                what.as_str(),
                " won't go to the Windows Recycle Bin. If your NAS keeps its own (e.g. Synology's #recycle), it may be recoverable there — otherwise this is permanent.",
            ),
            button: "Delete",
            enter_confirms: false,
        }
    } else {
        DeleteQuestion {
            title: "Move to Recycle Bin?",
            text: cat(what.as_str(), " will be moved to the Recycle Bin."),
            button: "Move to Recycle Bin",
            enter_confirms: true,
        }
    }
}

/// What a drag inside the window will do.
pub open spec fn badge_text(style: PathStyle, files: Seq<Seq<char>>, copy: bool) -> Seq<char> {
    (if copy {
        "Copy "@
    } else {
        "Move "@
    }) + (if files.len() == 1 {
        location::name_spec(style, files[0])
    } else {
        labels::dec(files.len()) + " items"@
    })
}

/// What a drag inside the window will do.
pub fn drag_badge(style: PathStyle, files: &Vec<String>, copy: bool) -> (r: String)
    ensures
        r@ == badge_text(style, text::texts(files@), copy),
{
    let what = if files.len() == 1 {
        assert(text::texts(files@)[0] == files@[0]@);
        name_of(style, files[0].as_str())
    } else {
        cat(decimal(files.len() as u64).as_str(), " items")
    };
    cat(
        if copy {
            "Copy "
        } else {
            "Move "
        },
        what.as_str(),
    )
}

/// What dropping `n` files on the window will do.
pub open spec fn drop_text(n: nat, dir: Seq<char>) -> Seq<char> {
    "Drop to copy "@ + (if n == 1 {
        "1 item"@
    } else {
        labels::dec(n) + " items"@
    }) + " into "@ + dir
}

/// What dropping `n` files on the window will do.
pub fn drop_label(n: usize, dir: &str) -> (r: String)
    ensures
        r@ == drop_text(n as nat, dir@),
{
    let what = if n == 1 {
        "1 item".to_owned()
    } else {
        cat(decimal(n as u64).as_str(), " items")
    };
    let mut s = cat3("Drop to copy ", what.as_str(), " into ");
    s.append(dir);
    s
}

/// The head of a column: its name, and an arrow where the list is in its order.
pub open spec fn head_text(name: Seq<char>, k: SortKey, p: Pane) -> Seq<char> {
    name + (if p.sort_key == k {
        if p.sort_asc {
            " ⏶"@
        } else {
            " ⏷"@
        }
    } else {
        Seq::empty()
    })
}

impl Pane {
    /// The head of a column.
    pub fn column_head(&self, name: &str, k: SortKey) -> (r: String)
        ensures
            r@ == head_text(name@, k, *self),
    {
        let mut s = name.to_owned();
        if self.sort_key == k {
            if self.sort_asc {
                s.append(" ⏶");
            } else {
                s.append(" ⏷");
            }
        }
        assert(s@ =~= head_text(name@, k, *self));
        s
    }
}

impl Explorer {
    /// Whether a row is dimmed: it was cut and not pasted yet.
    pub fn is_cut(&self, i: usize) -> (r: bool)
        requires
            i < self.pane.entries@.len(),
        ensures
            r == (self.clipboard matches Some(f) && f.cut && sidebar::holds(
                self.pane.style,
                text::texts(f.paths@),
                paths::join_spec(self.pane.style, self.pane.current_dir@, self.pane.entries@[i as int].name@),
            )),
    {
        let full = join(self.pane.style, self.pane.current_dir.as_str(), self.pane.entries[i].name.as_str());
        match &self.clipboard {
            Some(f) => f.cut && sidebar::has_path(self.pane.style, &f.paths, full.as_str()),
            None => false,
        }
    }
}

/// What the list shows of a row.
pub struct RowCells {
    pub name: String,
    /// It was cut and waits to be pasted.
    pub dimmed: bool,
    /// How large it is, where that is known.
    pub size: Option<String>,
    pub kind: &'static str,
    /// The category that a file is colored by.
    pub category: Option<FileCategory>,
    /// How old it is, where that is known.
    pub age: Option<String>,
}

/// The cells show an entry.
pub open spec fn cells_show(
    c: RowCells,
    style: PathStyle,
    e: Entry,
    sizes: Option<Vec<FolderSize>>,
    now: Stamp,
) -> bool {
    &&& c.name@ == e.name@
    &&& text::opt_text(c.size) == (if e.is_dir {
        match listing::known_size(sizes, e) {
            Some(n) => Some(labels::human_size_spec(n as nat)),
            None => None,
        }
    } else {
        Some(labels::human_size_spec(e.size as nat))
    })
    &&& c.kind@ == listing::kind_label(style, e)
    &&& c.category == (if e.is_dir {
        None
    } else {
        Some(filetype::category_spec(style, e.name@))
    })
    &&& text::opt_text(c.age) == (match e.modified {
        Some(t) => Some(details::age_text(t, now)),
        None => None,
    })
}

impl Explorer {
    /// What the list shows of row `i`.
    pub fn row_cells(&self, i: usize, now: Stamp) -> (r: RowCells)
        requires
            i < self.pane.entries@.len(),
            details::times_ok(self.pane.entries@[i as int]),
            now.wf(),
        ensures
            cells_show(r, self.pane.style, self.pane.entries@[i as int], self.pane.folder_sizes, now),
            r.dimmed == (self.clipboard matches Some(f) && f.cut && sidebar::holds(
                self.pane.style,
                text::texts(f.paths@),
                paths::join_spec(self.pane.style, self.pane.current_dir@, self.pane.entries@[i as int].name@),
            )),
    {
        let dimmed = self.is_cut(i);
        let p = &self.pane;
        let e = &p.entries[i];
        let bytes = if e.is_dir {
            folder_size(&p.folder_sizes, e)
        } else {
            Some(e.size)
        };
        let size = match bytes {
            Some(n) => Some(human_size(n)),
            None => None,
        };
        let category = if e.is_dir {
            None
        } else {
            Some(categorize_in(p.style, e.name.as_str()))
        };
        let age = match e.modified {
            Some(t) => Some(humanize_age(t, now)),
            None => None,
        };
        RowCells { name: e.name.clone(), dimmed, size, kind: entry_kind(p.style, e), category, age }
    }
}

/// A deletion that cannot be taken back is never confirmed by Enter alone.
pub proof fn law_permanent_needs_a_click(q: DeleteQuestion, what: Seq<char>, permanent: bool)
    requires
        asks_delete(q, what, permanent),
    ensures
        q.enter_confirms <==> !permanent,
{
}

/// The footer tells of a running operation first, then of what went wrong, and
/// only else of the folder; a paste alone can be cancelled.
pub proof fn law_footer_tells_what_matters(x: Explorer, f: Footer)
    requires
        footer_shows(x, f),
    ensures
        f is Working <==> !(x.job is Idle),
        f is Working ==> (f->can_cancel <==> x.job is Pasting),
        f is Problem <==> x.job is Idle && x.op_error is Some,
        f is Ready <==> x.job is Idle && x.op_error is None,
        f is Ready ==> {
            &&& f->summary@ == x.pane.status_summary@
            &&& f->clip is Some <==> x.clipboard is Some
            &&& f->undo is Some <==> x.history.undo@.len() > 0
            &&& f->redo is Some <==> x.history.redo@.len() > 0
        },
{
}

/// The question before a deletion names the one file, or says how many there are.
pub proof fn law_deletion_says_what_goes(style: PathStyle, files: Seq<Seq<char>>)
    ensures
        files.len() == 1 && paths::file_name_spec(style, files[0]) is Some ==> deleted_what(style, files) == seq!['“']
            + paths::file_name_spec(style, files[0])->0 + seq!['”'],
        files.len() != 1 ==> deleted_what(style, files) == labels::dec(files.len()) + seq![' ', 'i', 't', 'e', 'm', 's'],
{
    reveal_strlit("“");
    reveal_strlit("”");
    reveal_strlit(" items");
    assert("“"@ =~= seq!['“']);
    assert("”"@ =~= seq!['”']);
    assert(" items"@ =~= seq![' ', 'i', 't', 'e', 'm', 's']);
}

/// A row shows the size of every file, and of a folder only where a scan knows
/// it, and a category for files alone.
pub proof fn law_row_shows_its_entry(c: RowCells, style: PathStyle, e: Entry, sizes: Option<Vec<FolderSize>>, now: Stamp)
    requires
        cells_show(c, style, e, sizes, now),
    ensures
        c.name@ == e.name@,
        !e.is_dir ==> c.size is Some && c.size->0@ == labels::human_size_spec(e.size as nat),
        e.is_dir && sizes is None ==> c.size is None,
        c.category is Some <==> !e.is_dir,
        c.age is Some <==> e.modified is Some,
{
}

/// A column shows an arrow exactly where the list is in its order, up where the
/// least comes first.
pub proof fn law_arrow_stands_at_the_sorted_column(name: Seq<char>, k: SortKey, p: Pane)
    ensures
        p.sort_key != k ==> head_text(name, k, p) == name,
        p.sort_key == k && p.sort_asc ==> head_text(name, k, p) == name + seq![' ', '⏶'],
        p.sort_key == k && !p.sort_asc ==> head_text(name, k, p) == name + seq![' ', '⏷'],
{
    reveal_strlit(" ⏶");
    reveal_strlit(" ⏷");
    assert(" ⏶"@ =~= seq![' ', '⏶']);
    assert(" ⏷"@ =~= seq![' ', '⏷']);
    assert(name + Seq::<char>::empty() =~= name);
}

/// What a drag says begins with what it does: `Copy` or `Move`.
pub proof fn law_drag_says_what_it_does(style: PathStyle, files: Seq<Seq<char>>, copy: bool)
    ensures
        badge_text(style, files, copy).take(5) == (if copy {
            seq!['C', 'o', 'p', 'y', ' ']
        } else {
            seq!['M', 'o', 'v', 'e', ' ']
        }),
{
    reveal_strlit("Copy ");
    reveal_strlit("Move ");
    assert(copy ==> badge_text(style, files, copy).take(5) =~= seq!['C', 'o', 'p', 'y', ' ']);
    assert(!copy ==> badge_text(style, files, copy).take(5) =~= seq!['M', 'o', 'v', 'e', ' ']);
}

} // verus!
