//! The explorer as a whole: the pane, the folder tree and the city, the
//! clipboard, the dialogs, and the one file operation that may be running.
use vstd::prelude::*;
use crate::browse::Entry;
use crate::city::{self, City};
use crate::clipboard::Files;
use crate::details::{self, properties_of, Field};
use crate::listing::{self, folder_size};
use crate::location::{self, reroot};
use crate::names;
use crate::pane::{self, Pane};
use crate::paths::{self, file_name, parent, PathStyle};
use crate::prompt::{self, undo_of, Edit, EditPlan, EditStep, NamePrompt, PromptKind};
use crate::sidebar::{self, Sidebar};
use crate::text::{self, copy_texts};
use crate::time::Stamp;
use crate::transfer::{self, check_transfer, Candidate, DeleteOutcome, Moved, PasteOutcome, TransferCheck};
use crate::tree::Tree;
use crate::undo::{self, History, UndoDone, UndoEntry, UndoOp};

verus! {

/// What the keyboard drives.
#[derive(Clone, Copy, Debug, PartialEq, Eq, Structural)]
pub enum Focus {
    Tree,
    List,
}

/// What is shown of a folder.
#[derive(Clone, Copy, Debug, PartialEq, Eq, Structural)]
pub enum Mode {
    List,
    City,
}

/// The file operation that is running.
pub enum Job {
    Idle,
    Pasting { cut: bool, label: String },
    Deleting,
    /// An entry of the history is being reversed.
    Reversing { entry: UndoEntry, redo: bool },
}

/// The explorer.
pub struct Explorer {
    pub pane: Pane,
    pub sidebar: Sidebar,
    pub city: City,
    pub mode: Mode,
    pub focus: Focus,
    pub show_hidden: bool,
    /// The details panel is open.
    pub details: bool,
    pub clipboard: Option<Files>,
    pub history: History,
    pub job: Job,
    /// What went wrong last.
    pub op_error: Option<String>,
    pub prompt: Option<NamePrompt>,
    /// What is to be deleted once that is confirmed.
    pub confirm_delete: Option<Vec<String>>,
}

/// The tree shows the way to a folder.
pub open spec fn way_shown(s: Sidebar, t: Sidebar, dir: Seq<char>) -> bool {
    &&& t == (Sidebar { expanded: t.expanded, ..s })
    &&& text::texts(t.expanded@) == sidebar::with_folders_above(s.style, text::texts(s.expanded@), dir)
}

/// The tree has to be listed anew.
pub open spec fn listings_dropped(s: Sidebar, t: Sidebar) -> bool {
    t == (Sidebar { branches: t.branches, ..s }) && t.branches@.len() == 0
}

/// A folder was opened.
pub open spec fn navigated(x: Explorer, y: Explorer, path: Seq<char>) -> bool {
    if paths::same_path_spec(x.pane.style, location::upper_drive(path), x.pane.current_dir@) {
        y == (Explorer { pane: Pane { entries_dirty: true, ..x.pane }, ..x })
    } else {
        &&& y == (Explorer { pane: y.pane, sidebar: y.sidebar, op_error: None, ..x })
        &&& pane::opened(x.pane, y.pane, path)
        &&& way_shown(x.sidebar, y.sidebar, y.pane.current_dir@)
    }
}

/// One step back, where there is one.
pub open spec fn stepped_back(x: Explorer, y: Explorer) -> bool {
    if x.pane.back_stack@.len() == 0 {
        y == x
    } else {
        &&& y == (Explorer { pane: y.pane, sidebar: y.sidebar, ..x })
        &&& pane::went_back(x.pane, y.pane)
        &&& way_shown(x.sidebar, y.sidebar, y.pane.current_dir@)
    }
}

/// One step forward, where there is one.
pub open spec fn stepped_forward(x: Explorer, y: Explorer) -> bool {
    if x.pane.fwd_stack@.len() == 0 {
        y == x
    } else {
        &&& y == (Explorer { pane: y.pane, sidebar: y.sidebar, ..x })
        &&& pane::went_forward(x.pane, y.pane)
        &&& way_shown(x.sidebar, y.sidebar, y.pane.current_dir@)
    }
}

/// `n` steps back.
pub open spec fn stepped_back_by(x: Explorer, y: Explorer, n: nat) -> bool
    decreases n,
{
    if n == 0 {
        y == x
    } else {
        exists|m: Explorer| #[trigger] stepped_back(x, m) && stepped_back_by(m, y, (n - 1) as nat)
    }
}

/// `n` steps forward.
pub open spec fn stepped_forward_by(x: Explorer, y: Explorer, n: nat) -> bool
    decreases n,
{
    if n == 0 {
        y == x
    } else {
        exists|m: Explorer| #[trigger] stepped_forward(x, m) && stepped_forward_by(m, y, (n - 1) as nat)
    }
}

/// Up to the parent folder, where there is one.
pub open spec fn stepped_up(x: Explorer, y: Explorer) -> bool {
    if paths::parent_spec(x.pane.style, x.pane.current_dir@) is None {
        y == x
    } else {
        &&& y == (Explorer { pane: y.pane, sidebar: y.sidebar, op_error: None, ..x })
        &&& pane::went_up(x.pane, y.pane)
        &&& way_shown(x.sidebar, y.sidebar, y.pane.current_dir@)
    }
}

/// A folder that is gone was left.
pub open spec fn left_gone<F: Fn(&str) -> bool>(x: Explorer, y: Explorer, exists_at: F, left: bool) -> bool {
    &&& pane::left_if_gone(x.pane, y.pane, exists_at, left)
    &&& y == (Explorer { pane: y.pane, sidebar: y.sidebar, ..x })
    &&& if left {
        way_shown(x.sidebar, y.sidebar, y.pane.current_dir@)
    } else {
        y.sidebar == x.sidebar
    }
}

/// An operation touched `item`.
pub open spec fn item_touched(x: Explorer, y: Explorer, item: Seq<char>) -> bool {
    &&& y == (Explorer { pane: y.pane, sidebar: y.sidebar, ..x })
    &&& pane::touched(x.pane, y.pane, item)
    &&& listings_dropped(x.sidebar, y.sidebar)
}

/// A folder moved from `from` to `to`, and we with it where we are in it.
pub open spec fn followed(x: Explorer, y: Explorer, from: Seq<char>, to: Seq<char>) -> bool {
    match location::reroot_spec(x.pane.style, x.pane.current_dir@, from, to) {
        Some(p) => {
            &&& y == (Explorer {
                pane: Pane { current_dir: y.pane.current_dir, addr_edit: y.pane.current_dir, ..x.pane },
                sidebar: y.sidebar,
                ..x
            })
            &&& y.pane.current_dir@ == p
            &&& way_shown(x.sidebar, y.sidebar, p)
        },
        None => y == x,
    }
}

/// A file operation is running.
pub open spec fn busy(x: Explorer) -> bool {
    !(x.job is Idle)
}

impl Explorer {
    /// The selection is sound, and all parts read paths alike.
    pub open spec fn wf(&self) -> bool {
        &&& self.pane.wf()
        &&& self.sidebar.style == self.pane.style
        &&& self.city.style == self.pane.style
    }

    /// The explorer at a folder.
    pub fn new(style: PathStyle, dir: &str) -> (r: Explorer)
        ensures
            r.wf(),
            pane::is_new(r.pane, style, dir@),
            sidebar::is_new(r.sidebar, style),
            r.city == city::new_city(style),
            r.mode == Mode::List,
            r.focus == Focus::List,
            !r.show_hidden,
            !r.details,
            r.clipboard is None,
            r.history.undo@.len() == 0 && r.history.redo@.len() == 0,
            r.job is Idle,
            r.op_error is None,
            r.prompt is None,
            r.confirm_delete is None,
    {
        Explorer {
            pane: Pane::new(style, dir),
            sidebar: Sidebar::new(style),
            city: City::new(style),
            mode: Mode::List,
            focus: Focus::List,
            show_hidden: false,
            details: false,
            clipboard: None,
            history: History::new(),
            job: Job::Idle,
            op_error: None,
            prompt: None,
            confirm_delete: None,
        }
    }

    fn show_way(&mut self)
        ensures
            *final(self) == (Explorer { sidebar: final(self).sidebar, ..*old(self) }),
            way_shown(old(self).sidebar, final(self).sidebar, old(self).pane.current_dir@),
    {
        let dir = self.pane.current_dir.clone();
        self.sidebar.open_way_to(dir.as_str());
    }

    /// Opens a folder.
    pub fn navigate_to(&mut self, path: &str)
        ensures
            navigated(*old(self), *final(self), path@),
            old(self).wf() ==> final(self).wf(),
    {
        if self.pane.navigate_to(path) {
            self.op_error = None;
            self.show_way();
        }
    }

    /// Back one step.
    pub fn go_back(&mut self)
        ensures
            stepped_back(*old(self), *final(self)),
            old(self).wf() ==> final(self).wf(),
    {
        if self.pane.go_back() {
            self.show_way();
        }
    }

    /// Forward one step.
    pub fn go_forward(&mut self)
        ensures
            stepped_forward(*old(self), *final(self)),
            old(self).wf() ==> final(self).wf(),
    {
        if self.pane.go_forward() {
            self.show_way();
        }
    }

    /// Back by several steps, as chosen from the history.
    pub fn go_back_by(&mut self, n: usize)
        ensures
            stepped_back_by(*old(self), *final(self), n as nat),
            old(self).wf() ==> final(self).wf(),
        decreases n,
    {
        if n > 0 {
            self.go_back();
            let ghost m = *self;
            self.go_back_by(n - 1);
            assert(stepped_back(*old(self), m));
        }
    }

    /// Forward by several steps, as chosen from the history.
    pub fn go_forward_by(&mut self, n: usize)
        ensures
            stepped_forward_by(*old(self), *final(self), n as nat),
            old(self).wf() ==> final(self).wf(),
        decreases n,
    {
        if n > 0 {
            self.go_forward();
            let ghost m = *self;
            self.go_forward_by(n - 1);
            assert(stepped_forward(*old(self), m));
        }
    }

    /// Up to the parent folder.
    pub fn go_up(&mut self)
        ensures
            stepped_up(*old(self), *final(self)),
            old(self).wf() ==> final(self).wf(),
    {
        if self.pane.go_up() {
            self.op_error = None;
            self.show_way();
        }
    }

    /// Leaves a folder that is gone. `exists_at` is asked.
    pub fn step_out_if_gone<F: Fn(&str) -> bool>(&mut self, exists_at: F) -> (left: bool)
        requires
            forall|p: &str| #[trigger] call_requires(exists_at, (p,)),
        ensures
            left_gone(*old(self), *final(self), exists_at, left),
            old(self).wf() ==> final(self).wf(),
    {
        let left = self.pane.step_out_if_gone(exists_at);
        if left {
            self.show_way();
        }
        left
    }

    /// After an edit gave an item here a name.
    pub fn after_edit(&mut self, name: &str)
        ensures
            *final(self) == (Explorer { pane: final(self).pane, sidebar: final(self).sidebar, ..*old(self) }),
            pane::edited(old(self).pane, final(self).pane, name@),
            listings_dropped(old(self).sidebar, final(self).sidebar),
            old(self).wf() ==> final(self).wf(),
    {
        self.pane.after_edit(name);
        self.sidebar.forget();
    }

    /// After an operation touched `item`.
    pub fn after_op(&mut self, item: &str)
        ensures
            item_touched(*old(self), *final(self), item@),
            old(self).wf() ==> final(self).wf(),
    {
        self.pane.after_op(item);
        self.sidebar.forget();
    }

    /// Takes folder sizes from the scanned tree, where it covers the folder.
    pub fn recompute_folder_sizes(&mut self, t: Option<&Tree>)
        requires
            t matches Some(t) ==> t.wf(),
        ensures
            *final(self) == (Explorer {
                pane: Pane {
                    folder_sizes: final(self).pane.folder_sizes,
                    cur_dir_size: final(self).pane.cur_dir_size,
                    ..old(self).pane
                },
                ..*old(self)
            }),
            ({
                let node = match t {
                    Some(t) => city::node_for(old(self).city, t@, old(self).pane.current_dir@, true),
                    None => None,
                };
                match node {
                    Some(id) => {
                        let n = t->0@[id.at()];
                        &&& final(self).pane.cur_dir_size == Some(n.subtree_size)
                        &&& final(self).pane.folder_sizes matches Some(v) && city::size_models(v@)
                            == city::sizes_among(t->0@, n.children@, n.children@.len() as int)
                    },
                    None => final(self).pane.cur_dir_size is None && final(self).pane.folder_sizes is None,
                }
            }),
            old(self).wf() ==> final(self).wf(),
    {
        match t {
            Some(t) => {
                self.pane.folder_sizes = self.city.compute_folder_sizes(t, self.pane.current_dir.as_str());
                self.pane.cur_dir_size = self.city.scanned_subtree_size(t, self.pane.current_dir.as_str());
            },
            None => {
                self.pane.folder_sizes = None;
                self.pane.cur_dir_size = None;
            },
        }
    }

    /// Takes a new listing of the folder, or why there is none.
    pub fn reload_entries(
        &mut self,
        listed: Result<Vec<Entry>, String>,
        space: Option<(u64, u64)>,
        folder: Option<Entry>,
    )
        requires
            old(self).wf(),
        ensures
            final(self).wf(),
            *final(self) == (Explorer { pane: final(self).pane, ..*old(self) }),
            pane::reloaded(old(self).pane, final(self).pane, listed, space, folder, old(self).show_hidden),
    {
        let show_hidden = self.show_hidden;
        self.pane.reload_entries(listed, space, folder, show_hidden);
    }

    /// Shows what passes the filter.
    pub fn apply_filter(&mut self)
        requires
            old(self).wf(),
        ensures
            final(self).wf(),
            *final(self) == (Explorer { pane: final(self).pane, ..*old(self) }),
            pane::filtered(old(self).pane, final(self).pane, old(self).show_hidden),
    {
        let show_hidden = self.show_hidden;
        self.pane.apply_filter(show_hidden);
    }

    /// Shows hidden entries or not, in the list and in the tree.
    pub fn set_hidden(&mut self, show_hidden: bool)
        requires
            old(self).wf(),
        ensures
            final(self).wf(),
            *final(self) == (Explorer {
                pane: final(self).pane,
                sidebar: final(self).sidebar,
                show_hidden,
                ..*old(self)
            }),
            listings_dropped(old(self).sidebar, final(self).sidebar),
            pane::filtered(old(self).pane, final(self).pane, show_hidden),
    {
        self.show_hidden = show_hidden;
        self.sidebar.forget();
        self.apply_filter();
    }

    /// Jumps in the list to what was typed, and makes the list the one that the
    /// keyboard drives where something was found.
    pub fn type_ahead_list(&mut self, typed: &str, now: u64) -> (r: bool)
        requires
            old(self).wf(),
            old(self).pane.lead matches Some(i) ==> i + old(self).pane.entries@.len() < usize::MAX,
        ensures
            final(self).wf(),
            *final(self) == (Explorer {
                pane: final(self).pane,
                focus: if r {
                    Focus::List
                } else {
                    old(self).focus
                },
                ..*old(self)
            }),
            pane::jumped(old(self).pane, final(self).pane, typed@, now, r),
    {
        let r = self.pane.type_ahead_list(typed, now);
        if r {
            self.focus = Focus::List;
        }
        r
    }

    /// Jumps in the tree to the next folder that what was typed starts the name
    /// of.
    pub fn type_ahead_tree(&mut self, typed: &str, now: u64) -> (r: bool)
        ensures
            old(self).wf() ==> final(self).wf(),
            typed@.len() == 0 ==> !r && *final(self) == *old(self),
            typed@.len() > 0 ==> tree_jumped(*old(self), *final(self), text::lower_text(typed@), now, r),
    {
        let (q, _repeat) = match self.pane.type_ahead_input(typed, now) {
            Some(x) => x,
            None => {
                return false;
            },
        };
        let ghost a = *self;
        assert(typed_into(*old(self), a, text::lower_text(typed@), now));
        let hit = self.sidebar.search(q.as_str(), self.pane.current_dir.as_str());
        match hit {
            Some(p) => {
                self.open_in_tree(p.as_str());
                assert(found_in_tree(a, *self, true));
                true
            },
            None => {
                assert(found_in_tree(a, *self, false));
                false
            },
        }
    }

    /// Opens a folder from the tree, which is scrolled to it.
    pub fn open_in_tree(&mut self, p: &str)
        ensures
            opened_in_tree(*old(self), *final(self), p@),
            old(self).wf() ==> final(self).wf(),
    {
        self.navigate_to(p);
        let ghost b = *self;
        self.sidebar.scroll = true;
        self.focus = Focus::Tree;
        assert(navigated(*old(self), b, p@));
    }
}

/// The folder in the tree that a search text leads to.
pub open spec fn tree_hit(x: Explorer, q: Seq<char>) -> Option<Seq<char>> {
    let rows = x.sidebar.rows();
    let start = sidebar::search_start(x.sidebar.style, rows, x.pane.current_dir@);
    match sidebar::next_named(x.sidebar.style, rows, q, start, 0) {
        Some(i) => Some(rows[i]),
        None => None,
    }
}

/// The search text was typed.
pub open spec fn typed_into(x: Explorer, a: Explorer, low: Seq<char>, now: u64) -> bool {
    &&& a == (Explorer { pane: Pane { type_ahead: a.pane.type_ahead, type_ahead_time: now, ..x.pane }, ..x })
    &&& a.pane.type_ahead@ == pane::search_text(&x.pane, low, now)
}

/// The folder was opened from the tree.
pub open spec fn opened_in_tree(x: Explorer, y: Explorer, p: Seq<char>) -> bool {
    exists|b: Explorer|
        #[trigger] navigated(x, b, p) && y == (Explorer {
            sidebar: Sidebar { scroll: true, ..b.sidebar },
            focus: Focus::Tree,
            ..b
        })
}

/// The search text led to a folder in the tree, or to none.
pub open spec fn found_in_tree(x: Explorer, y: Explorer, hit: bool) -> bool {
    match tree_hit(x, x.pane.type_ahead@) {
        Some(p) => hit && opened_in_tree(x, y, p),
        None => !hit && y == x,
    }
}

/// What was typed with the tree in focus led to a folder, or to none.
pub open spec fn tree_jumped(x: Explorer, y: Explorer, low: Seq<char>, now: u64, hit: bool) -> bool {
    exists|a: Explorer| #[trigger] typed_into(x, a, low, now) && found_in_tree(a, y, hit)
}

impl Explorer {
    /// Asks for another name of an entry.
    pub fn open_rename(&mut self, orig: &str)
        ensures
            *final(self) == (Explorer { prompt: final(self).prompt, ..*old(self) }),
            final(self).prompt matches Some(p) && asks_rename(p, orig@),
            old(self).wf() ==> final(self).wf(),
    {
        self.prompt = Some(NamePrompt::new(PromptKind::Rename { orig: orig.to_owned() }, orig.to_owned()));
    }

    /// Asks for another name of a folder; a drive's root has none.
    pub fn open_rename_dir_at(&mut self, dir: &str)
        ensures
            *final(self) == (Explorer { prompt: final(self).prompt, ..*old(self) }),
            match paths::file_name_spec(old(self).pane.style, dir@) {
                Some(n) => final(self).prompt matches Some(p) && asks_rename_dir(p, dir@, n),
                None => final(self).prompt == old(self).prompt,
            },
            old(self).wf() ==> final(self).wf(),
    {
        match file_name(self.pane.style, dir) {
            Some(name) => {
                self.prompt = Some(NamePrompt::new(PromptKind::RenameDir { dir: dir.to_owned() }, name));
            },
            None => {},
        }
    }

    /// Asks for the name of a new folder, and proposes a free one.
    pub fn open_new_folder(&mut self)
        ensures
            *final(self) == (Explorer { prompt: final(self).prompt, ..*old(self) }),
            final(self).prompt matches Some(p) && asks_new_folder(
                p,
                names::free_folder_name(pane::names_of(old(self).pane.all_entries@), 1),
            ),
            old(self).wf() ==> final(self).wf(),
    {
        let buf = self.pane.unique_new_folder_name();
        self.prompt = Some(NamePrompt::new(PromptKind::NewFolder, buf));
    }

    /// Puts files on the clipboard.
    pub fn set_clipboard(&mut self, paths: Vec<String>, cut: bool)
        ensures
            *final(self) == (Explorer { clipboard: Some(Files { paths, cut }), op_error: None, ..*old(self) }),
            old(self).wf() ==> final(self).wf(),
    {
        self.clipboard = Some(Files { paths, cut });
        self.op_error = None;
    }

    /// Puts the selected files on the clipboard. What is to go on the system's
    /// clipboard too; `None` where nothing is selected.
    pub fn clip_selected(&mut self, cut: bool) -> (r: Option<Vec<String>>)
        ensures
            clipped(*old(self), *final(self), selected(*old(self)), cut, r),
            old(self).wf() ==> final(self).wf(),
    {
        let paths = self.pane.selected_paths();
        if paths.len() == 0 {
            assert(text::texts(paths@).len() == 0);
            return None;
        }
        assert(text::texts(paths@).len() > 0);
        let copy = copy_texts(&paths);
        self.set_clipboard(paths, cut);
        Some(copy)
    }

    /// Puts the folder we are in on the clipboard, unless it is a root.
    pub fn clip_current_dir(&mut self, cut: bool) -> (r: Option<Vec<String>>)
        ensures
            clipped(
                *old(self),
                *final(self),
                if paths::parent_spec(old(self).pane.style, old(self).pane.current_dir@) is Some {
                    seq![old(self).pane.current_dir@]
                } else {
                    Seq::empty()
                },
                cut,
                r,
            ),
            old(self).wf() ==> final(self).wf(),
    {
        if parent(self.pane.style, self.pane.current_dir.as_str()).is_none() {
            return None;
        }
        let mut v: Vec<String> = Vec::new();
        v.push(self.pane.current_dir.clone());
        assert(text::texts(v@) =~= seq![self.pane.current_dir@]);
        let copy = copy_texts(&v);
        self.set_clipboard(v, cut);
        Some(copy)
    }

    /// Takes what another program put on the system's clipboard.
    pub fn take_clipboard(&mut self, files: Option<Files>)
        ensures
            *final(self) == (Explorer { clipboard: files, ..*old(self) }),
    {
        self.clipboard = files;
    }

    /// Whether a file operation is running.
    pub fn file_op_running(&self) -> (r: bool)
        ensures
            r == busy(*self),
    {
        !matches!(self.job, Job::Idle)
    }

    /// Whether there is something to paste and nothing in its way.
    pub fn can_paste(&self) -> (r: bool)
        ensures
            r == (self.clipboard is Some && !busy(*self)),
    {
        self.clipboard.is_some() && !self.file_op_running()
    }

    /// Asks whether to delete the selected files.
    pub fn request_delete(&mut self)
        ensures
            *final(self) == (Explorer { confirm_delete: final(self).confirm_delete, ..*old(self) }),
            if busy(*old(self)) || selected(*old(self)).len() == 0 {
                final(self).confirm_delete == old(self).confirm_delete
            } else {
                final(self).confirm_delete matches Some(v) && text::texts(v@) == selected(*old(self))
            },
            old(self).wf() ==> final(self).wf(),
    {
        if self.file_op_running() {
            return;
        }
        let paths = self.pane.selected_paths();
        assert(text::texts(paths@).len() == paths@.len());
        if paths.len() > 0 {
            self.confirm_delete = Some(paths);
        }
    }

    /// Asks whether to delete a folder, which is never a root.
    pub fn request_delete_dir(&mut self, dir: &str)
        ensures
            *final(self) == (Explorer { confirm_delete: final(self).confirm_delete, ..*old(self) }),
            if busy(*old(self)) || paths::parent_spec(old(self).pane.style, dir@) is None {
                final(self).confirm_delete == old(self).confirm_delete
            } else {
                final(self).confirm_delete matches Some(v) && text::texts(v@) == seq![dir@]
            },
            old(self).wf() ==> final(self).wf(),
    {
        if self.file_op_running() {
            return;
        }
        if parent(self.pane.style, dir).is_some() {
            let mut v: Vec<String> = Vec::new();
            v.push(dir.to_owned());
            assert(text::texts(v@) =~= seq![dir@]);
            self.confirm_delete = Some(v);
        }
    }

    /// A transfer is asked for: whether it starts. `cs` are the files and `dest`
    /// the folder, as the system resolves them.
    pub fn start_transfer(&mut self, cs: &Vec<Candidate>, dest: &str, cut: bool) -> (r: bool)
        ensures
            transfer_asked(*old(self), *final(self), cs@, dest@, cut, r),
            old(self).wf() ==> final(self).wf(),
    {
        match check_transfer(self.pane.style, self.file_op_running(), cs, dest, cut) {
            TransferCheck::Busy(m) => {
                self.op_error = Some(m);
                false
            },
            TransferCheck::Nothing => false,
            TransferCheck::Refused(m) => {
                self.op_error = Some(m);
                false
            },
            TransferCheck::Go(label) => {
                self.op_error = None;
                self.job = Job::Pasting { cut, label };
                true
            },
        }
    }

    /// A deletion was confirmed: whether it starts.
    pub fn start_delete(&mut self, paths: &Vec<String>) -> (r: bool)
        ensures
            r == (!busy(*old(self)) && paths@.len() > 0),
            *final(self) == (if r {
                Explorer { op_error: None, job: Job::Deleting, ..*old(self) }
            } else {
                *old(self)
            }),
    {
        if self.file_op_running() || paths.len() == 0 {
            return false;
        }
        self.op_error = None;
        self.job = Job::Deleting;
        true
    }

    /// The newest operation is to be undone, or redone: what has to be run for
    /// that; `None` where there is nothing, or another operation is running.
    pub fn start_reversal(&mut self, redo: bool) -> (r: Option<UndoOp>)
        ensures
            match r {
                Some(op) => reversal_started(*old(self), *final(self), redo, op),
                None => *final(self) == *old(self) && (busy(*old(self)) || (if redo {
                    old(self).history.redo@.len() == 0
                } else {
                    old(self).history.undo@.len() == 0
                })),
            },
            old(self).wf() ==> final(self).wf(),
    {
        let running = self.file_op_running();
        match self.history.start_reversal(redo, running) {
            Some(entry) => {
                let op = entry.op.copy();
                self.op_error = None;
                self.job = Job::Reversing { entry, redo };
                Some(op)
            },
            None => None,
        }
    }
}

/// The dialog asks for another name of an entry.
pub open spec fn asks_rename(p: NamePrompt, orig: Seq<char>) -> bool {
    &&& p.kind matches PromptKind::Rename { orig: o } && o@ == orig
    &&& p.buf@ == orig
    &&& p.error is None
    &&& p.focus
}

/// The dialog asks for another name of a folder.
pub open spec fn asks_rename_dir(p: NamePrompt, dir: Seq<char>, name: Seq<char>) -> bool {
    &&& p.kind matches PromptKind::RenameDir { dir: d } && d@ == dir
    &&& p.buf@ == name
    &&& p.error is None
    &&& p.focus
}

/// The dialog asks for the name of a new folder.
pub open spec fn asks_new_folder(p: NamePrompt, name: Seq<char>) -> bool {
    &&& p.kind is NewFolder
    &&& p.buf@ == name
    &&& p.error is None
    &&& p.focus
}

/// The paths of the selected entries.
pub open spec fn selected(x: Explorer) -> Seq<Seq<char>> {
    pane::paths_of(
        x.pane.style,
        x.pane.current_dir@,
        x.pane.entries@,
        x.pane.selected(),
        x.pane.entries@.len() as int,
    )
}

/// The files are on the clipboard, if there are any.
pub open spec fn clipped(x: Explorer, y: Explorer, files: Seq<Seq<char>>, cut: bool, r: Option<Vec<String>>) -> bool {
    if files.len() == 0 {
        r is None && y == x
    } else {
        &&& r matches Some(v) && text::texts(v@) == files
        &&& y == (Explorer { clipboard: y.clipboard, op_error: None, ..x })
        &&& y.clipboard matches Some(f) && text::texts(f.paths@) == files && f.cut == cut
    }
}

/// A transfer was asked for, and started or was refused.
pub open spec fn transfer_asked(
    x: Explorer,
    y: Explorer,
    cs: Seq<Candidate>,
    dest: Seq<char>,
    cut: bool,
    starts: bool,
) -> bool {
    let refusal = if busy(x) {
        Some("Wait for the current file operation to finish."@)
    } else if cs.len() == 0 {
        None
    } else {
        transfer::first_error(x.pane.style, cs, dest, cut, 0)
    };
    &&& starts == (!busy(x) && cs.len() > 0 && refusal is None)
    &&& if starts {
        &&& y == (Explorer { op_error: None, job: y.job, ..x })
        &&& y.job matches Job::Pasting { cut: c, label } && c == cut && label@ == transfer::transfer_label(
            x.pane.style,
            cs[0].path@,
            cs.len(),
            cut,
        )
    } else {
        match refusal {
            Some(m) => y == (Explorer { op_error: y.op_error, ..x }) && text::opt_text(y.op_error) == Some(m),
            None => y == x,
        }
    }
}

/// The newest entry of a stack is being reversed, by running `op`.
pub open spec fn reversal_started(x: Explorer, y: Explorer, redo: bool, op: UndoOp) -> bool {
    &&& !busy(x)
    &&& y == (Explorer { history: y.history, op_error: None, job: y.job, ..x })
    &&& y.job matches Job::Reversing { entry, redo: r } && r == redo && undo::same_op(op, entry.op)
        && undo::takes_newest(x.history, redo, y.history, entry)
}

/// What undoes a transfer: what was moved goes back, what was copied to the
/// recycle bin.
pub open spec fn undoes_paste(e: UndoEntry, done: Seq<Moved>, cut: bool) -> bool {
    if cut {
        e.label@ == "move"@ && (e.op matches UndoOp::MoveBack { pairs } && pairs@ == done)
    } else {
        e.label@ == "copy"@ && (e.op matches UndoOp::Trash { paths } && paths@ == done.map_values(|m: Moved| m.to))
    }
}

/// The pane has to be listed again.
pub open spec fn stale(p: Pane) -> Pane {
    Pane { entries_dirty: true, ..p }
}

/// A transfer is over. What was done can be undone, and a cut is used up once
/// anything was moved.
pub open spec fn paste_done(x: Explorer, y: Explorer, cut: bool, out: PasteOutcome, uses_up: bool) -> bool {
    let done = out.done@;
    &&& uses_up == (cut && done.len() > 0)
    &&& y == (Explorer {
        pane: y.pane,
        sidebar: y.sidebar,
        clipboard: if uses_up {
            None
        } else {
            x.clipboard
        },
        history: y.history,
        job: Job::Idle,
        op_error: out.error,
        ..x
    })
    &&& listings_dropped(x.sidebar, y.sidebar)
    &&& if done.len() == 0 {
        y.history == x.history && y.pane == stale(x.pane)
    } else {
        &&& exists|e: UndoEntry| #[trigger] undo::records_new(x.history, e, y.history) && undoes_paste(e, done, cut)
        &&& pane::touched(x.pane, y.pane, done.last().to@)
    }
}

/// A deletion is over. What reached the recycle bin can be restored; after an
/// error the selection stays, otherwise a folder that is gone is left.
pub open spec fn delete_done<F: Fn(&str) -> bool>(x: Explorer, y: Explorer, out: DeleteOutcome, exists_at: F) -> bool {
    &&& y == (Explorer {
        pane: y.pane,
        sidebar: y.sidebar,
        history: y.history,
        job: Job::Idle,
        op_error: out.error,
        ..x
    })
    &&& delete_remembered(x.history, y.history, out.recycled)
    &&& if out.error is Some {
        y.pane == stale(x.pane) && listings_dropped(x.sidebar, y.sidebar)
    } else {
        exists|m: Explorer, left: bool| emptied(x, m) && #[trigger] left_gone(m, y, exists_at, left)
    }
}

/// What reached the recycle bin can be restored.
pub open spec fn delete_remembered(h: History, k: History, recycled: Vec<String>) -> bool {
    if recycled@.len() == 0 {
        k == h
    } else {
        exists|e: UndoEntry|
            #[trigger] undo::records_new(h, e, k) && e.label@ == "delete"@ && (e.op matches UndoOp::Restore { paths }
                && paths == recycled)
    }
}

/// What was selected is gone, and everything has to be listed again.
pub open spec fn emptied(x: Explorer, m: Explorer) -> bool {
    pane::nothing_selected(stale(x.pane), m.pane) && listings_dropped(x.sidebar, m.sidebar)
}

/// The operation is over, and everything has to be listed again.
pub open spec fn operation_over(x: Explorer, m: Explorer) -> bool {
    &&& m == (Explorer { pane: stale(x.pane), sidebar: m.sidebar, job: Job::Idle, ..x })
    &&& listings_dropped(x.sidebar, m.sidebar)
}

impl Explorer {
    fn end_operation(&mut self)
        ensures
            operation_over(*old(self), *final(self)),
            old(self).wf() ==> final(self).wf(),
    {
        self.job = Job::Idle;
        self.pane.entries_dirty = true;
        self.sidebar.forget();
    }

    fn remember_paste(&mut self, done: Vec<Moved>, cut: bool)
        ensures
            *final(self) == (Explorer { history: final(self).history, ..*old(self) }),
            exists|e: UndoEntry|
                #[trigger] undo::records_new(old(self).history, e, final(self).history) && undoes_paste(e, done@, cut),
    {
        let entry = if cut {
            UndoEntry::new(UndoOp::MoveBack { pairs: done }, "move")
        } else {
            let paths = landings(&done);
            UndoEntry::new(UndoOp::Trash { paths }, "copy")
        };
        self.history.push_undo(entry);
        assert(undo::records_new(old(self).history, entry, self.history));
    }

    fn remember_delete(&mut self, recycled: Vec<String>)
        ensures
            *final(self) == (Explorer { history: final(self).history, ..*old(self) }),
            delete_remembered(old(self).history, final(self).history, recycled),
    {
        if recycled.len() > 0 {
            let entry = UndoEntry::new(UndoOp::Restore { paths: recycled }, "delete");
            self.history.push_undo(entry);
            assert(undo::records_new(old(self).history, entry, self.history));
        }
    }

    /// A transfer is over. Whether the system's clipboard is to be emptied.
    #[verifier::rlimit(40)]
    pub fn paste_finished(&mut self, out: PasteOutcome) -> (r: bool)
        requires
            old(self).job is Pasting,
        ensures
            paste_done(*old(self), *final(self), old(self).job->cut, out, r),
            old(self).wf() ==> final(self).wf(),
    {
        let cut = match &self.job {
            Job::Pasting { cut, .. } => *cut,
            _ => false,
        };
        self.end_operation();
        let PasteOutcome { done, error } = out;
        let n: usize = done.len();
        let uses_up = cut && n > 0;
        if uses_up {
            self.clipboard = None;
        }
        self.op_error = error;
        if n > 0 {
            let last = done[n - 1].to.clone();
            self.remember_paste(done, cut);
            self.after_op(last.as_str());
        }
        uses_up
    }

    /// A deletion is over. `exists_at` is asked whether our own folder is still
    /// there.
    #[verifier::rlimit(40)]
    pub fn delete_finished<F: Fn(&str) -> bool>(&mut self, out: DeleteOutcome, exists_at: F)
        requires
            old(self).job is Deleting,
            forall|p: &str| #[trigger] call_requires(exists_at, (p,)),
        ensures
            delete_done(*old(self), *final(self), out, exists_at),
            old(self).wf() ==> final(self).wf(),
    {
        self.end_operation();
        let DeleteOutcome { recycled, error } = out;
        self.remember_delete(recycled);
        let failed = error.is_some();
        self.op_error = error;
        if !failed {
            self.pane.clear_selection();
            let ghost m = *self;
            let left = self.step_out_if_gone(exists_at);
            assert(emptied(*old(self), m));
            assert(left_gone(m, *self, exists_at, left));
        }
    }
}

fn landings(done: &Vec<Moved>) -> (r: Vec<String>)
    ensures
        r@ == done@.map_values(|m: Moved| m.to),
{
    let mut out: Vec<String> = Vec::new();
    let mut i: usize = 0;
    while i < done.len()
        invariant
            i <= done@.len(),
            out@.len() == i,
            forall|k: int| 0 <= k < i ==> (#[trigger] out@[k]) == done@[k].to,
        decreases done@.len() - i,
    {
        out.push(done[i].to.clone());
        i += 1;
    }
    assert(out@ =~= done@.map_values(|m: Moved| m.to));
    out
}

/// A reversal is over with its inverse recorded, before anything follows.
pub open spec fn reversal_recorded(x: Explorer, a: Explorer, done: UndoDone, label: &'static str, redo: bool) -> bool {
    &&& a == (Explorer {
        pane: stale(x.pane),
        sidebar: a.sidebar,
        history: a.history,
        job: Job::Idle,
        op_error: None,
        ..x
    })
    &&& listings_dropped(x.sidebar, a.sidebar)
    &&& undo::records_inverse(x.history, done.inverse, label, redo, a.history)
}

/// We follow a folder that the reversal renamed.
pub open spec fn followed_op(a: Explorer, b: Explorer, op: UndoOp) -> bool {
    match op {
        UndoOp::Rename { from, to } => followed(a, b, from@, to@),
        _ => b == a,
    }
}

/// What a reversal brought back is picked.
pub open spec fn picked(c: Explorer, y: Explorer, select: Option<String>) -> bool {
    match select {
        Some(p) => item_touched(c, y, p@),
        None => y == c,
    }
}

/// A reversal is over: its inverse can be run, we follow a folder that it
/// renamed, leave one that it removed, and pick what it brought back; or it
/// failed.
pub open spec fn reversal_done<F: Fn(&str) -> bool>(
    x: Explorer,
    y: Explorer,
    entry: UndoEntry,
    redo: bool,
    result: Result<UndoDone, String>,
    exists_at: F,
) -> bool {
    match result {
        Ok(done) => exists|a: Explorer, b: Explorer, c: Explorer, left: bool|
            #[trigger] reversal_recorded(x, a, done, entry.label, redo) && #[trigger] followed_op(a, b, entry.op)
                && #[trigger] left_gone(b, c, exists_at, left) && picked(c, y, done.select),
        Err(e) => {
            &&& y == (Explorer {
                pane: stale(x.pane),
                sidebar: y.sidebar,
                job: Job::Idle,
                op_error: Some(e),
                ..x
            })
            &&& listings_dropped(x.sidebar, y.sidebar)
        },
    }
}

impl Explorer {
    fn follow(&mut self, from: &str, to: &str)
        ensures
            followed(*old(self), *final(self), from@, to@),
            old(self).wf() ==> final(self).wf(),
    {
        match reroot(self.pane.style, self.pane.current_dir.as_str(), from, to) {
            Some(p) => {
                self.pane.current_dir = p;
                self.pane.sync_addr();
                self.show_way();
            },
            None => {},
        }
    }

    /// A reversal is over. `exists_at` is asked whether our own folder is still
    /// there.
    pub fn reversal_finished<F: Fn(&str) -> bool>(&mut self, result: Result<UndoDone, String>, exists_at: F)
        requires
            old(self).job is Reversing,
            forall|p: &str| #[trigger] call_requires(exists_at, (p,)),
        ensures
            reversal_done(
                *old(self),
                *final(self),
                old(self).job->entry,
                old(self).job->redo,
                result,
                exists_at,
            ),
            old(self).wf() ==> final(self).wf(),
    {
        let mut job = Job::Idle;
        std::mem::swap(&mut job, &mut self.job);
        self.pane.entries_dirty = true;
        self.sidebar.forget();
        match job {
            Job::Reversing { entry, redo } => {
                match result {
                    Ok(done) => {
                        self.op_error = None;
                        let UndoDone { select, inverse } = done;
                        self.history.record_inverse(inverse, entry.label, redo);
                        let ghost a = *self;
                        assert(reversal_recorded(*old(self), a, done, entry.label, redo));
                        match &entry.op {
                            UndoOp::Rename { from, to } => {
                                self.follow(from.as_str(), to.as_str());
                            },
                            _ => {},
                        }
                        let ghost b = *self;
                        assert(followed_op(a, b, entry.op));
                        let left = self.step_out_if_gone(exists_at);
                        let ghost c = *self;
                        assert(left_gone(b, c, exists_at, left));
                        match select {
                            Some(p) => {
                                self.after_op(p.as_str());
                            },
                            None => {},
                        }
                        assert(picked(c, *self, select));
                    },
                    Err(e) => {
                        self.op_error = Some(e);
                    },
                }
            },
            _ => {},
        }
    }
}

/// A folder was renamed: the tree and we follow it, and everything is listed
/// again.
pub open spec fn folder_renamed(x: Explorer, y: Explorer, from: Seq<char>, to: Seq<char>) -> bool {
    &&& y == (Explorer { pane: y.pane, sidebar: y.sidebar, ..x })
    &&& pane::place_moved(stale(x.pane), y.pane, from, to)
    &&& exists|s: Sidebar, t: Sidebar|
        #[trigger] sidebar::branch_moved(x.sidebar, s, from, to) && #[trigger] listings_dropped(s, t) && way_shown(
            t,
            y.sidebar,
            y.pane.current_dir@,
        )
}

/// An edit was made: it can be undone, and what it made is picked, or the folder
/// that it renamed followed.
pub open spec fn edit_made(x: Explorer, y: Explorer, kind: PromptKind, plan: EditPlan) -> bool {
    exists|a: Explorer, e: UndoEntry|
        #[trigger] edit_remembered(x, a, plan, e) && edit_followed(a, y, kind, plan)
}

/// The edit can be undone.
pub open spec fn edit_remembered(x: Explorer, a: Explorer, plan: EditPlan, e: UndoEntry) -> bool {
    &&& a == (Explorer { history: a.history, ..x })
    &&& prompt::undoes(plan, e)
    &&& undo::records_new(x.history, e, a.history)
}

/// What the edit made is picked, or the folder that it renamed followed.
pub open spec fn edit_followed(a: Explorer, y: Explorer, kind: PromptKind, plan: EditPlan) -> bool {
    match plan {
        EditPlan::Make { name, .. } => name_given(a, y, name@),
        EditPlan::Rename { src, dst, name, .. } => if kind is RenameDir {
            folder_renamed(a, y, src@, dst@)
        } else {
            name_given(a, y, name@)
        },
        _ => false,
    }
}

/// An item here has that name now.
pub open spec fn name_given(x: Explorer, y: Explorer, name: Seq<char>) -> bool {
    &&& y == (Explorer { pane: y.pane, sidebar: y.sidebar, ..x })
    &&& pane::edited(x.pane, y.pane, name)
    &&& listings_dropped(x.sidebar, y.sidebar)
}

impl Explorer {
    fn follow_renamed(&mut self, from: &str, to: &str)
        ensures
            folder_renamed(*old(self), *final(self), from@, to@),
            old(self).wf() ==> final(self).wf(),
    {
        self.sidebar.move_branch(from, to);
        let ghost s = self.sidebar;
        self.sidebar.forget();
        let ghost t = self.sidebar;
        self.pane.entries_dirty = true;
        self.pane.follow(from, to);
        self.show_way();
        assert(sidebar::branch_moved(old(self).sidebar, s, from@, to@));
        assert(listings_dropped(s, t));
    }

    fn remember_edit(&mut self, plan: &EditPlan)
        requires
            plan is Make || plan is Rename,
        ensures
            exists|e: UndoEntry| #[trigger] edit_remembered(*old(self), *final(self), *plan, e),
    {
        match undo_of(plan) {
            Some(e) => {
                self.history.push_undo(e);
                assert(edit_remembered(*old(self), *self, *plan, e));
            },
            None => {},
        }
    }

    fn apply_edit(&mut self, kind: &PromptKind, plan: &EditPlan)
        requires
            plan is Make || plan is Rename,
        ensures
            edit_made(*old(self), *final(self), *kind, *plan),
            old(self).wf() ==> final(self).wf(),
    {
        self.remember_edit(plan);
        let ghost a = *self;
        match plan {
            EditPlan::Make { name, .. } => {
                self.after_edit(name.as_str());
            },
            EditPlan::Rename { src, dst, name, .. } => {
                if matches!(kind, PromptKind::RenameDir { .. }) {
                    self.follow_renamed(src.as_str(), dst.as_str());
                } else {
                    self.after_edit(name.as_str());
                }
            },
            _ => {},
        }
        proof {
            let e = choose|e: UndoEntry| #[trigger] edit_remembered(*old(self), a, *plan, e);
            assert(edit_remembered(*old(self), a, *plan, e));
            assert(edit_followed(a, *self, *kind, *plan));
        }
    }

    /// The edit that a dialog asked for is over: the dialog closes, or stays open
    /// with the error.
    pub fn finish_edit(&mut self, p: NamePrompt, edit: Edit)
        requires
            edit.step is Ended,
            edit.step->Ended_0 == Ok::<bool, String>(true) ==> edit.plan is Make || edit.plan is Rename,
        ensures
            match edit.step->Ended_0 {
                Ok(changed) => if changed {
                    edit_made(Explorer { prompt: None, ..*old(self) }, *final(self), p.kind, edit.plan)
                } else {
                    *final(self) == (Explorer { prompt: None, ..*old(self) })
                },
                Err(e) => *final(self) == (Explorer {
                    prompt: Some(NamePrompt { error: Some(e), focus: true, ..p }),
                    ..*old(self)
                }),
            },
            old(self).wf() ==> final(self).wf(),
    {
        let Edit { plan, step } = edit;
        match step {
            EditStep::Ended(Ok(changed)) => {
                self.prompt = None;
                if changed {
                    self.apply_edit(&p.kind, &plan);
                }
            },
            EditStep::Ended(Err(e)) => {
                let NamePrompt { kind, buf, .. } = p;
                self.prompt = Some(NamePrompt { kind, buf, error: Some(e), focus: true });
            },
            _ => {},
        }
    }
}

/// What the details panel describes: the row that operations act on, or with the
/// tree in focus or nothing selected the folder itself.
pub open spec fn describes_selection(x: Explorer, f: Option<Vec<Field>>, now: Stamp) -> bool {
    let p = x.pane;
    let row = if x.focus == Focus::Tree && x.sidebar.visible {
        None
    } else {
        pane::target_row(p.entries@, p.selected(), p.lead)
    };
    match row {
        Some(i) => {
            let e = p.entries@[i as int];
            f matches Some(v) && details::describes(
                v@,
                p.style,
                e,
                p.current_dir@,
                if e.is_dir {
                    listing::known_size(p.folder_sizes, e)
                } else {
                    None
                },
                now,
            )
        },
        None => match p.cur_entry {
            Some(e) => f matches Some(v) && details::describes(
                v@,
                p.style,
                e,
                match paths::parent_spec(p.style, p.current_dir@) {
                    Some(up) => up,
                    None => p.current_dir@,
                },
                p.cur_dir_size,
                now,
            ),
            None => f is None,
        },
    }
}

/// The times of all entries are times of day.
pub open spec fn all_times_ok(p: Pane) -> bool {
    &&& forall|i: int| 0 <= i < p.entries@.len() ==> details::times_ok(#[trigger] p.entries@[i])
    &&& p.cur_entry matches Some(e) ==> details::times_ok(e)
}

impl Explorer {
    /// Whether a dialog is open.
    pub fn dialog_open(&self) -> (r: bool)
        ensures
            r == (self.prompt is Some || self.confirm_delete is Some),
    {
        self.prompt.is_some() || self.confirm_delete.is_some()
    }

    /// Whether keys are meant for the explorer: no dialog, field or menu has
    /// them.
    pub fn keyboard_free(&self, field_active: bool, menu_open: bool) -> (r: bool)
        ensures
            r == (self.prompt is None && self.confirm_delete is None && !field_active && !menu_open),
    {
        !self.dialog_open() && !field_active && !menu_open
    }

    /// Whether the tree is what the keyboard drives.
    pub fn tree_focused(&self) -> (r: bool)
        ensures
            r == (self.focus == Focus::Tree && self.sidebar.visible),
    {
        self.focus == Focus::Tree && self.sidebar.visible
    }

    /// The fields of the details panel.
    pub fn selected_properties(&self, now: Stamp) -> (r: Option<Vec<Field>>)
        requires
            now.wf(),
            all_times_ok(self.pane),
        ensures
            describes_selection(*self, r, now),
    {
        let p = &self.pane;
        let row = if self.tree_focused() {
            None
        } else {
            p.op_target()
        };
        match row {
            Some(i) => {
                let e = &p.entries[i];
                let size = if e.is_dir {
                    folder_size(&p.folder_sizes, e)
                } else {
                    None
                };
                assert(details::times_ok(p.entries@[i as int]));
                Some(properties_of(p.style, e, p.current_dir.as_str(), size, now))
            },
            None => match &p.cur_entry {
                Some(e) => {
                    let location = match parent(p.style, p.current_dir.as_str()) {
                        Some(up) => up,
                        None => p.current_dir.clone(),
                    };
                    Some(properties_of(p.style, e, location.as_str(), p.cur_dir_size, now))
                },
                None => None,
            },
        }
    }

    /// Opens the `n`-th folder of quick access, where there is one.
    pub fn jump_to_quick(&mut self, n: usize)
        ensures
            if n < old(self).sidebar.quick().len() {
                navigated(*old(self), *final(self), old(self).sidebar.quick()[n as int])
            } else {
                *final(self) == *old(self)
            },
            old(self).wf() ==> final(self).wf(),
    {
        let v = self.sidebar.quick_access();
        assert(text::texts(v@).len() == v@.len());
        if n < v.len() {
            assert(text::texts(v@)[n as int] == v@[n as int]@);
            self.navigate_to(v[n].as_str());
        }
    }

    /// The text in the address bar was entered: opens the folder that it means.
    pub fn enter_address(&mut self)
        ensures
            exists|m: Explorer|
                #[trigger] navigated(
                    *old(self),
                    m,
                    crate::gestures::address_target(old(self).pane.addr_edit@),
                ) && *final(self) == (Explorer { pane: Pane { addr_editing: false, ..m.pane }, ..m }),
            old(self).wf() ==> final(self).wf(),
    {
        let to = crate::gestures::typed_address(self.pane.addr_edit.as_str());
        self.navigate_to(to.as_str());
        let ghost m = *self;
        self.pane.addr_editing = false;
        assert(navigated(*old(self), m, crate::gestures::address_target(old(self).pane.addr_edit@)));
    }
}

/// An operation is never begun while another one runs.
pub proof fn law_one_operation_at_a_time(
    x: Explorer,
    y: Explorer,
    cs: Seq<Candidate>,
    dest: Seq<char>,
    cut: bool,
    starts: bool,
)
    requires
        transfer_asked(x, y, cs, dest, cut, starts),
        busy(x),
    ensures
        !starts,
        y.job == x.job,
        y.history == x.history,
{
}

/// Undoing what was just undone brings the history back: after an undo whose
/// inverse was recorded, a redo runs that inverse.
pub proof fn law_redo_runs_the_inverse(
    x: Explorer,
    a: Explorer,
    done: UndoDone,
    label: &'static str,
    b: Explorer,
    op: UndoOp,
)
    requires
        reversal_recorded(x, a, done, label, false),
        done.inverse is Some,
        reversal_started(a, b, true, op),
    ensures
        undo::same_op(op, done.inverse->0),
        b.history.redo@ == x.history.redo@,
{
    assert(a.history.redo@.drop_last() =~= x.history.redo@);
}

/// Undoing a copy never touches a source. What is recorded for it sends to the
/// recycle bin exactly the places that the transfer reported as destinations, one
/// for each, in their order; a source is among them only where it is one of these
/// places itself.
pub proof fn law_undone_copy_removes_the_copies(x: Explorer, y: Explorer, out: PasteOutcome, uses_up: bool)
    requires
        paste_done(x, y, false, out, uses_up),
        out.done@.len() > 0,
    ensures
        y.history.undo@.len() > 0,
        y.history.undo@.last().op matches UndoOp::Trash { paths } && {
            &&& paths@.len() == out.done@.len()
            &&& forall|i: int| 0 <= i < paths@.len() ==> (#[trigger] paths@[i])@ == out.done@[i].to@
            &&& forall|i: int, k: int|
                0 <= i < paths@.len() && 0 <= k < out.done@.len() && (#[trigger] paths@[i])@ == (
                #[trigger] out.done@[k]).from@ ==> out.done@[i].to@ == out.done@[k].from@
        },
        !uses_up && y.clipboard == x.clipboard,
{
    let e = choose|e: UndoEntry|
        #[trigger] undo::records_new(x.history, e, y.history) && undoes_paste(e, out.done@, false);
    assert(y.history.undo@.last() == e);
}

/// Undoing a move puts back what was moved: what is recorded names for every file
/// where it came from and where it is.
pub proof fn law_undone_move_goes_back(x: Explorer, y: Explorer, out: PasteOutcome, uses_up: bool)
    requires
        paste_done(x, y, true, out, uses_up),
        out.done@.len() > 0,
    ensures
        y.history.undo@.len() > 0,
        y.history.undo@.last().op matches UndoOp::MoveBack { pairs } && {
            &&& pairs@.len() == out.done@.len()
            &&& forall|i: int|
                0 <= i < pairs@.len() ==> (#[trigger] pairs@[i]).from@ == out.done@[i].from@ && pairs@[i].to@
                    == out.done@[i].to@
        },
        uses_up && y.clipboard is None,
{
    let e = choose|e: UndoEntry|
        #[trigger] undo::records_new(x.history, e, y.history) && undoes_paste(e, out.done@, true);
    assert(y.history.undo@.last() == e);
}

/// Undoing a deletion restores what reached the recycle bin, and nothing else.
pub proof fn law_undone_delete_restores_what_was_recycled(h: History, k: History, recycled: Vec<String>)
    requires
        delete_remembered(h, k, recycled),
    ensures
        recycled@.len() == 0 ==> k == h,
        recycled@.len() > 0 ==> k.undo@.len() > 0 && (k.undo@.last().op matches UndoOp::Restore { paths } && paths@.len()
            == recycled@.len() && forall|i: int| 0 <= i < paths@.len() ==> (#[trigger] paths@[i])@ == recycled@[i]@),
{
    if recycled@.len() > 0 {
        let e = choose|e: UndoEntry|
            #[trigger] undo::records_new(h, e, k) && e.label@ == "delete"@ && (e.op matches UndoOp::Restore { paths }
                && paths == recycled);
        assert(k.undo@.last() == e);
    }
}

/// Opening a folder shows that folder and nothing else changes but the way back
/// and forward, the tree, the selection and the filter: no operation is begun,
/// undone or forgotten, and the clipboard stays.
pub proof fn law_opening_changes_the_place_alone(x: Explorer, y: Explorer, path: Seq<char>)
    requires
        navigated(x, y, path),
    ensures
        y.job == x.job && y.history == x.history && y.clipboard == x.clipboard,
        y.mode == x.mode && y.focus == x.focus && y.show_hidden == x.show_hidden && y.city == x.city,
        y.prompt == x.prompt && y.confirm_delete == x.confirm_delete,
        paths::same_path_spec(x.pane.style, y.pane.current_dir@, location::upper_drive(path)),
        y.pane.entries_dirty,
        !paths::same_path_spec(x.pane.style, location::upper_drive(path), x.pane.current_dir@) ==> {
            &&& y.pane.back_stack@.len() == x.pane.back_stack@.len() + 1
            &&& y.pane.back_stack@.last().dir == x.pane.current_dir
            &&& y.pane.fwd_stack@.len() == 0
            &&& y.pane.filter@.len() == 0
            &&& y.op_error is None
        },
        paths::same_path_spec(x.pane.style, location::upper_drive(path), x.pane.current_dir@) ==> y.pane.back_stack
            == x.pane.back_stack && y.pane.fwd_stack == x.pane.fwd_stack,
{
}

/// A transfer starts where nothing runs, there is something to transfer and
/// nothing stands against any of it. A refusal is told and changes nothing else.
pub proof fn law_transfer_starts_or_says_why(
    x: Explorer,
    y: Explorer,
    cs: Seq<Candidate>,
    dest: Seq<char>,
    cut: bool,
    starts: bool,
)
    requires
        transfer_asked(x, y, cs, dest, cut, starts),
    ensures
        starts <==> x.job is Idle && cs.len() > 0 && forall|i: int|
            0 <= i < cs.len() ==> transfer::candidate_error(x.pane.style, #[trigger] cs[i], dest, cut) is None,
        starts ==> y.job is Pasting && y.job->cut == cut && y.op_error is None,
        !starts ==> y.job == x.job,
        !starts && (cs.len() > 0 || !(x.job is Idle)) ==> y.op_error is Some,
        y.history == x.history && y.clipboard == x.clipboard && y.pane == x.pane && y.confirm_delete == x.confirm_delete,
{
    lemma_no_error(x.pane.style, cs, dest, cut, 0);
}

proof fn lemma_no_error(style: PathStyle, cs: Seq<Candidate>, dest: Seq<char>, cut: bool, i: int)
    requires
        0 <= i <= cs.len(),
    ensures
        transfer::first_error(style, cs, dest, cut, i) is None <==> forall|j: int|
            i <= j < cs.len() ==> transfer::candidate_error(style, #[trigger] cs[j], dest, cut) is None,
    decreases cs.len() - i,
{
    if i < cs.len() {
        lemma_no_error(style, cs, dest, cut, i + 1);
        if transfer::candidate_error(style, cs[i], dest, cut) is None {
            assert forall|j: int| i <= j < cs.len() && (forall|k: int|
                i + 1 <= k < cs.len() ==> transfer::candidate_error(style, #[trigger] cs[k], dest, cut) is None)
                implies transfer::candidate_error(style, #[trigger] cs[j], dest, cut) is None by {}
        }
    }
}

/// When a paste ends nothing runs any more, what went wrong is told, what was cut
/// leaves the clipboard once something of it was moved and a copy stays on it,
/// and there is something new to undo exactly where something was done.
pub proof fn law_paste_ends(x: Explorer, y: Explorer, cut: bool, out: PasteOutcome, uses_up: bool)
    requires
        paste_done(x, y, cut, out, uses_up),
    ensures
        y.job is Idle,
        y.op_error == out.error,
        uses_up <==> cut && out.done@.len() > 0,
        cut && out.done@.len() > 0 ==> y.clipboard is None,
        !cut || out.done@.len() == 0 ==> y.clipboard == x.clipboard,
        out.done@.len() == 0 ==> y.history == x.history,
        out.done@.len() > 0 ==> y.history.undo@.len() > 0 && y.history.redo@.len() == 0,
        y.pane.entries_dirty,
        y.sidebar.branches@.len() == 0,
{
    if out.done@.len() > 0 {
        let e = choose|e: UndoEntry| #[trigger] undo::records_new(x.history, e, y.history) && undoes_paste(e, out.done@, cut);
        assert(y.history.undo@.last() == e);
    }
}

/// A reversal that failed says so; nothing runs any more, and what can be undone
/// and redone is as it was when it began.
pub proof fn law_failed_reversal_is_told<F: Fn(&str) -> bool>(
    x: Explorer,
    y: Explorer,
    entry: UndoEntry,
    redo: bool,
    e: String,
    exists_at: F,
)
    requires
        reversal_done(x, y, entry, redo, Err(e), exists_at),
    ensures
        y.job is Idle,
        y.op_error == Some(e),
        y.history == x.history && y.clipboard == x.clipboard,
        y.pane.current_dir == x.pane.current_dir,
        y.pane.entries_dirty,
{
}

/// A reversal that succeeded tells of no error, and leaves what reverses it on the
/// other side.
pub proof fn law_reversal_can_be_reversed<F: Fn(&str) -> bool>(
    x: Explorer,
    y: Explorer,
    entry: UndoEntry,
    redo: bool,
    done: UndoDone,
    exists_at: F,
)
    requires
        reversal_done(x, y, entry, redo, Ok(done), exists_at),
    ensures
        y.job is Idle,
        y.op_error is None,
        y.clipboard == x.clipboard,
        done.inverse is None ==> y.history == x.history,
        done.inverse is Some && !redo ==> y.history.redo@.len() == x.history.redo@.len() + 1 && y.history.redo@.last().op
            == done.inverse->0 && y.history.undo == x.history.undo,
        done.inverse is Some && redo ==> y.history.undo@.len() == x.history.undo@.len() + 1 && y.history.undo@.last().op
            == done.inverse->0 && y.history.redo == x.history.redo,
{
}

/// When a folder that one is in, or one above it, gets another path, one is in the
/// same place under the new path; else one stays where one is.
pub proof fn law_rename_is_followed(x: Explorer, y: Explorer, from: Seq<char>, to: Seq<char>)
    requires
        followed(x, y, from, to),
    ensures
        paths::same_path_spec(x.pane.style, x.pane.current_dir@, from) ==> y.pane.current_dir@ == to,
        !paths::under(x.pane.style, x.pane.current_dir@, from) ==> y == x,
        y.pane.addr_edit == y.pane.current_dir || y == x,
        y.history == x.history && y.job == x.job,
{
    location::law_reroot_follows(x.pane.style, x.pane.current_dir@, from, to);
}

/// When a deletion ends nothing runs any more and what went wrong is told. What
/// reached the recycle bin can be restored, and where nothing did there is nothing
/// new to undo.
pub proof fn law_deletion_ends<F: Fn(&str) -> bool>(x: Explorer, y: Explorer, out: DeleteOutcome, exists_at: F)
    requires
        delete_done(x, y, out, exists_at),
    ensures
        y.job is Idle,
        y.op_error == out.error,
        y.clipboard == x.clipboard,
        y.pane.entries_dirty || out.error is None,
        out.recycled@.len() == 0 ==> y.history == x.history,
        out.recycled@.len() > 0 ==> y.history.undo@.len() > 0 && y.history.redo@.len() == 0 && (
        y.history.undo@.last().op matches UndoOp::Restore { paths } && paths == out.recycled),
        out.error is Some ==> y.pane.current_dir == x.pane.current_dir,
{
    if out.recycled@.len() > 0 {
        let e = choose|e: UndoEntry|
            #[trigger] undo::records_new(x.history, e, y.history) && e.label@ == "delete"@ && (
            e.op matches UndoOp::Restore { paths } && paths == out.recycled);
        assert(y.history.undo@.last() == e);
    }
}

/// A new folder can be removed again and is picked; a rename can be taken back, and
/// the new name is picked in the list. A folder of the tree that one is in is
/// followed to its new path.
pub proof fn law_edit_is_remembered_and_shown(x: Explorer, y: Explorer, kind: PromptKind, plan: EditPlan)
    requires
        edit_made(x, y, kind, plan),
    ensures
        y.history.undo@.len() > 0 && y.history.redo@.len() == 0,
        plan is Make || plan is Rename,
        plan matches EditPlan::Make { target, name, .. } ==> {
            &&& y.history.undo@.last().op matches UndoOp::RemoveDir { path } && path@ == target@
            &&& y.pane.select_after_reload is Some && y.pane.select_after_reload->0.name@ == name@
        },
        plan matches EditPlan::Rename { src, dst, name, .. } ==> {
            &&& y.history.undo@.last().op matches UndoOp::Rename { from, to } && from@ == dst@ && to@ == src@
            &&& !(kind is RenameDir) ==> y.pane.select_after_reload is Some && y.pane.select_after_reload->0.name@ == name@
                && y.pane.current_dir == x.pane.current_dir
            &&& kind is RenameDir && paths::same_path_spec(x.pane.style, x.pane.current_dir@, src@) ==> y.pane.current_dir@
                == dst@
            &&& kind is RenameDir && !paths::under(x.pane.style, x.pane.current_dir@, src@) ==> y.pane.current_dir
                == x.pane.current_dir
        },
        y.pane.entries_dirty,
        y.clipboard == x.clipboard && y.job == x.job,
{
    let (a, e) = choose|a: Explorer, e: UndoEntry|
        #[trigger] edit_remembered(x, a, plan, e) && edit_followed(a, y, kind, plan);
    assert(a.history.undo@.last() == e);
    match plan {
        EditPlan::Rename { src, dst, .. } => {
            location::law_reroot_follows(x.pane.style, x.pane.current_dir@, src@, dst@);
        },
        _ => {},
    }
}

/// The details are those of the folder itself while the tree has the keyboard, and
/// nothing is told where the folder is not known.
pub proof fn law_tree_shows_the_folders_details(x: Explorer, f: Option<Vec<Field>>, now: Stamp)
    requires
        describes_selection(x, f, now),
        x.focus is Tree && x.sidebar.visible,
    ensures
        f is Some <==> x.pane.cur_entry is Some,
        f is Some && paths::parent_spec(x.pane.style, x.pane.current_dir@) is Some ==> details::describes(
            f->0@,
            x.pane.style,
            x.pane.cur_entry->0,
            paths::parent_spec(x.pane.style, x.pane.current_dir@)->0,
            x.pane.cur_dir_size,
            now,
        ),
{
}

/// Going back by several steps leads to the folder that many visits ago, and the
/// visits before it stay; by more steps than there are visits to the first.
pub proof fn law_back_by_several(x: Explorer, y: Explorer, n: nat)
    requires
        stepped_back_by(x, y, n),
    ensures
        n == 0 || x.pane.back_stack@.len() == 0 ==> y == x,
        0 < n <= x.pane.back_stack@.len() ==> y.pane.current_dir == x.pane.back_stack@[x.pane.back_stack@.len() - n].dir,
        n <= x.pane.back_stack@.len() ==> y.pane.back_stack@ == x.pane.back_stack@.take(x.pane.back_stack@.len() - n),
        n >= x.pane.back_stack@.len() ==> y.pane.back_stack@.len() == 0,
        n >= x.pane.back_stack@.len() > 0 ==> y.pane.current_dir == x.pane.back_stack@[0].dir,
    decreases n,
{
    let s = x.pane.back_stack@;
    if n == 0 {
        assert(s.take(s.len() as int) =~= s);
    } else {
        let m = choose|m: Explorer| #[trigger] stepped_back(x, m) && stepped_back_by(m, y, (n - 1) as nat);
        law_back_by_several(m, y, (n - 1) as nat);
        if s.len() > 0 {
            assert(m.pane.back_stack@ == s.drop_last());
            if n <= s.len() {
                assert(s.drop_last().take(s.len() - n) =~= s.take(s.len() - n));
            }
        } else {
            assert(m == x);
        }
    }
}

/// Going forward by several steps leads to the folder that many visits ahead, and
/// the visits behind it stay.
pub proof fn law_forward_by_several(x: Explorer, y: Explorer, n: nat)
    requires
        stepped_forward_by(x, y, n),
    ensures
        n == 0 || x.pane.fwd_stack@.len() == 0 ==> y == x,
        0 < n <= x.pane.fwd_stack@.len() ==> y.pane.current_dir == x.pane.fwd_stack@[x.pane.fwd_stack@.len() - n].dir,
        n <= x.pane.fwd_stack@.len() ==> y.pane.fwd_stack@ == x.pane.fwd_stack@.take(x.pane.fwd_stack@.len() - n),
        n >= x.pane.fwd_stack@.len() ==> y.pane.fwd_stack@.len() == 0,
        n >= x.pane.fwd_stack@.len() > 0 ==> y.pane.current_dir == x.pane.fwd_stack@[0].dir,
    decreases n,
{
    let s = x.pane.fwd_stack@;
    if n == 0 {
        assert(s.take(s.len() as int) =~= s);
    } else {
        let m = choose|m: Explorer| #[trigger] stepped_forward(x, m) && stepped_forward_by(m, y, (n - 1) as nat);
        law_forward_by_several(m, y, (n - 1) as nat);
        if s.len() > 0 {
            assert(m.pane.fwd_stack@ == s.drop_last());
            if n <= s.len() {
                assert(s.drop_last().take(s.len() - n) =~= s.take(s.len() - n));
            }
        } else {
            assert(m == x);
        }
    }
}

/// Opening a folder in the tree leads to that folder, and the tree has the keyboard
/// and comes to show it.
pub proof fn law_opened_in_the_tree(x: Explorer, y: Explorer, path: Seq<char>)
    requires
        opened_in_tree(x, y, path),
    ensures
        y.focus is Tree,
        y.sidebar.scroll,
        paths::same_path_spec(x.pane.style, y.pane.current_dir@, location::upper_drive(path)),
        y.job == x.job && y.history == x.history && y.clipboard == x.clipboard,
{
}

/// Typing in the tree opens a folder that it shows whose name starts with what was
/// typed, without regard to case, exactly where there is one.
pub proof fn law_typing_in_the_tree(x: Explorer, y: Explorer, low: Seq<char>, now: u64, hit: bool)
    requires
        tree_jumped(x, y, low, now, hit),
    ensures
        hit <==> exists|i: int|
            0 <= i < x.sidebar.rows().len() && pane::search_text(&x.pane, low, now).is_prefix_of(
                text::lower_text(location::name_spec(x.sidebar.style, #[trigger] x.sidebar.rows()[i])),
            ),
        hit ==> y.focus is Tree,
        !hit ==> y.focus == x.focus && y.pane.current_dir == x.pane.current_dir,
        y.history == x.history && y.job == x.job,
{
    let a = choose|a: Explorer| #[trigger] typed_into(x, a, low, now) && found_in_tree(a, y, hit);
    let rows = a.sidebar.rows();
    assert(rows == x.sidebar.rows());
    let start = sidebar::search_start(a.sidebar.style, rows, a.pane.current_dir@);
    sidebar::lemma_search_starts(a.sidebar.style, rows, a.pane.current_dir@);
    sidebar::law_search_finds_a_folder(a.sidebar.style, rows, a.pane.type_ahead@, start);
    if tree_hit(a, a.pane.type_ahead@) is Some {
        let i = sidebar::next_named(a.sidebar.style, rows, a.pane.type_ahead@, start, 0)->0;
        assert(a.pane.type_ahead@.is_prefix_of(text::lower_text(location::name_spec(x.sidebar.style, rows[i]))));
    }
}

/// What was pasted last is picked where it lies in the folder shown, with nothing
/// filtered.
pub proof fn law_last_pasted_is_picked(x: Explorer, y: Explorer, cut: bool, out: PasteOutcome, uses_up: bool)
    requires
        paste_done(x, y, cut, out, uses_up),
        out.done@.len() > 0,
        paths::parent_spec(x.pane.style, out.done@[out.done@.len() - 1].to@) is Some,
        paths::same_path_spec(
            x.pane.style,
            paths::parent_spec(x.pane.style, out.done@[out.done@.len() - 1].to@)->0,
            x.pane.current_dir@,
        ),
    ensures
        y.pane.filter@.len() == 0,
        y.pane.select_after_reload is Some,
        y.pane.select_after_reload->0.dir == x.pane.current_dir,
        paths::file_name_spec(x.pane.style, out.done@[out.done@.len() - 1].to@) is Some ==> y.pane.select_after_reload->0.name@
            == paths::file_name_spec(x.pane.style, out.done@[out.done@.len() - 1].to@)->0,
{
}

/// After opening another folder the tree is open down to it: every folder above it
/// is expanded, and what was expanded stays so.
pub proof fn law_tree_opens_down_to_the_folder(x: Explorer, y: Explorer, path: Seq<char>, k: nat)
    requires
        navigated(x, y, path),
        !paths::same_path_spec(x.pane.style, location::upper_drive(path), x.pane.current_dir@),
        k > 0,
        paths::parent_spec(x.sidebar.style, y.pane.current_dir@) is Some,
    ensures
        sidebar::holds(
            x.sidebar.style,
            text::texts(y.sidebar.expanded@),
            paths::above(x.sidebar.style, y.pane.current_dir@, k),
        ),
        forall|p: Seq<char>|
            sidebar::holds(x.sidebar.style, text::texts(x.sidebar.expanded@), p) ==> #[trigger] sidebar::holds(
                x.sidebar.style,
                text::texts(y.sidebar.expanded@),
                p,
            ),
{
    sidebar::law_way_is_open(
        x.sidebar.style,
        text::texts(x.sidebar.expanded@),
        y.pane.current_dir@,
        paths::above(x.sidebar.style, y.pane.current_dir@, k),
        k,
    );
}

/// Going up leads out of the folder into its parent, tells of no error any more, and
/// touches no file; where there is no parent nothing happens.
pub proof fn law_up_leads_to_the_parent(x: Explorer, y: Explorer)
    requires
        stepped_up(x, y),
    ensures
        paths::parent_spec(x.pane.style, x.pane.current_dir@) is None ==> y == x,
        paths::parent_spec(x.pane.style, x.pane.current_dir@) is Some ==> y.op_error is None && paths::same_path_spec(
            x.pane.style,
            y.pane.current_dir@,
            location::upper_drive(paths::parent_spec(x.pane.style, x.pane.current_dir@)->0),
        ),
        y.history == x.history && y.job == x.job && y.clipboard == x.clipboard && y.focus == x.focus,
{
}

/// A rename that is reversed takes one along: who is in the folder that has its old
/// path again is there, and any other reversal moves nobody.
pub proof fn law_reversed_rename_is_followed(a: Explorer, b: Explorer, op: UndoOp)
    requires
        followed_op(a, b, op),
    ensures
        op matches UndoOp::Rename { from, to } ==> (paths::same_path_spec(a.pane.style, a.pane.current_dir@, from@)
            ==> b.pane.current_dir@ == to@) && (!paths::under(a.pane.style, a.pane.current_dir@, from@) ==> b == a),
        !(op is Rename) ==> b == a,
{
    match op {
        UndoOp::Rename { from, to } => {
            location::law_reroot_follows(a.pane.style, a.pane.current_dir@, from@, to@);
        },
        _ => {},
    }
}

/// What a reversal brought back is picked where it lies in the folder shown.
pub proof fn law_reversed_item_is_picked(c: Explorer, y: Explorer, path: String)
    requires
        picked(c, y, Some(path)),
        paths::parent_spec(c.pane.style, path@) is Some,
        paths::same_path_spec(c.pane.style, paths::parent_spec(c.pane.style, path@)->0, c.pane.current_dir@),
        paths::file_name_spec(c.pane.style, path@) is Some,
    ensures
        y.pane.select_after_reload is Some,
        y.pane.select_after_reload->0.name@ == paths::file_name_spec(c.pane.style, path@)->0,
        y.pane.select_after_reload->0.dir == c.pane.current_dir,
        y.pane.filter@.len() == 0,
{
}

/// After a deletion nothing is selected any more, and everything is listed anew.
pub proof fn law_nothing_deleted_stays_selected(x: Explorer, m: Explorer)
    requires
        emptied(x, m),
    ensures
        m.pane.selected().len() == 0,
        m.pane.lead is None,
        m.pane.entries_dirty,
        m.sidebar.branches@.len() == 0,
        m.pane.current_dir == x.pane.current_dir,
{
}

} // verus!
