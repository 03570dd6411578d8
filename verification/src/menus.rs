//! The menus of the tree, of the list and of its rows: what they offer, and what
//! choosing something does.
use vstd::prelude::*;
use crate::commands::{self, Effect};
use crate::explorer::{self, Explorer, Focus};
use crate::gestures::{self, EnterAction};
use crate::names;
use crate::pane;
use crate::paths::{self, join};
use crate::sidebar::{self, Sidebar, TreeKey, TreeMove};
use crate::text::{self, copy_texts};

verus! {

/// What can be chosen for a folder of the tree.
#[derive(Clone, Copy, Debug, PartialEq, Eq, Structural)]
pub enum TreeAct {
    Open,
    Toggle,
    Reveal,
    CopyPath,
    Pin,
    Unpin,
    Copy,
    Cut,
    Paste,
    Delete,
    Rename,
    NewFolder,
    Props,
}

/// What can be chosen for the folder in the list.
#[derive(Clone, Copy, Debug, PartialEq, Eq, Structural)]
pub enum FolderAct {
    Deselect,
    Paste,
    NewFolder,
    SelectAll,
    Refresh,
    Reveal,
    Props,
}

/// What can be chosen for a row of the list.
#[derive(Clone, Copy, Debug, PartialEq, Eq, Structural)]
pub enum RowAct {
    Open,
    Reveal,
    CopyPath,
    CopyName,
    Pin,
    Copy,
    Cut,
    Paste,
    Delete,
    Rename,
    NewFolder,
    Props,
}

/// One line of a menu.
pub struct MenuItem<A> {
    pub label: &'static str,
    pub enabled: bool,
    pub act: A,
    /// A line stands above it.
    pub apart: bool,
}

/// The line says that.
pub open spec fn is_item<A>(m: MenuItem<A>, label: Seq<char>, enabled: bool, act: A, apart: bool) -> bool {
    m.label@ == label && m.enabled == enabled && m.act == act && m.apart == apart
}

/// The menu of a folder of the tree: a root is never copied, cut, deleted or
/// renamed.
pub fn tree_menu(open: bool, is_root: bool, can_paste: bool, pinned: bool) -> (r: Vec<MenuItem<TreeAct>>)
    ensures
        r@.len() == 12,
        is_item(r@[0], "Open"@, true, TreeAct::Open, false),
        is_item(
            r@[1],
            if open {
                "Collapse"@
            } else {
                "Expand"@
            },
            true,
            TreeAct::Toggle,
            false,
        ),
        is_item(r@[2], "Open in Explorer"@, true, TreeAct::Reveal, false),
        is_item(r@[3], "Copy path"@, true, TreeAct::CopyPath, false),
        pinned ==> is_item(r@[4], "Unpin from Quick access"@, true, TreeAct::Unpin, false),
        !pinned ==> is_item(r@[4], "Pin to Quick access"@, true, TreeAct::Pin, false),
        is_item(r@[5], "Copy"@, !is_root, TreeAct::Copy, true),
        is_item(r@[6], "Cut"@, !is_root, TreeAct::Cut, false),
        is_item(r@[7], "Paste into"@, can_paste, TreeAct::Paste, false),
        is_item(r@[8], "Delete"@, !is_root, TreeAct::Delete, false),
        is_item(r@[9], "Rename…"@, !is_root, TreeAct::Rename, true),
        is_item(r@[10], "New folder…"@, true, TreeAct::NewFolder, false),
        is_item(r@[11], "Properties"@, true, TreeAct::Props, true),
{
    let mut v: Vec<MenuItem<TreeAct>> = Vec::new();
    v.push(MenuItem { label: "Open", enabled: true, act: TreeAct::Open, apart: false });
    v.push(
        MenuItem {
            label: if open {
                "Collapse"
            } else {
                "Expand"
            },
            enabled: true,
            act: TreeAct::Toggle,
            apart: false,
        },
    );
    v.push(MenuItem { label: "Open in Explorer", enabled: true, act: TreeAct::Reveal, apart: false });
    v.push(MenuItem { label: "Copy path", enabled: true, act: TreeAct::CopyPath, apart: false });
    if pinned {
        v.push(MenuItem { label: "Unpin from Quick access", enabled: true, act: TreeAct::Unpin, apart: false });
    } else {
        v.push(MenuItem { label: "Pin to Quick access", enabled: true, act: TreeAct::Pin, apart: false });
    }
    v.push(MenuItem { label: "Copy", enabled: !is_root, act: TreeAct::Copy, apart: true });
    v.push(MenuItem { label: "Cut", enabled: !is_root, act: TreeAct::Cut, apart: false });
    v.push(MenuItem { label: "Paste into", enabled: can_paste, act: TreeAct::Paste, apart: false });
    v.push(MenuItem { label: "Delete", enabled: !is_root, act: TreeAct::Delete, apart: false });
    v.push(MenuItem { label: "Rename…", enabled: !is_root, act: TreeAct::Rename, apart: true });
    v.push(MenuItem { label: "New folder…", enabled: true, act: TreeAct::NewFolder, apart: false });
    v.push(MenuItem { label: "Properties", enabled: true, act: TreeAct::Props, apart: true });
    v
}

/// The menu of the folder in the list.
pub fn folder_menu(can_paste: bool) -> (r: Vec<MenuItem<FolderAct>>)
    ensures
        r@.len() == 6,
        is_item(r@[0], "Paste"@, can_paste, FolderAct::Paste, false),
        is_item(r@[1], "New folder…"@, true, FolderAct::NewFolder, false),
        is_item(r@[2], "Select all"@, true, FolderAct::SelectAll, true),
        is_item(r@[3], "Refresh"@, true, FolderAct::Refresh, false),
        is_item(r@[4], "Open in Explorer"@, true, FolderAct::Reveal, true),
        is_item(r@[5], "Properties"@, true, FolderAct::Props, false),
{
    let mut v: Vec<MenuItem<FolderAct>> = Vec::new();
    v.push(MenuItem { label: "Paste", enabled: can_paste, act: FolderAct::Paste, apart: false });
    v.push(MenuItem { label: "New folder…", enabled: true, act: FolderAct::NewFolder, apart: false });
    v.push(MenuItem { label: "Select all", enabled: true, act: FolderAct::SelectAll, apart: true });
    v.push(MenuItem { label: "Refresh", enabled: true, act: FolderAct::Refresh, apart: false });
    v.push(MenuItem { label: "Open in Explorer", enabled: true, act: FolderAct::Reveal, apart: true });
    v.push(MenuItem { label: "Properties", enabled: true, act: FolderAct::Props, apart: false });
    v
}

/// The menu of a row of the list. Only folders can be pinned.
pub fn row_menu(is_dir: bool, can_paste: bool) -> (r: Vec<MenuItem<RowAct>>)
    ensures
        r@.len() == (if is_dir {
            12int
        } else {
            11
        }),
        is_item(r@[0], "Open"@, true, RowAct::Open, false),
        is_item(
            r@[1],
            if is_dir {
                "Open in Explorer"@
            } else {
                "Reveal in Explorer"@
            },
            true,
            RowAct::Reveal,
            false,
        ),
        is_item(r@[2], "Copy path"@, true, RowAct::CopyPath, true),
        is_item(r@[3], "Copy name"@, true, RowAct::CopyName, false),
        is_dir ==> is_item(r@[4], "Pin to Quick access"@, true, RowAct::Pin, false),
        ({
            let k = r@.len() - 7;
            &&& is_item(r@[k], "Copy"@, true, RowAct::Copy, true)
            &&& is_item(r@[k + 1], "Cut"@, true, RowAct::Cut, false)
            &&& is_item(r@[k + 2], "Paste"@, can_paste, RowAct::Paste, false)
            &&& is_item(r@[k + 3], "Delete"@, true, RowAct::Delete, false)
            &&& is_item(r@[k + 4], "Rename…"@, true, RowAct::Rename, true)
            &&& is_item(r@[k + 5], "New folder…"@, true, RowAct::NewFolder, false)
            &&& is_item(r@[k + 6], "Properties"@, true, RowAct::Props, true)
        }),
{
    let mut v: Vec<MenuItem<RowAct>> = Vec::new();
    v.push(MenuItem { label: "Open", enabled: true, act: RowAct::Open, apart: false });
    v.push(
        MenuItem {
            label: if is_dir {
                "Open in Explorer"
            } else {
                "Reveal in Explorer"
            },
            enabled: true,
            act: RowAct::Reveal,
            apart: false,
        },
    );
    v.push(MenuItem { label: "Copy path", enabled: true, act: RowAct::CopyPath, apart: true });
    v.push(MenuItem { label: "Copy name", enabled: true, act: RowAct::CopyName, apart: false });
    if is_dir {
        v.push(MenuItem { label: "Pin to Quick access", enabled: true, act: RowAct::Pin, apart: false });
    }
    v.push(MenuItem { label: "Copy", enabled: true, act: RowAct::Copy, apart: true });
    v.push(MenuItem { label: "Cut", enabled: true, act: RowAct::Cut, apart: false });
    v.push(MenuItem { label: "Paste", enabled: can_paste, act: RowAct::Paste, apart: false });
    v.push(MenuItem { label: "Delete", enabled: true, act: RowAct::Delete, apart: false });
    v.push(MenuItem { label: "Rename…", enabled: true, act: RowAct::Rename, apart: true });
    v.push(MenuItem { label: "New folder…", enabled: true, act: RowAct::NewFolder, apart: false });
    v.push(MenuItem { label: "Properties", enabled: true, act: RowAct::Props, apart: true });
    v
}

/// A folder of the tree goes on the clipboard.
pub open spec fn one_clipped(x: Explorer, y: Explorer, p: Seq<char>, cut: bool, e: Effect) -> bool {
    &&& y == (Explorer { clipboard: y.clipboard, op_error: None, ..x })
    &&& y.clipboard matches Some(f) && text::texts(f.paths@) == seq![p] && f.cut == cut
    &&& e matches Effect::ClipFiles { paths, cut: c } && text::texts(paths@) == seq![p] && c == cut
}

/// The clipboard is to be pasted, if there is something on it.
pub open spec fn pastes_into(x: Explorer, p: Seq<char>, e: Effect) -> bool {
    if x.clipboard is Some {
        e matches Effect::PasteInto(q) && q@ == p
    } else {
        e is Nothing
    }
}

/// A folder is pinned, or not any more.
pub open spec fn pinned_to(x: Explorer, y: Explorer, pins: Seq<Seq<char>>) -> bool {
    &&& y == (Explorer { sidebar: Sidebar { pins: y.sidebar.pins, ..x.sidebar }, ..x })
    &&& text::texts(y.sidebar.pins@) == pins
}

/// What choosing something for the folder `p` of the tree does; the tree has the
/// keyboard then.
pub open spec fn tree_chosen(x: Explorer, y: Explorer, a: TreeAct, p: Seq<char>, e: Effect) -> bool {
    let f = Explorer { focus: Focus::Tree, ..x };
    let pins = text::texts(x.sidebar.pins@);
    match a {
        TreeAct::Open => explorer::navigated(f, y, p) && e is Nothing,
        TreeAct::Toggle => commands::folder_toggled(f, y, p) && e is Nothing,
        TreeAct::Reveal => y == f && (e matches Effect::Reveal { path, is_dir } && path@ == p && is_dir),
        TreeAct::CopyPath => y == f && (e matches Effect::CopyText(t) && t@ == p),
        TreeAct::Pin => pinned_to(
            f,
            y,
            if sidebar::same_as_one(pins, p) {
                pins
            } else {
                pins.push(p)
            },
        ) && e is Nothing,
        TreeAct::Unpin => pinned_to(f, y, sidebar::without_pin(pins, p)) && e is Nothing,
        TreeAct::Copy => one_clipped(f, y, p, false, e),
        TreeAct::Cut => one_clipped(f, y, p, true, e),
        TreeAct::Paste => y == f && pastes_into(x, p, e),
        TreeAct::Delete => {
            &&& y == (Explorer { confirm_delete: y.confirm_delete, ..f })
            &&& if explorer::busy(x) || paths::parent_spec(x.pane.style, p) is None {
                y.confirm_delete == x.confirm_delete
            } else {
                y.confirm_delete matches Some(v) && text::texts(v@) == seq![p]
            }
            &&& e is Nothing
        },
        TreeAct::Rename => {
            &&& y == (Explorer { prompt: y.prompt, ..f })
            &&& match paths::file_name_spec(x.pane.style, p) {
                Some(n) => y.prompt matches Some(q) && explorer::asks_rename_dir(q, p, n),
                None => y.prompt == x.prompt,
            }
            &&& e is Nothing
        },
        TreeAct::NewFolder => explorer::navigated(f, y, p) && e is ListThenNewFolder,
        TreeAct::Props => explorer::navigated(f, y, p) && e is ListThenDetails,
    }
}

/// What choosing something for the folder in the list does; the list has the
/// keyboard then.
pub open spec fn folder_chosen(x: Explorer, y: Explorer, a: FolderAct, e: Effect) -> bool {
    let f = Explorer { focus: Focus::List, ..x };
    match a {
        FolderAct::Deselect => commands::pane_only(f, y) && pane::nothing_selected(x.pane, y.pane) && e is Nothing,
        FolderAct::Paste => y == f && pastes_into(x, x.pane.current_dir@, e),
        FolderAct::NewFolder => new_folder_asked(f, y) && e is Nothing,
        FolderAct::SelectAll => commands::pane_only(f, y) && gestures::all_selected(x.pane, y.pane) && e is Nothing,
        FolderAct::Refresh => {
            &&& y == (Explorer { pane: explorer::stale(x.pane), sidebar: y.sidebar, ..f })
            &&& explorer::listings_dropped(x.sidebar, y.sidebar)
            &&& e is Nothing
        },
        FolderAct::Reveal => y == f && (e matches Effect::Reveal { path, is_dir } && path == x.pane.current_dir && is_dir),
        FolderAct::Props => {
            &&& y == (Explorer { pane: y.pane, details: true, ..f })
            &&& pane::nothing_selected(x.pane, y.pane)
            &&& e is Nothing
        },
    }
}

/// The name of a new folder is asked.
pub open spec fn new_folder_asked(x: Explorer, y: Explorer) -> bool {
    &&& y == (Explorer { prompt: y.prompt, ..x })
    &&& y.prompt matches Some(q) && explorer::asks_new_folder(
        q,
        names::free_folder_name(pane::names_of(x.pane.all_entries@), 1),
    )
}

/// What choosing something for row `i` of the list does.
pub open spec fn row_chosen(x: Explorer, y: Explorer, a: RowAct, i: int, e: Effect) -> bool {
    let n = x.pane.entries@[i];
    let full = paths::join_spec(x.pane.style, x.pane.current_dir@, n.name@);
    let pins = text::texts(x.sidebar.pins@);
    match a {
        RowAct::Open => exists|o: EnterAction|
            #[trigger] gestures::opens_row(x.pane, i, o) && commands::entered(x, y, o, e),
        RowAct::Reveal => y == x && (e matches Effect::Reveal { path, is_dir } && path@ == full && is_dir == n.is_dir),
        RowAct::CopyPath => y == x && (e matches Effect::CopyText(t) && t@ == full),
        RowAct::CopyName => y == x && (e matches Effect::CopyText(t) && t == n.name),
        RowAct::Pin => pinned_to(
            x,
            y,
            if sidebar::same_as_one(pins, full) {
                pins
            } else {
                pins.push(full)
            },
        ) && e is Nothing,
        RowAct::Copy => commands::files_clipped(x, y, explorer::selected(x), false, e),
        RowAct::Cut => commands::files_clipped(x, y, explorer::selected(x), true, e),
        RowAct::Paste => y == x && pastes_into(x, x.pane.current_dir@, e),
        RowAct::Delete => commands::delete_asked(x, y, false) && e is Nothing,
        RowAct::Rename => {
            &&& y == (Explorer { prompt: y.prompt, ..x })
            &&& y.prompt matches Some(q) && explorer::asks_rename(q, n.name@)
            &&& e is Nothing
        },
        RowAct::NewFolder => new_folder_asked(x, y) && e is Nothing,
        RowAct::Props => y == (Explorer { details: true, ..x }) && e is Nothing,
    }
}

/// What a key did in the tree.
pub open spec fn tree_moved(x: Explorer, y: Explorer, m: TreeMove) -> bool {
    let v = text::texts(x.sidebar.expanded@);
    let cur = x.pane.current_dir@;
    match m {
        TreeMove::Stay => y == (Explorer { focus: Focus::Tree, ..x }),
        TreeMove::Go(p) => explorer::opened_in_tree(x, y, p@),
        TreeMove::Expand => {
            &&& y == (Explorer {
                focus: Focus::Tree,
                sidebar: Sidebar { expanded: y.sidebar.expanded, ..x.sidebar },
                ..x
            })
            &&& text::texts(y.sidebar.expanded@) == sidebar::with_path(x.sidebar.style, v, cur)
        },
        TreeMove::Collapse => {
            &&& y == (Explorer {
                focus: Focus::Tree,
                sidebar: Sidebar { expanded: y.sidebar.expanded, ..x.sidebar },
                ..x
            })
            &&& text::texts(y.sidebar.expanded@) == sidebar::without_path(x.sidebar.style, v, cur)
        },
    }
}

impl Explorer {
    fn move_in_tree(&mut self, m: TreeMove)
        ensures
            tree_moved(*old(self), *final(self), m),
            old(self).wf() ==> final(self).wf(),
    {
        match m {
            TreeMove::Stay => {
                self.focus = Focus::Tree;
            },
            TreeMove::Go(p) => {
                self.open_in_tree(p.as_str());
            },
            TreeMove::Expand => {
                let dir = self.pane.current_dir.clone();
                self.sidebar.expand(dir.as_str());
                self.focus = Focus::Tree;
            },
            TreeMove::Collapse => {
                let dir = self.pane.current_dir.clone();
                self.sidebar.collapse(dir.as_str());
                self.focus = Focus::Tree;
            },
        }
    }

    /// A key in the tree. Whether the tree shows anything for it to act on.
    pub fn press_tree_key(&mut self, key: TreeKey) -> (r: bool)
        ensures
            r == (old(self).sidebar.rows().len() > 0),
            !r ==> *final(self) == *old(self),
            r ==> exists|m: TreeMove|
                #[trigger] sidebar::moves(
                    old(self).sidebar,
                    old(self).sidebar.rows(),
                    key,
                    old(self).pane.current_dir@,
                    m,
                ) && tree_moved(*old(self), *final(self), m),
            old(self).wf() ==> final(self).wf(),
    {
        match self.sidebar.tree_move(key, self.pane.current_dir.as_str()) {
            Some(m) => {
                let ghost n = m;
                self.move_in_tree(m);
                assert(sidebar::moves(
                    old(self).sidebar,
                    old(self).sidebar.rows(),
                    key,
                    old(self).pane.current_dir@,
                    n,
                ));
                true
            },
            None => false,
        }
    }

    fn clip_one(&mut self, p: &str, cut: bool) -> (e: Effect)
        ensures
            one_clipped(*old(self), *final(self), p@, cut, e),
            old(self).wf() ==> final(self).wf(),
    {
        let mut v: Vec<String> = Vec::new();
        v.push(p.to_owned());
        assert(text::texts(v@) =~= seq![p@]);
        let paths = copy_texts(&v);
        self.set_clipboard(v, cut);
        Effect::ClipFiles { paths, cut }
    }

    fn paste_into(&self, p: &str) -> (e: Effect)
        ensures
            pastes_into(*self, p@, e),
    {
        if self.clipboard.is_some() {
            Effect::PasteInto(p.to_owned())
        } else {
            Effect::Nothing
        }
    }

    /// Something was chosen for the folder `p` of the tree.
    #[verifier::rlimit(40)]
    pub fn choose_in_tree(&mut self, a: TreeAct, p: &str) -> (e: Effect)
        ensures
            tree_chosen(*old(self), *final(self), a, p@, e),
            old(self).wf() ==> final(self).wf(),
    {
        self.focus = Focus::Tree;
        match a {
            TreeAct::Open => {
                self.navigate_to(p);
                Effect::Nothing
            },
            TreeAct::Toggle => {
                self.sidebar.toggle(p);
                Effect::Nothing
            },
            TreeAct::Reveal => Effect::Reveal { path: p.to_owned(), is_dir: true },
            TreeAct::CopyPath => Effect::CopyText(p.to_owned()),
            TreeAct::Pin => {
                self.sidebar.pin(p);
                Effect::Nothing
            },
            TreeAct::Unpin => {
                self.sidebar.unpin(p);
                Effect::Nothing
            },
            TreeAct::Copy => self.clip_one(p, false),
            TreeAct::Cut => self.clip_one(p, true),
            TreeAct::Paste => self.paste_into(p),
            TreeAct::Delete => {
                self.request_delete_dir(p);
                Effect::Nothing
            },
            TreeAct::Rename => {
                self.open_rename_dir_at(p);
                Effect::Nothing
            },
            TreeAct::NewFolder => {
                self.navigate_to(p);
                Effect::ListThenNewFolder
            },
            TreeAct::Props => {
                self.navigate_to(p);
                Effect::ListThenDetails
            },
        }
    }

    /// Shows the details of the folder itself.
    pub fn show_folder_details(&mut self)
        ensures
            *final(self) == (Explorer { pane: final(self).pane, details: true, ..*old(self) }),
            pane::nothing_selected(old(self).pane, final(self).pane),
            old(self).wf() ==> final(self).wf(),
    {
        self.pane.clear_selection();
        self.details = true;
    }

    /// Something was chosen for the folder in the list.
    pub fn choose_in_folder(&mut self, a: FolderAct) -> (e: Effect)
        ensures
            folder_chosen(*old(self), *final(self), a, e),
            old(self).wf() ==> final(self).wf(),
    {
        self.focus = Focus::List;
        match a {
            FolderAct::Deselect => {
                self.pane.clear_selection();
                Effect::Nothing
            },
            FolderAct::Paste => self.paste_into(self.pane.current_dir.as_str()),
            FolderAct::NewFolder => {
                self.open_new_folder();
                Effect::Nothing
            },
            FolderAct::SelectAll => {
                self.pane.select_all();
                Effect::Nothing
            },
            FolderAct::Refresh => {
                self.pane.entries_dirty = true;
                self.sidebar.forget();
                Effect::Nothing
            },
            FolderAct::Reveal => Effect::Reveal { path: self.pane.current_dir.clone(), is_dir: true },
            FolderAct::Props => {
                self.show_folder_details();
                Effect::Nothing
            },
        }
    }
}

impl Explorer {
    fn open_at(&mut self, i: usize) -> (e: Effect)
        requires
            i < old(self).pane.entries@.len(),
        ensures
            exists|o: EnterAction|
                #[trigger] gestures::opens_row(old(self).pane, i as int, o) && commands::entered(
                    *old(self),
                    *final(self),
                    o,
                    e,
                ),
            old(self).wf() ==> final(self).wf(),
    {
        let o = self.pane.open_row(i);
        let ghost act = o;
        assert(gestures::opens_row(self.pane, i as int, act));
        self.open_as(o)
    }

    /// Something was chosen for row `i` of the list.
    #[verifier::rlimit(40)]
    pub fn choose_in_row(&mut self, a: RowAct, i: usize) -> (e: Effect)
        requires
            old(self).wf(),
            i < old(self).pane.entries@.len(),
        ensures
            row_chosen(*old(self), *final(self), a, i as int, e),
            final(self).wf(),
    {
        let name = self.pane.entries[i].name.clone();
        let full = join(self.pane.style, self.pane.current_dir.as_str(), name.as_str());
        match a {
            RowAct::Open => self.open_at(i),
            RowAct::Reveal => Effect::Reveal { path: full, is_dir: self.pane.entries[i].is_dir },
            RowAct::CopyPath => Effect::CopyText(full),
            RowAct::CopyName => Effect::CopyText(name),
            RowAct::Pin => {
                self.sidebar.pin(full.as_str());
                Effect::Nothing
            },
            RowAct::Copy => self.clip(false, false),
            RowAct::Cut => self.clip(false, true),
            RowAct::Paste => self.paste_into(self.pane.current_dir.as_str()),
            RowAct::Delete => {
                self.ask_delete(false);
                Effect::Nothing
            },
            RowAct::Rename => {
                self.open_rename(name.as_str());
                Effect::Nothing
            },
            RowAct::NewFolder => {
                self.open_new_folder();
                Effect::Nothing
            },
            RowAct::Props => {
                self.details = true;
                Effect::Nothing
            },
        }
    }
}

/// What the menu of the tree does with the folder that it was opened on: it is
/// copied or cut alone, its own path is copied as text or shown, what is on the
/// clipboard goes into it, and nothing is deleted before it was asked.
pub proof fn law_tree_menu_acts_on_its_folder(x: Explorer, y: Explorer, a: TreeAct, p: Seq<char>, e: Effect)
    requires
        tree_chosen(x, y, a, p, e),
    ensures
        y.job == x.job && y.history == x.history && y.mode == x.mode,
        y.focus is Tree,
        a is Copy || a is Cut ==> {
            &&& y.clipboard is Some && y.clipboard->0.cut == (a is Cut)
            &&& y.clipboard->0.paths@.len() == 1 && y.clipboard->0.paths@[0]@ == p
            &&& e is ClipFiles && e->ClipFiles_cut == (a is Cut)
            &&& e->ClipFiles_paths@.len() == 1 && e->ClipFiles_paths@[0]@ == p
        },
        !(a is Copy || a is Cut) ==> y.clipboard == x.clipboard,
        a is Paste && x.clipboard is Some ==> e is PasteInto && e->PasteInto_0@ == p,
        a is Paste && x.clipboard is None ==> e is Nothing,
        a is CopyPath ==> e is CopyText && e->CopyText_0@ == p,
        a is Reveal ==> e is Reveal && e->Reveal_path@ == p && e->is_dir,
        a is Delete ==> e is Nothing && (x.job is Idle && paths::parent_spec(x.pane.style, p) is Some ==> {
            &&& y.confirm_delete is Some && y.confirm_delete->0@.len() == 1 && y.confirm_delete->0@[0]@ == p
        }),
        a is Delete && (!(x.job is Idle) || paths::parent_spec(x.pane.style, p) is None) ==> y.confirm_delete
            == x.confirm_delete,
        a is Rename && paths::file_name_spec(x.pane.style, p) is Some ==> {
            &&& y.prompt is Some && y.prompt->0.kind is RenameDir && y.prompt->0.kind->dir@ == p
            &&& y.prompt->0.buf@ == paths::file_name_spec(x.pane.style, p)->0
        },
        a is NewFolder ==> e is ListThenNewFolder,
        a is Props ==> e is ListThenDetails,
{
    match e {
        Effect::ClipFiles { paths, cut } => {
            assert(text::texts(paths@).len() == paths@.len());
            if paths@.len() == 1 {
                assert(text::texts(paths@)[0] == paths@[0]@);
            }
        },
        _ => {},
    }
    if y.clipboard is Some {
        let v = y.clipboard->0.paths@;
        assert(text::texts(v).len() == v.len());
        if v.len() == 1 {
            assert(text::texts(v)[0] == v[0]@);
        }
    }
    if y.confirm_delete is Some {
        let v = y.confirm_delete->0@;
        assert(text::texts(v).len() == v.len());
        if v.len() == 1 {
            assert(text::texts(v)[0] == v[0]@);
        }
    }
}

/// What the menu of a row does with the row's own entry: its name or its path is
/// copied as text, its path is shown, its own name is asked to be changed, and
/// its own path is pinned; the folder shown stays.
pub proof fn law_row_menu_acts_on_its_row(x: Explorer, y: Explorer, a: RowAct, i: int, e: Effect)
    requires
        row_chosen(x, y, a, i, e),
        !(a is Open),
    ensures
        y.job == x.job && y.history == x.history && y.pane == x.pane,
        a is CopyName ==> e is CopyText && e->CopyText_0@ == x.pane.entries@[i].name@,
        a is CopyPath ==> e is CopyText && e->CopyText_0@ == paths::join_spec(
            x.pane.style,
            x.pane.current_dir@,
            x.pane.entries@[i].name@,
        ),
        a is Reveal ==> e is Reveal && e->is_dir == x.pane.entries@[i].is_dir && e->Reveal_path@ == paths::join_spec(
            x.pane.style,
            x.pane.current_dir@,
            x.pane.entries@[i].name@,
        ),
        a is Rename ==> {
            &&& y.prompt is Some && y.prompt->0.kind is Rename && y.prompt->0.kind->orig@ == x.pane.entries@[i].name@
            &&& y.prompt->0.buf@ == x.pane.entries@[i].name@
        },
        a is Paste && x.clipboard is Some ==> e is PasteInto && e->PasteInto_0@ == x.pane.current_dir@,
        a is Paste && x.clipboard is None ==> e is Nothing,
        a is Props ==> y.details,
        a is Copy && explorer::selected(x).len() > 0 ==> y.clipboard is Some && !y.clipboard->0.cut && text::texts(
            y.clipboard->0.paths@,
        ) == explorer::selected(x),
        a is Cut && explorer::selected(x).len() > 0 ==> y.clipboard is Some && y.clipboard->0.cut && text::texts(
            y.clipboard->0.paths@,
        ) == explorer::selected(x),
        a is Delete ==> e is Nothing && y.clipboard == x.clipboard,
        a is Delete && x.job is Idle && explorer::selected(x).len() > 0 ==> y.confirm_delete is Some && text::texts(
            y.confirm_delete->0@,
        ) == explorer::selected(x),
{
    reveal(commands::and_when);
}

/// What the menu of the folder shown does: what is on the clipboard goes into that
/// folder, that folder is shown or told of, and it is read again where that was
/// asked.
pub proof fn law_folder_menu_acts_on_the_folder(x: Explorer, y: Explorer, a: FolderAct, e: Effect)
    requires
        folder_chosen(x, y, a, e),
    ensures
        y.job == x.job && y.history == x.history && y.clipboard == x.clipboard && y.focus is List,
        y.pane.current_dir@ == x.pane.current_dir@,
        a is Paste && x.clipboard is Some ==> e is PasteInto && e->PasteInto_0@ == x.pane.current_dir@,
        a is Paste && x.clipboard is None ==> e is Nothing,
        a is Reveal ==> e is Reveal && e->Reveal_path@ == x.pane.current_dir@ && e->is_dir,
        a is Refresh ==> y.pane.entries_dirty && y.sidebar.branches@.len() == 0,
        a is Props ==> y.details,
        a is NewFolder ==> y.prompt is Some && y.prompt->0.kind is NewFolder,
{
}

/// What a move in the tree does: the tree has the keyboard, the folder that it goes
/// to is opened, the folder one is in is expanded or collapsed, and no file is
/// touched.
pub proof fn law_moves_in_the_tree(x: Explorer, y: Explorer, m: TreeMove)
    requires
        tree_moved(x, y, m),
    ensures
        y.focus is Tree,
        y.job == x.job && y.history == x.history && y.clipboard == x.clipboard,
        m matches TreeMove::Go(p) ==> paths::same_path_spec(
            x.pane.style,
            y.pane.current_dir@,
            crate::location::upper_drive(p@),
        ),
        !(m is Go) ==> y.pane == x.pane,
        m is Stay ==> y.sidebar == x.sidebar,
        m is Expand ==> sidebar::holds(x.sidebar.style, text::texts(y.sidebar.expanded@), x.pane.current_dir@),
        m is Collapse ==> !sidebar::holds(x.sidebar.style, text::texts(y.sidebar.expanded@), x.pane.current_dir@),
{
    let v = text::texts(x.sidebar.expanded@);
    let cur = x.pane.current_dir@;
    if m is Expand && !sidebar::holds(x.sidebar.style, v, cur) {
        assert(v.push(cur)[v.len() as int] == cur);
        assert(sidebar::holds(x.sidebar.style, v.push(cur), cur));
    }
    sidebar::law_toggle_twice(x.sidebar.style, v, cur, cur);
    if !sidebar::holds(x.sidebar.style, v, cur) {
        assert(v.push(cur).drop_last() =~= v);
        assert(sidebar::without_path(x.sidebar.style, v.push(cur), cur) == sidebar::without_path(x.sidebar.style, v, cur));
    }
}

} // verus!
