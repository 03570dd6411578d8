//! What keys and menus ask for, and what comes of it.
//!
//! A command changes the explorer and may leave something to be done outside:
//! the effect.
use vstd::prelude::*;
use crate::explorer::{self, Explorer, Focus};
use crate::gestures::{self, EnterAction, ListKey};
use crate::names;
use crate::pane::{self, Pane};
use crate::paths::{self, join};
use crate::sidebar::{self, Sidebar, TreeKey};
use crate::text;
use crate::undo::{self, UndoOp};

verus! {

/// A key that means something.
#[derive(Clone, Copy, Debug, PartialEq, Eq, Structural)]
pub enum Key {
    A,
    C,
    D,
    E,
    F,
    L,
    N,
    R,
    V,
    X,
    Y,
    Z,
    F2,
    F4,
    F5,
    F10,
    Up,
    Down,
    Left,
    Right,
    PageUp,
    PageDown,
    Home,
    End,
    Enter,
    Escape,
    Backspace,
    Delete,
    Space,
    Tab,
    Num1,
    Num2,
    Num3,
    Num4,
    Num5,
    Num6,
    Num7,
    Num8,
    Num9,
}

/// The keys that were pressed, and the modifiers that were held.
pub struct Input {
    pub ctrl: bool,
    pub shift: bool,
    pub alt: bool,
    pub pressed: Vec<Key>,
}

/// What the keyboard can ask for.
#[derive(Clone, Copy, Debug, PartialEq, Eq, Structural)]
pub enum Command {
    Escape,
    FocusFilter,
    Up,
    CopyPaths,
    OpenMenu,
    ToggleLead,
    Refresh,
    SwitchFocus,
    Back,
    Forward,
    Rename,
    NewFolder,
    SelectAll,
    Copy,
    Cut,
    Paste,
    Undo,
    Redo,
    Delete,
    ShowDetails,
    Enter,
}

impl Input {
    /// The key was pressed.
    #[verifier::opaque]
    pub open spec fn has_key(&self, k: Key) -> bool {
        self.pressed@.contains(k)
    }

    /// Whether a key was pressed.
    pub fn pressed(&self, k: Key) -> (r: bool)
        ensures
            r == self.has_key(k),
    {
        proof {
            reveal(Input::has_key);
        }
        let mut i: usize = 0;
        while i < self.pressed.len()
            invariant
                i <= self.pressed@.len(),
                forall|j: int| 0 <= j < i ==> #[trigger] self.pressed@[j] != k,
            decreases self.pressed@.len() - i,
        {
            if self.pressed[i] == k {
                proof {
                    reveal(Input::has_key);
                }
                return true;
            }
            i += 1;
        }
        false
    }
}

/// The commands, and one more where it was asked for.
#[verifier::opaque]
pub open spec fn and_when(v: Seq<Command>, asked: bool, c: Command) -> Seq<Command> {
    if asked {
        v.push(c)
    } else {
        v
    }
}

/// The commands on what is shown, behind those in `v`.
pub open spec fn view_commands(v: Seq<Command>, i: Input, esc_spent: bool, tree_focus: bool) -> Seq<Command> {
    let ctrl = i.ctrl && !i.shift;
    let both = i.ctrl && i.shift;
    let v = and_when(v, !esc_spent && i.has_key(Key::Escape), Command::Escape);
    let v = and_when(v, ctrl && (i.has_key(Key::F) || i.has_key(Key::E)), Command::FocusFilter);
    let v = and_when(v, i.alt && i.has_key(Key::Up), Command::Up);
    let v = and_when(v, both && i.has_key(Key::C), Command::CopyPaths);
    let v = and_when(v, !tree_focus && i.shift && i.has_key(Key::F10), Command::OpenMenu);
    let v = and_when(v, !tree_focus && i.ctrl && i.has_key(Key::Space), Command::ToggleLead);
    let v = and_when(v, i.has_key(Key::F5) || (i.ctrl && i.has_key(Key::R)), Command::Refresh);
    v
}

/// The commands that lead elsewhere, or ask for a name, behind those in `v`.
pub open spec fn way_commands(v: Seq<Command>, i: Input, tree_visible: bool) -> Seq<Command> {
    let both = i.ctrl && i.shift;
    let v = and_when(v, i.has_key(Key::Backspace), Command::Up);
    let v = and_when(v, tree_visible && !i.ctrl && i.has_key(Key::Tab), Command::SwitchFocus);
    let v = and_when(v, i.alt && i.has_key(Key::Left), Command::Back);
    let v = and_when(v, i.alt && i.has_key(Key::Right), Command::Forward);
    let v = and_when(v, i.has_key(Key::F2), Command::Rename);
    let v = and_when(v, both && i.has_key(Key::N), Command::NewFolder);
    v
}

/// The commands on the selection and on files, behind those in `v`.
pub open spec fn file_commands(v: Seq<Command>, i: Input) -> Seq<Command> {
    let ctrl = i.ctrl && !i.shift;
    let both = i.ctrl && i.shift;
    let v = and_when(v, ctrl && i.has_key(Key::A), Command::SelectAll);
    let v = and_when(v, ctrl && i.has_key(Key::C), Command::Copy);
    let v = and_when(v, ctrl && i.has_key(Key::X), Command::Cut);
    let v = and_when(v, ctrl && i.has_key(Key::V), Command::Paste);
    let v = and_when(v, ctrl && i.has_key(Key::Z), Command::Undo);
    let v = and_when(v, (ctrl && i.has_key(Key::Y)) || (both && i.has_key(Key::Z)), Command::Redo);
    let v = and_when(v, i.has_key(Key::Delete), Command::Delete);
    let v = and_when(v, i.has_key(Key::Enter) && i.alt, Command::ShowDetails);
    let v = and_when(v, i.has_key(Key::Enter) && !i.alt, Command::Enter);
    v
}

/// The commands that keys ask for, in the order in which they are carried out.
pub open spec fn asked_for(i: Input, esc_spent: bool, tree_focus: bool, tree_visible: bool) -> Seq<Command> {
    file_commands(
        way_commands(view_commands(Seq::empty(), i, esc_spent, tree_focus), i, tree_visible),
        i,
    )
}

fn push_when(v: &mut Vec<Command>, asked: bool, c: Command)
    ensures
        final(v)@ == and_when(old(v)@, asked, c),
{
    proof {
        reveal(and_when);
    }
    if asked {
        v.push(c);
    }
}

fn push_view_commands(v: &mut Vec<Command>, i: &Input, esc_spent: bool, tree_focus: bool)
    ensures
        final(v)@ == view_commands(old(v)@, *i, esc_spent, tree_focus),
{
    let key_escape = i.pressed(Key::Escape);
    let key_f = i.pressed(Key::F);
    let key_e = i.pressed(Key::E);
    let key_up = i.pressed(Key::Up);
    let key_c = i.pressed(Key::C);
    let key_f10 = i.pressed(Key::F10);
    let key_space = i.pressed(Key::Space);
    let key_f5 = i.pressed(Key::F5);
    let key_r = i.pressed(Key::R);
    let ctrl = i.ctrl && !i.shift;
    let both = i.ctrl && i.shift;
    push_when(v, !esc_spent && key_escape, Command::Escape);
    push_when(v, ctrl && (key_f || key_e), Command::FocusFilter);
    push_when(v, i.alt && key_up, Command::Up);
    push_when(v, both && key_c, Command::CopyPaths);
    push_when(v, !tree_focus && i.shift && key_f10, Command::OpenMenu);
    push_when(v, !tree_focus && i.ctrl && key_space, Command::ToggleLead);
    push_when(v, key_f5 || (i.ctrl && key_r), Command::Refresh);
}

fn push_way_commands(v: &mut Vec<Command>, i: &Input, tree_visible: bool)
    ensures
        final(v)@ == way_commands(old(v)@, *i, tree_visible),
{
    let key_backspace = i.pressed(Key::Backspace);
    let key_tab = i.pressed(Key::Tab);
    let key_left = i.pressed(Key::Left);
    let key_right = i.pressed(Key::Right);
    let key_f2 = i.pressed(Key::F2);
    let key_n = i.pressed(Key::N);
    let both = i.ctrl && i.shift;
    push_when(v, key_backspace, Command::Up);
    push_when(v, tree_visible && !i.ctrl && key_tab, Command::SwitchFocus);
    push_when(v, i.alt && key_left, Command::Back);
    push_when(v, i.alt && key_right, Command::Forward);
    push_when(v, key_f2, Command::Rename);
    push_when(v, both && key_n, Command::NewFolder);
}

fn push_file_commands(v: &mut Vec<Command>, i: &Input)
    ensures
        final(v)@ == file_commands(old(v)@, *i),
{
    let key_a = i.pressed(Key::A);
    let key_c = i.pressed(Key::C);
    let key_x = i.pressed(Key::X);
    let key_v = i.pressed(Key::V);
    let key_z = i.pressed(Key::Z);
    let key_y = i.pressed(Key::Y);
    let key_delete = i.pressed(Key::Delete);
    let key_enter = i.pressed(Key::Enter);
    let ctrl = i.ctrl && !i.shift;
    let both = i.ctrl && i.shift;
    push_when(v, ctrl && key_a, Command::SelectAll);
    push_when(v, ctrl && key_c, Command::Copy);
    push_when(v, ctrl && key_x, Command::Cut);
    push_when(v, ctrl && key_v, Command::Paste);
    push_when(v, ctrl && key_z, Command::Undo);
    push_when(v, (ctrl && key_y) || (both && key_z), Command::Redo);
    push_when(v, key_delete, Command::Delete);
    push_when(v, key_enter && i.alt, Command::ShowDetails);
    push_when(v, key_enter && !i.alt, Command::Enter);
}

/// The commands that keys ask for, in the order in which they are carried out.
/// An Escape may be spent already, by the field that it left.
pub fn commands(i: &Input, esc_spent: bool, tree_focus: bool, tree_visible: bool) -> (r: Vec<Command>)
    ensures
        r@ == asked_for(*i, esc_spent, tree_focus, tree_visible),
{
    let mut v: Vec<Command> = Vec::new();
    assert(v@ =~= Seq::empty());
    push_view_commands(&mut v, i, esc_spent, tree_focus);
    push_way_commands(&mut v, i, tree_visible);
    push_file_commands(&mut v, i);
    v
}

/// Whether the keys ask for the address bar.
pub fn asks_for_address(i: &Input) -> (r: bool)
    ensures
        r == (i.has_key(Key::F4) || (i.alt && i.has_key(Key::D)) || (i.ctrl && i.has_key(Key::L))),
{
    i.pressed(Key::F4) || (i.alt && i.pressed(Key::D)) || (i.ctrl && i.pressed(Key::L))
}

/// The key of the `n`-th digit, from one on.
pub open spec fn digit_key(n: int) -> Key {
    if n == 0 {
        Key::Num1
    } else if n == 1 {
        Key::Num2
    } else if n == 2 {
        Key::Num3
    } else if n == 3 {
        Key::Num4
    } else if n == 4 {
        Key::Num5
    } else if n == 5 {
        Key::Num6
    } else if n == 6 {
        Key::Num7
    } else if n == 7 {
        Key::Num8
    } else {
        Key::Num9
    }
}

const DIGITS: [Key; 9] = [
    Key::Num1,
    Key::Num2,
    Key::Num3,
    Key::Num4,
    Key::Num5,
    Key::Num6,
    Key::Num7,
    Key::Num8,
    Key::Num9,
];

/// The place in quick access that the keys ask for: that of the first digit that
/// was pressed, with Ctrl and without Shift.
pub fn quick_place(i: &Input) -> (r: Option<usize>)
    ensures
        r is Some ==> i.ctrl && !i.shift && r->0 < 9 && i.has_key(digit_key(r->0 as int)) && forall|n: int|
            0 <= n < r->0 ==> !i.has_key(#[trigger] digit_key(n)),
        r is None ==> !i.ctrl || i.shift || forall|n: int| 0 <= n < 9 ==> !i.has_key(#[trigger] digit_key(n)),
{
    if !i.ctrl || i.shift {
        return None;
    }
    let mut n: usize = 0;
    while n < 9
        invariant
            n <= 9,
            i.ctrl && !i.shift,
            forall|m: int| 0 <= m < n ==> !i.has_key(#[trigger] digit_key(m)),
        decreases 9 - n,
    {
        let k = DIGITS[n];
        assert(k == digit_key(n as int));
        if i.pressed(k) {
            return Some(n);
        }
        n += 1;
    }
    None
}

/// The key that moves the cursor of the list; of several the one to the right in
/// the order Down, Up, PageDown, PageUp, Home, End. With Alt the arrows go
/// through the history.
pub open spec fn list_key_of(i: Input) -> Option<ListKey> {
    if i.has_key(Key::End) {
        Some(ListKey::End)
    } else if i.has_key(Key::Home) {
        Some(ListKey::Home)
    } else if i.has_key(Key::PageUp) {
        Some(ListKey::PageUp)
    } else if i.has_key(Key::PageDown) {
        Some(ListKey::PageDown)
    } else if !i.alt && i.has_key(Key::Up) {
        Some(ListKey::Up)
    } else if !i.alt && i.has_key(Key::Down) {
        Some(ListKey::Down)
    } else {
        None
    }
}

/// The key that moves the cursor of the list.
pub fn list_key(i: &Input) -> (r: Option<ListKey>)
    ensures
        r == list_key_of(*i),
{
    if i.pressed(Key::End) {
        Some(ListKey::End)
    } else if i.pressed(Key::Home) {
        Some(ListKey::Home)
    } else if i.pressed(Key::PageUp) {
        Some(ListKey::PageUp)
    } else if i.pressed(Key::PageDown) {
        Some(ListKey::PageDown)
    } else if !i.alt && i.pressed(Key::Up) {
        Some(ListKey::Up)
    } else if !i.alt && i.pressed(Key::Down) {
        Some(ListKey::Down)
    } else {
        None
    }
}

/// The key that moves in the tree; of several the first of Down, Up, Home, End,
/// Right, Left. With Alt the arrows go through the history.
pub open spec fn tree_key_of(i: Input) -> Option<TreeKey> {
    if !i.alt && i.has_key(Key::Down) {
        Some(TreeKey::Down)
    } else if !i.alt && i.has_key(Key::Up) {
        Some(TreeKey::Up)
    } else if i.has_key(Key::Home) {
        Some(TreeKey::Home)
    } else if i.has_key(Key::End) {
        Some(TreeKey::End)
    } else if !i.alt && i.has_key(Key::Right) {
        Some(TreeKey::Right)
    } else if !i.alt && i.has_key(Key::Left) {
        Some(TreeKey::Left)
    } else {
        None
    }
}

/// The key that moves in the tree.
pub fn tree_key(i: &Input) -> (r: Option<TreeKey>)
    ensures
        r == tree_key_of(*i),
{
    if !i.alt && i.pressed(Key::Down) {
        Some(TreeKey::Down)
    } else if !i.alt && i.pressed(Key::Up) {
        Some(TreeKey::Up)
    } else if i.pressed(Key::Home) {
        Some(TreeKey::Home)
    } else if i.pressed(Key::End) {
        Some(TreeKey::End)
    } else if !i.alt && i.pressed(Key::Right) {
        Some(TreeKey::Right)
    } else if !i.alt && i.pressed(Key::Left) {
        Some(TreeKey::Left)
    } else {
        None
    }
}

/// What is left to be done outside.
pub enum Effect {
    Nothing,
    /// The filter field gets the keyboard.
    FocusFilter,
    /// A text goes on the clipboard.
    CopyText(String),
    /// The menu of a row opens.
    OpenMenu(usize),
    /// Files go on the system's clipboard.
    ClipFiles { paths: Vec<String>, cut: bool },
    /// The clipboard is pasted into a folder.
    PasteInto(String),
    /// A reversal is run.
    Reverse(UndoOp),
    /// Files are opened with their programs.
    Open(Vec<String>),
    /// A path is shown in the system's own explorer.
    Reveal { path: String, is_dir: bool },
    /// The folder is listed, and then a name for a new one asked.
    ListThenNewFolder,
    /// The folder is listed, and then its details shown.
    ListThenDetails,
}

/// The pane changed, and nothing else.
pub open spec fn pane_only(x: Explorer, y: Explorer) -> bool {
    y == (Explorer { pane: y.pane, ..x })
}

/// Escape clears the filter, else the selection, else closes the details.
pub open spec fn escaped(x: Explorer, y: Explorer) -> bool {
    if x.pane.filter@.len() > 0 {
        unfiltered(x, y)
    } else if x.pane.sel@.len() > 0 || x.pane.lead is Some {
        pane_only(x, y) && pane::nothing_selected(x.pane, y.pane)
    } else {
        y == (Explorer { details: false, ..x })
    }
}

/// The filter is empty.
pub open spec fn filter_cleared(p: Pane, a: Pane) -> bool {
    a == (Pane { filter: a.filter, ..p }) && a.filter@.len() == 0
}

/// The row that a menu opens for.
pub open spec fn menu_row(p: Pane) -> Option<usize> {
    match pane::target_row(p.entries@, p.selected(), p.lead) {
        Some(i) => Some(i),
        None => p.lead,
    }
}

/// The texts of the paths that are copied: of the folder, or of the selection.
pub open spec fn copied_paths(x: Explorer, tree_focus: bool) -> Seq<Seq<char>> {
    if tree_focus {
        seq![x.pane.current_dir@]
    } else {
        explorer::selected(x)
    }
}

/// The folder we are in was toggled in the tree.
pub open spec fn toggled_here(x: Explorer, y: Explorer) -> bool {
    folder_toggled(x, y, x.pane.current_dir@)
}

/// A folder was toggled in the tree.
pub open spec fn folder_toggled(x: Explorer, y: Explorer, p: Seq<char>) -> bool {
    let v = text::texts(x.sidebar.expanded@);
    &&& y == (Explorer { sidebar: Sidebar { expanded: y.sidebar.expanded, ..x.sidebar }, ..x })
    &&& text::texts(y.sidebar.expanded@) == (if sidebar::holds(x.sidebar.style, v, p) {
        sidebar::without_path(x.sidebar.style, v, p)
    } else {
        v.push(p)
    })
}

/// What Enter came to in the list.
pub open spec fn entered(x: Explorer, y: Explorer, a: EnterAction, e: Effect) -> bool {
    match a {
        EnterAction::Nothing => y == x && e is Nothing,
        EnterAction::Enter(p) => explorer::navigated(x, y, p@) && e is Nothing,
        EnterAction::Open(v) => y == x && e == Effect::Open(v),
        EnterAction::Refused(m) => y == (Explorer { op_error: Some(m), ..x }) && e is Nothing,
    }
}

/// Files were put on the clipboard, and the system's is to follow.
pub open spec fn files_clipped(x: Explorer, y: Explorer, files: Seq<Seq<char>>, cut: bool, e: Effect) -> bool {
    exists|r: Option<Vec<String>>|
        #[trigger] explorer::clipped(x, y, files, cut, r) && (match r {
            Some(v) => e == (Effect::ClipFiles { paths: v, cut }),
            None => e is Nothing,
        })
}

/// A reversal was started, or there was none to start.
pub open spec fn reversed(x: Explorer, y: Explorer, redo: bool, e: Effect) -> bool {
    let stack = if redo {
        x.history.redo@
    } else {
        x.history.undo@
    };
    if explorer::busy(x) || stack.len() == 0 {
        y == x && e is Nothing
    } else {
        e matches Effect::Reverse(op) && explorer::reversal_started(x, y, redo, op)
    }
}

/// The dialog for another name was opened, for the folder or for the row that
/// operations act on.
pub open spec fn rename_asked(x: Explorer, y: Explorer, tree_focus: bool) -> bool {
    let p = x.pane;
    &&& y == (Explorer { prompt: y.prompt, ..x })
    &&& if tree_focus {
        match paths::file_name_spec(p.style, p.current_dir@) {
            Some(n) => y.prompt matches Some(q) && explorer::asks_rename_dir(q, p.current_dir@, n),
            None => y.prompt == x.prompt,
        }
    } else {
        match pane::target_row(p.entries@, p.selected(), p.lead) {
            Some(i) => y.prompt matches Some(q) && explorer::asks_rename(q, p.entries@[i as int].name@),
            None => y.prompt == x.prompt,
        }
    }
}

/// The question whether to delete was asked, about the folder or the selection.
pub open spec fn delete_asked(x: Explorer, y: Explorer, tree_focus: bool) -> bool {
    let files = if tree_focus {
        if paths::parent_spec(x.pane.style, x.pane.current_dir@) is Some {
            seq![x.pane.current_dir@]
        } else {
            Seq::empty()
        }
    } else {
        explorer::selected(x)
    };
    &&& y == (Explorer { confirm_delete: y.confirm_delete, ..x })
    &&& if explorer::busy(x) || files.len() == 0 {
        y.confirm_delete == x.confirm_delete
    } else {
        y.confirm_delete matches Some(v) && text::texts(v@) == files
    }
}

/// What the commands on what is shown come to.
pub open spec fn ran_view(x: Explorer, y: Explorer, c: Command, tree_focus: bool, e: Effect) -> bool {
    match c {
        Command::Escape => escaped(x, y) && e is Nothing,
        Command::FocusFilter => y == x && e is FocusFilter,
        Command::CopyPaths => y == x && (if copied_paths(x, tree_focus).len() == 0 {
            e is Nothing
        } else {
            e matches Effect::CopyText(t) && t@ == text::join(copied_paths(x, tree_focus), "\n"@)
        }),
        Command::OpenMenu => match menu_row(x.pane) {
            Some(i) => {
                &&& y == (Explorer { pane: Pane { lead: Some(i), scroll_target: Some(i), ..x.pane }, ..x })
                &&& e == Effect::OpenMenu(i)
            },
            None => y == x && e is Nothing,
        },
        Command::ToggleLead => {
            &&& pane_only(x, y)
            &&& e is Nothing
            &&& match x.pane.lead {
                Some(l) => pane::toggled(x.pane, y.pane, l),
                None => y == x,
            }
        },
        Command::Refresh => {
            &&& y == (Explorer { pane: y.pane, sidebar: y.sidebar, ..x })
            &&& gestures::refreshed(x.pane, y.pane)
            &&& explorer::listings_dropped(x.sidebar, y.sidebar)
            &&& e is Nothing
        },
        Command::SwitchFocus => {
            &&& e is Nothing
            &&& y == (Explorer {
                focus: if x.focus == Focus::Tree {
                    Focus::List
                } else {
                    Focus::Tree
                },
                sidebar: Sidebar { scroll: x.sidebar.scroll || x.focus != Focus::Tree, ..x.sidebar },
                ..x
            })
        },
        Command::SelectAll => pane_only(x, y) && gestures::all_selected(x.pane, y.pane) && e is Nothing,
        Command::ShowDetails => {
            &&& e is Nothing
            &&& y == (Explorer {
                details: x.details || tree_focus || pane::target_row(
                    x.pane.entries@,
                    x.pane.selected(),
                    x.pane.lead,
                ) is Some,
                ..x
            })
        },
        _ => false,
    }
}

/// What the commands that lead elsewhere come to.
pub open spec fn ran_way(x: Explorer, y: Explorer, c: Command, tree_focus: bool, e: Effect) -> bool {
    match c {
        Command::Up => explorer::stepped_up(x, y) && e is Nothing,
        Command::Back => explorer::stepped_back(x, y) && e is Nothing,
        Command::Forward => explorer::stepped_forward(x, y) && e is Nothing,
        Command::Enter => if tree_focus {
            toggled_here(x, y) && e is Nothing
        } else {
            exists|a: EnterAction| #[trigger] gestures::entering(x.pane, a) && entered(x, y, a, e)
        },
        _ => false,
    }
}

/// What the commands on names and files come to.
pub open spec fn ran_files(x: Explorer, y: Explorer, c: Command, tree_focus: bool, e: Effect) -> bool {
    let here = if paths::parent_spec(x.pane.style, x.pane.current_dir@) is Some {
        seq![x.pane.current_dir@]
    } else {
        Seq::empty()
    };
    let files = if tree_focus {
        here
    } else {
        explorer::selected(x)
    };
    match c {
        Command::Rename => rename_asked(x, y, tree_focus) && e is Nothing,
        Command::NewFolder => {
            &&& y == (Explorer { prompt: y.prompt, ..x })
            &&& y.prompt matches Some(q) && explorer::asks_new_folder(
                q,
                names::free_folder_name(pane::names_of(x.pane.all_entries@), 1),
            )
            &&& e is Nothing
        },
        Command::Copy => files_clipped(x, y, files, false, e),
        Command::Cut => files_clipped(x, y, files, true, e),
        Command::Paste => y == x && (if x.clipboard is Some {
            e == Effect::PasteInto(x.pane.current_dir)
        } else {
            e is Nothing
        }),
        Command::Undo => reversed(x, y, false, e),
        Command::Redo => reversed(x, y, true, e),
        Command::Delete => delete_asked(x, y, tree_focus) && e is Nothing,
        _ => false,
    }
}

/// What a command comes to.
pub open spec fn ran(x: Explorer, y: Explorer, c: Command, tree_focus: bool, e: Effect) -> bool {
    ||| ran_view(x, y, c, tree_focus, e)
    ||| ran_way(x, y, c, tree_focus, e)
    ||| ran_files(x, y, c, tree_focus, e)
}

/// The filter was emptied and the list shows everything again.
pub open spec fn unfiltered(x: Explorer, y: Explorer) -> bool {
    &&& pane_only(x, y)
    &&& exists|a: Pane| #[trigger] filter_cleared(x.pane, a) && pane::filtered(a, y.pane, x.show_hidden)
}

impl Explorer {
    /// Empties the filter.
    pub fn clear_filter(&mut self)
        requires
            old(self).wf(),
        ensures
            final(self).wf(),
            unfiltered(*old(self), *final(self)),
    {
        self.pane.filter = String::new();
        let ghost a = self.pane;
        self.apply_filter();
        assert(filter_cleared(old(self).pane, a));
    }

    /// The filter field lost the keyboard, or not (`left`). Where that was by
    /// Escape, a filled filter is emptied; the key is spent either way.
    pub fn leave_filter(&mut self, left: bool, i: &Input) -> (spent: bool)
        requires
            old(self).wf(),
        ensures
            final(self).wf(),
            spent == (left && i.has_key(Key::Escape)),
            if spent && old(self).pane.filter@.len() > 0 {
                unfiltered(*old(self), *final(self))
            } else {
                *final(self) == *old(self)
            },
    {
        let spent = left && i.pressed(Key::Escape);
        if spent && self.pane.filter.as_str().unicode_len() > 0 {
            self.clear_filter();
        }
        spent
    }

    fn escape(&mut self)
        requires
            old(self).wf(),
        ensures
            final(self).wf(),
            escaped(*old(self), *final(self)),
    {
        if self.pane.filter.as_str().unicode_len() > 0 {
            self.clear_filter();
        } else if self.pane.sel.len() > 0 || self.pane.lead.is_some() {
            self.pane.clear_selection();
        } else {
            self.details = false;
        }
    }

    fn copy_paths(&self, tree_focus: bool) -> (e: Effect)
        ensures
            ran_view(*self, *self, Command::CopyPaths, tree_focus, e),
    {
        let paths = if tree_focus {
            let mut v: Vec<String> = Vec::new();
            v.push(self.pane.current_dir.clone());
            assert(text::texts(v@) =~= seq![self.pane.current_dir@]);
            v
        } else {
            self.pane.selected_paths()
        };
        assert(text::texts(paths@).len() == paths@.len());
        if paths.len() == 0 {
            Effect::Nothing
        } else {
            Effect::CopyText(text::joined(&paths, "\n"))
        }
    }

    fn run_view(&mut self, c: Command, tree_focus: bool) -> (e: Effect)
        requires
            old(self).wf(),
            c is Escape || c is FocusFilter || c is CopyPaths || c is OpenMenu || c is ToggleLead || c is Refresh
                || c is SwitchFocus || c is SelectAll || c is ShowDetails,
        ensures
            final(self).wf(),
            ran_view(*old(self), *final(self), c, tree_focus, e),
    {
        match c {
            Command::Escape => {
                self.escape();
            },
            Command::FocusFilter => {
                return Effect::FocusFilter;
            },
            Command::CopyPaths => {
                return self.copy_paths(tree_focus);
            },
            Command::OpenMenu => {
                let row = match self.pane.op_target() {
                    Some(i) => Some(i),
                    None => self.pane.lead,
                };
                match row {
                    Some(i) => {
                        self.pane.lead = Some(i);
                        self.pane.scroll_target = Some(i);
                        return Effect::OpenMenu(i);
                    },
                    None => {},
                }
            },
            Command::ToggleLead => match self.pane.lead {
                Some(l) => {
                    self.pane.toggle_at(l);
                },
                None => {},
            },
            Command::Refresh => {
                self.pane.refresh();
                self.sidebar.forget();
            },
            Command::SwitchFocus => {
                if self.focus == Focus::Tree {
                    self.focus = Focus::List;
                } else {
                    self.focus = Focus::Tree;
                    self.sidebar.scroll = true;
                }
            },
            Command::SelectAll => {
                self.pane.select_all();
            },
            _ => {
                if tree_focus || self.pane.op_target().is_some() {
                    self.details = true;
                }
            },
        }
        Effect::Nothing
    }

    fn run_enter(&mut self, tree_focus: bool) -> (e: Effect)
        requires
            old(self).wf(),
        ensures
            final(self).wf(),
            ran_way(*old(self), *final(self), Command::Enter, tree_focus, e),
    {
        if tree_focus {
            let dir = self.pane.current_dir.clone();
            self.sidebar.toggle(dir.as_str());
            return Effect::Nothing;
        }
        let a = self.pane.enter();
        let ghost act = a;
        assert(gestures::entering(self.pane, act));
        let e = self.open_as(a);
        assert(entered(*old(self), *self, act, e));
        e
    }

    pub(crate) fn open_as(&mut self, a: EnterAction) -> (e: Effect)
        ensures
            entered(*old(self), *final(self), a, e),
            old(self).wf() ==> final(self).wf(),
    {
        match a {
            EnterAction::Nothing => Effect::Nothing,
            EnterAction::Enter(p) => {
                self.navigate_to(p.as_str());
                Effect::Nothing
            },
            EnterAction::Open(v) => Effect::Open(v),
            EnterAction::Refused(m) => {
                self.op_error = Some(m);
                Effect::Nothing
            },
        }
    }

    pub(crate) fn clip(&mut self, tree_focus: bool, cut: bool) -> (e: Effect)
        requires
            old(self).wf(),
        ensures
            final(self).wf(),
            ({
                let here = if paths::parent_spec(old(self).pane.style, old(self).pane.current_dir@) is Some {
                    seq![old(self).pane.current_dir@]
                } else {
                    Seq::empty()
                };
                files_clipped(
                    *old(self),
                    *final(self),
                    if tree_focus {
                        here
                    } else {
                        explorer::selected(*old(self))
                    },
                    cut,
                    e,
                )
            }),
    {
        let r = if tree_focus {
            self.clip_current_dir(cut)
        } else {
            self.clip_selected(cut)
        };
        let ghost back = r;
        match r {
            Some(paths) => {
                let e = Effect::ClipFiles { paths, cut };
                assert(back == Some(paths));
                e
            },
            None => Effect::Nothing,
        }
    }

    fn reverse(&mut self, redo: bool) -> (e: Effect)
        ensures
            reversed(*old(self), *final(self), redo, e),
            old(self).wf() ==> final(self).wf(),
    {
        match self.start_reversal(redo) {
            Some(op) => Effect::Reverse(op),
            None => Effect::Nothing,
        }
    }

    fn ask_rename(&mut self, tree_focus: bool)
        ensures
            rename_asked(*old(self), *final(self), tree_focus),
            old(self).wf() ==> final(self).wf(),
    {
        if tree_focus {
            let dir = self.pane.current_dir.clone();
            self.open_rename_dir_at(dir.as_str());
        } else {
            match self.pane.op_target() {
                Some(i) => {
                    let name = self.pane.entries[i].name.clone();
                    self.open_rename(name.as_str());
                },
                None => {},
            }
        }
    }

    pub(crate) fn ask_delete(&mut self, tree_focus: bool)
        ensures
            delete_asked(*old(self), *final(self), tree_focus),
            old(self).wf() ==> final(self).wf(),
    {
        if tree_focus {
            let dir = self.pane.current_dir.clone();
            self.request_delete_dir(dir.as_str());
        } else {
            self.request_delete();
        }
    }

    /// Carries out a command. `tree_focus` says whether it is meant for the tree,
    /// and so for the folder we are in.
    pub fn run(&mut self, c: Command, tree_focus: bool) -> (e: Effect)
        requires
            old(self).wf(),
        ensures
            final(self).wf(),
            ran(*old(self), *final(self), c, tree_focus, e),
    {
        match c {
            Command::Up => {
                self.go_up();
                Effect::Nothing
            },
            Command::Back => {
                self.go_back();
                Effect::Nothing
            },
            Command::Forward => {
                self.go_forward();
                Effect::Nothing
            },
            Command::Enter => self.run_enter(tree_focus),
            Command::Rename => {
                self.ask_rename(tree_focus);
                Effect::Nothing
            },
            Command::NewFolder => {
                self.open_new_folder();
                Effect::Nothing
            },
            Command::Copy => self.clip(tree_focus, false),
            Command::Cut => self.clip(tree_focus, true),
            Command::Paste => {
                if self.clipboard.is_some() {
                    Effect::PasteInto(self.pane.current_dir.clone())
                } else {
                    Effect::Nothing
                }
            },
            Command::Undo => self.reverse(false),
            Command::Redo => self.reverse(true),
            Command::Delete => {
                self.ask_delete(tree_focus);
                Effect::Nothing
            },
            _ => self.run_view(c, tree_focus),
        }
    }
}

/// What the keys ask for. Each command stands among what is asked for exactly where
/// its keys were pressed with its modifiers.
pub proof fn law_keys_ask_for_commands(i: Input, esc_spent: bool, tree_focus: bool, tree_visible: bool, c: Command)
    ensures
        asked_for(i, esc_spent, tree_focus, tree_visible).contains(c) <==> match c {
            Command::Escape => i.pressed@.contains(Key::Escape) && !esc_spent,
            Command::FocusFilter => i.ctrl && !i.shift && (i.pressed@.contains(Key::F) || i.pressed@.contains(Key::E)),
            Command::Up => i.pressed@.contains(Key::Backspace) || (i.alt && i.pressed@.contains(Key::Up)),
            Command::CopyPaths => i.ctrl && i.shift && i.pressed@.contains(Key::C),
            Command::OpenMenu => i.shift && i.pressed@.contains(Key::F10) && !tree_focus,
            Command::ToggleLead => i.ctrl && i.pressed@.contains(Key::Space) && !tree_focus,
            Command::Refresh => i.pressed@.contains(Key::F5) || (i.ctrl && i.pressed@.contains(Key::R)),
            Command::SwitchFocus => i.pressed@.contains(Key::Tab) && !i.ctrl && tree_visible,
            Command::Back => i.alt && i.pressed@.contains(Key::Left),
            Command::Forward => i.alt && i.pressed@.contains(Key::Right),
            Command::Rename => i.pressed@.contains(Key::F2),
            Command::NewFolder => i.ctrl && i.shift && i.pressed@.contains(Key::N),
            Command::SelectAll => i.ctrl && !i.shift && i.pressed@.contains(Key::A),
            Command::Copy => i.ctrl && !i.shift && i.pressed@.contains(Key::C),
            Command::Cut => i.ctrl && !i.shift && i.pressed@.contains(Key::X),
            Command::Paste => i.ctrl && !i.shift && i.pressed@.contains(Key::V),
            Command::Undo => i.ctrl && !i.shift && i.pressed@.contains(Key::Z),
            Command::Redo => i.ctrl && ((!i.shift && i.pressed@.contains(Key::Y)) || (i.shift && i.pressed@.contains(
                Key::Z,
            ))),
            Command::Delete => i.pressed@.contains(Key::Delete),
            Command::ShowDetails => i.alt && i.pressed@.contains(Key::Enter),
            Command::Enter => !i.alt && i.pressed@.contains(Key::Enter),
        },
{
    reveal(Input::has_key);
    lemma_view_commands(i, esc_spent, tree_focus, c);
    let v = view_commands(Seq::empty(), i, esc_spent, tree_focus);
    lemma_way_commands(v, i, tree_visible, c);
    lemma_file_commands(way_commands(v, i, tree_visible), i, c);
}

proof fn lemma_one_command(v: Seq<Command>, asked: bool, d: Command, c: Command)
    ensures
        and_when(v, asked, d).contains(c) <==> v.contains(c) || (asked && c == d),
{
    reveal(and_when);
    if asked {
        let w = v.push(d);
        assert(w[v.len() as int] == d);
        if v.contains(c) {
            let i = choose|i: int| 0 <= i < v.len() && v[i] == c;
            assert(w[i] == c);
        }
        if w.contains(c) {
            let i = choose|i: int| 0 <= i < w.len() && w[i] == c;
            if i < v.len() {
                assert(v[i] == c);
            }
        }
    }
}

proof fn lemma_view_commands(i: Input, esc_spent: bool, tree_focus: bool, c: Command)
    ensures
        view_commands(Seq::empty(), i, esc_spent, tree_focus).contains(c) <==> match c {
            Command::Escape => !esc_spent && i.has_key(Key::Escape),
            Command::FocusFilter => i.ctrl && !i.shift && (i.has_key(Key::F) || i.has_key(Key::E)),
            Command::Up => i.alt && i.has_key(Key::Up),
            Command::CopyPaths => i.ctrl && i.shift && i.has_key(Key::C),
            Command::OpenMenu => !tree_focus && i.shift && i.has_key(Key::F10),
            Command::ToggleLead => !tree_focus && i.ctrl && i.has_key(Key::Space),
            Command::Refresh => i.has_key(Key::F5) || (i.ctrl && i.has_key(Key::R)),
            _ => false,
        },
{
    let ctrl = i.ctrl && !i.shift;
    let both = i.ctrl && i.shift;
    let v = Seq::<Command>::empty();
    lemma_one_command(v, !esc_spent && i.has_key(Key::Escape), Command::Escape, c);
    let v = and_when(v, !esc_spent && i.has_key(Key::Escape), Command::Escape);
    lemma_one_command(v, ctrl && (i.has_key(Key::F) || i.has_key(Key::E)), Command::FocusFilter, c);
    let v = and_when(v, ctrl && (i.has_key(Key::F) || i.has_key(Key::E)), Command::FocusFilter);
    lemma_one_command(v, i.alt && i.has_key(Key::Up), Command::Up, c);
    let v = and_when(v, i.alt && i.has_key(Key::Up), Command::Up);
    lemma_one_command(v, both && i.has_key(Key::C), Command::CopyPaths, c);
    let v = and_when(v, both && i.has_key(Key::C), Command::CopyPaths);
    lemma_one_command(v, !tree_focus && i.shift && i.has_key(Key::F10), Command::OpenMenu, c);
    let v = and_when(v, !tree_focus && i.shift && i.has_key(Key::F10), Command::OpenMenu);
    lemma_one_command(v, !tree_focus && i.ctrl && i.has_key(Key::Space), Command::ToggleLead, c);
    let v = and_when(v, !tree_focus && i.ctrl && i.has_key(Key::Space), Command::ToggleLead);
    lemma_one_command(v, i.has_key(Key::F5) || (i.ctrl && i.has_key(Key::R)), Command::Refresh, c);
}

proof fn lemma_way_commands(w: Seq<Command>, i: Input, tree_visible: bool, c: Command)
    ensures
        way_commands(w, i, tree_visible).contains(c) <==> w.contains(c) || match c {
            Command::Up => i.has_key(Key::Backspace),
            Command::SwitchFocus => tree_visible && !i.ctrl && i.has_key(Key::Tab),
            Command::Back => i.alt && i.has_key(Key::Left),
            Command::Forward => i.alt && i.has_key(Key::Right),
            Command::Rename => i.has_key(Key::F2),
            Command::NewFolder => i.ctrl && i.shift && i.has_key(Key::N),
            _ => false,
        },
{
    let both = i.ctrl && i.shift;
    lemma_one_command(w, i.has_key(Key::Backspace), Command::Up, c);
    let v = and_when(w, i.has_key(Key::Backspace), Command::Up);
    lemma_one_command(v, tree_visible && !i.ctrl && i.has_key(Key::Tab), Command::SwitchFocus, c);
    let v = and_when(v, tree_visible && !i.ctrl && i.has_key(Key::Tab), Command::SwitchFocus);
    lemma_one_command(v, i.alt && i.has_key(Key::Left), Command::Back, c);
    let v = and_when(v, i.alt && i.has_key(Key::Left), Command::Back);
    lemma_one_command(v, i.alt && i.has_key(Key::Right), Command::Forward, c);
    let v = and_when(v, i.alt && i.has_key(Key::Right), Command::Forward);
    lemma_one_command(v, i.has_key(Key::F2), Command::Rename, c);
    let v = and_when(v, i.has_key(Key::F2), Command::Rename);
    lemma_one_command(v, both && i.has_key(Key::N), Command::NewFolder, c);
}

proof fn lemma_file_commands(w: Seq<Command>, i: Input, c: Command)
    ensures
        file_commands(w, i).contains(c) <==> w.contains(c) || match c {
            Command::SelectAll => i.ctrl && !i.shift && i.has_key(Key::A),
            Command::Copy => i.ctrl && !i.shift && i.has_key(Key::C),
            Command::Cut => i.ctrl && !i.shift && i.has_key(Key::X),
            Command::Paste => i.ctrl && !i.shift && i.has_key(Key::V),
            Command::Undo => i.ctrl && !i.shift && i.has_key(Key::Z),
            Command::Redo => (i.ctrl && !i.shift && i.has_key(Key::Y)) || (i.ctrl && i.shift && i.has_key(Key::Z)),
            Command::Delete => i.has_key(Key::Delete),
            Command::ShowDetails => i.has_key(Key::Enter) && i.alt,
            Command::Enter => i.has_key(Key::Enter) && !i.alt,
            _ => false,
        },
{
    let ctrl = i.ctrl && !i.shift;
    let both = i.ctrl && i.shift;
    lemma_one_command(w, ctrl && i.has_key(Key::A), Command::SelectAll, c);
    let v = and_when(w, ctrl && i.has_key(Key::A), Command::SelectAll);
    lemma_one_command(v, ctrl && i.has_key(Key::C), Command::Copy, c);
    let v = and_when(v, ctrl && i.has_key(Key::C), Command::Copy);
    lemma_one_command(v, ctrl && i.has_key(Key::X), Command::Cut, c);
    let v = and_when(v, ctrl && i.has_key(Key::X), Command::Cut);
    lemma_one_command(v, ctrl && i.has_key(Key::V), Command::Paste, c);
    let v = and_when(v, ctrl && i.has_key(Key::V), Command::Paste);
    lemma_one_command(v, ctrl && i.has_key(Key::Z), Command::Undo, c);
    let v = and_when(v, ctrl && i.has_key(Key::Z), Command::Undo);
    let redo = (ctrl && i.has_key(Key::Y)) || (both && i.has_key(Key::Z));
    lemma_one_command(v, redo, Command::Redo, c);
    let v = and_when(v, redo, Command::Redo);
    lemma_one_command(v, i.has_key(Key::Delete), Command::Delete, c);
    let v = and_when(v, i.has_key(Key::Delete), Command::Delete);
    lemma_one_command(v, i.has_key(Key::Enter) && i.alt, Command::ShowDetails, c);
    let v = and_when(v, i.has_key(Key::Enter) && i.alt, Command::ShowDetails);
    lemma_one_command(v, i.has_key(Key::Enter) && !i.alt, Command::Enter, c);
}

/// Delete never deletes without a question: it changes no file and starts no
/// operation, but asks about what is selected, and about the folder itself where
/// the tree is in focus; a root is never asked about.
pub proof fn law_delete_asks_first(x: Explorer, y: Explorer, tree_focus: bool, e: Effect)
    requires
        ran(x, y, Command::Delete, tree_focus, e),
        x.confirm_delete is None,
    ensures
        e is Nothing,
        y.job == x.job && y.history == x.history && y.pane == x.pane,
        y.confirm_delete matches Some(v) ==> !explorer::busy(x) && v@.len() > 0 && text::texts(v@) == (if tree_focus {
            seq![x.pane.current_dir@]
        } else {
            explorer::selected(x)
        }),
        tree_focus && paths::parent_spec(x.pane.style, x.pane.current_dir@) is None ==> y.confirm_delete is None,
{
    if let Some(v) = y.confirm_delete {
        assert(text::texts(v@).len() == v@.len());
    }
}

/// Copy and Cut put the selected files on the clipboard, or the folder itself where
/// the tree is in focus, and remember which of the two it was; nothing is touched
/// yet.
pub proof fn law_clipboard_takes_the_selection(x: Explorer, y: Explorer, c: Command, tree_focus: bool, e: Effect)
    requires
        ran(x, y, c, tree_focus, e),
        c == Command::Copy || c == Command::Cut,
    ensures
        y.history == x.history && y.job == x.job && y.pane == x.pane,
        e is Nothing || e is ClipFiles,
        e matches Effect::ClipFiles { paths, cut } ==> {
            &&& cut == (c == Command::Cut)
            &&& text::texts(paths@) == (if tree_focus {
                seq![x.pane.current_dir@]
            } else {
                explorer::selected(x)
            })
            &&& y.clipboard matches Some(f) && f.cut == (c == Command::Cut) && text::texts(f.paths@) == text::texts(paths@)
        },
        !tree_focus && explorer::selected(x).len() > 0 ==> e is ClipFiles,
{
}

/// Undo runs the newest operation that can be undone, Redo the newest that was
/// undone; neither while an operation runs.
pub proof fn law_undo_and_redo_take_their_stacks(x: Explorer, y: Explorer, c: Command, tree_focus: bool, e: Effect)
    requires
        ran(x, y, c, tree_focus, e),
        c == Command::Undo || c == Command::Redo,
    ensures
        !(x.job is Idle) ==> e is Nothing && y == x,
        e matches Effect::Reverse(op) ==> {
            let stack = if c == Command::Undo {
                x.history.undo@
            } else {
                x.history.redo@
            };
            &&& stack.len() > 0
            &&& crate::undo::same_op(op, stack.last().op)
            &&& y.job is Reversing
        },
        x.job is Idle && c == Command::Undo && x.history.undo@.len() > 0 ==> e is Reverse,
        x.job is Idle && c == Command::Redo && x.history.redo@.len() > 0 ==> e is Reverse,
        x.job is Idle && c == Command::Undo && e is Reverse ==> y.history.redo == x.history.redo,
        x.job is Idle && c == Command::Redo && e is Reverse ==> y.history.undo == x.history.undo,
{
}

/// Escape clears the filter first, then the selection, and closes the details last.
pub proof fn law_escape_goes_step_by_step(x: Explorer, y: Explorer, tree_focus: bool, e: Effect)
    requires
        ran(x, y, Command::Escape, tree_focus, e),
    ensures
        x.pane.filter@.len() > 0 ==> y.pane.filter@.len() == 0 && y.details == x.details,
        x.pane.filter@.len() == 0 && x.pane.sel@.len() > 0 ==> y.pane.sel@.len() == 0 && y.details == x.details,
        x.pane.filter@.len() == 0 && x.pane.sel@.len() == 0 && x.pane.lead is None ==> !y.details && y.pane == x.pane,
{
    assert(y.pane.selected().len() == y.pane.sel@.len());
}

/// A key that moves the cursor of the list moves it where no other of them is
/// pressed, and the cursor moves only with the key that was pressed; with Alt the
/// arrows do not move it.
pub proof fn law_each_key_moves_its_way(i: Input)
    ensures
        !i.alt && i.pressed@.contains(Key::Down) && !i.pressed@.contains(Key::Up) && !i.pressed@.contains(Key::PageDown) && !i.pressed@.contains(Key::PageUp) && !i.pressed@.contains(Key::Home) && !i.pressed@.contains(Key::End) ==> list_key_of(i) == Some(ListKey::Down),
        !i.alt && i.pressed@.contains(Key::Up) && !i.pressed@.contains(Key::Down) && !i.pressed@.contains(Key::PageDown) && !i.pressed@.contains(Key::PageUp) && !i.pressed@.contains(Key::Home) && !i.pressed@.contains(Key::End) ==> list_key_of(i) == Some(ListKey::Up),
        i.pressed@.contains(Key::PageDown) && !i.pressed@.contains(Key::Down) && !i.pressed@.contains(Key::Up) && !i.pressed@.contains(Key::PageUp) && !i.pressed@.contains(Key::Home) && !i.pressed@.contains(Key::End) ==> list_key_of(i) == Some(ListKey::PageDown),
        i.pressed@.contains(Key::PageUp) && !i.pressed@.contains(Key::Down) && !i.pressed@.contains(Key::Up) && !i.pressed@.contains(Key::PageDown) && !i.pressed@.contains(Key::Home) && !i.pressed@.contains(Key::End) ==> list_key_of(i) == Some(ListKey::PageUp),
        i.pressed@.contains(Key::Home) && !i.pressed@.contains(Key::Down) && !i.pressed@.contains(Key::Up) && !i.pressed@.contains(Key::PageDown) && !i.pressed@.contains(Key::PageUp) && !i.pressed@.contains(Key::End) ==> list_key_of(i) == Some(ListKey::Home),
        i.pressed@.contains(Key::End) && !i.pressed@.contains(Key::Down) && !i.pressed@.contains(Key::Up) && !i.pressed@.contains(Key::PageDown) && !i.pressed@.contains(Key::PageUp) && !i.pressed@.contains(Key::Home) ==> list_key_of(i) == Some(ListKey::End),
        list_key_of(i) == Some(ListKey::Down) ==> i.pressed@.contains(Key::Down) && !i.alt,
        list_key_of(i) == Some(ListKey::Up) ==> i.pressed@.contains(Key::Up) && !i.alt,
        list_key_of(i) == Some(ListKey::PageDown) ==> i.pressed@.contains(Key::PageDown),
        list_key_of(i) == Some(ListKey::PageUp) ==> i.pressed@.contains(Key::PageUp),
        list_key_of(i) == Some(ListKey::Home) ==> i.pressed@.contains(Key::Home),
        list_key_of(i) == Some(ListKey::End) ==> i.pressed@.contains(Key::End),
{
    reveal(Input::has_key);
}

/// A key that moves in the tree does so where no other of them is pressed, and
/// only with the key that was pressed; with Alt the arrows do not.
pub proof fn law_each_key_moves_its_way_in_the_tree(i: Input)
    ensures
        !i.alt && i.pressed@.contains(Key::Down) && !i.pressed@.contains(Key::Up) && !i.pressed@.contains(Key::Home) && !i.pressed@.contains(Key::End) && !i.pressed@.contains(Key::Right) && !i.pressed@.contains(Key::Left) ==> tree_key_of(i) == Some(TreeKey::Down),
        !i.alt && i.pressed@.contains(Key::Up) && !i.pressed@.contains(Key::Down) && !i.pressed@.contains(Key::Home) && !i.pressed@.contains(Key::End) && !i.pressed@.contains(Key::Right) && !i.pressed@.contains(Key::Left) ==> tree_key_of(i) == Some(TreeKey::Up),
        i.pressed@.contains(Key::Home) && !i.pressed@.contains(Key::Down) && !i.pressed@.contains(Key::Up) && !i.pressed@.contains(Key::End) && !i.pressed@.contains(Key::Right) && !i.pressed@.contains(Key::Left) ==> tree_key_of(i) == Some(TreeKey::Home),
        i.pressed@.contains(Key::End) && !i.pressed@.contains(Key::Down) && !i.pressed@.contains(Key::Up) && !i.pressed@.contains(Key::Home) && !i.pressed@.contains(Key::Right) && !i.pressed@.contains(Key::Left) ==> tree_key_of(i) == Some(TreeKey::End),
        !i.alt && i.pressed@.contains(Key::Right) && !i.pressed@.contains(Key::Down) && !i.pressed@.contains(Key::Up) && !i.pressed@.contains(Key::Home) && !i.pressed@.contains(Key::End) && !i.pressed@.contains(Key::Left) ==> tree_key_of(i) == Some(TreeKey::Right),
        !i.alt && i.pressed@.contains(Key::Left) && !i.pressed@.contains(Key::Down) && !i.pressed@.contains(Key::Up) && !i.pressed@.contains(Key::Home) && !i.pressed@.contains(Key::End) && !i.pressed@.contains(Key::Right) ==> tree_key_of(i) == Some(TreeKey::Left),
        tree_key_of(i) == Some(TreeKey::Down) ==> i.pressed@.contains(Key::Down) && !i.alt,
        tree_key_of(i) == Some(TreeKey::Up) ==> i.pressed@.contains(Key::Up) && !i.alt,
        tree_key_of(i) == Some(TreeKey::Home) ==> i.pressed@.contains(Key::Home),
        tree_key_of(i) == Some(TreeKey::End) ==> i.pressed@.contains(Key::End),
        tree_key_of(i) == Some(TreeKey::Right) ==> i.pressed@.contains(Key::Right) && !i.alt,
        tree_key_of(i) == Some(TreeKey::Left) ==> i.pressed@.contains(Key::Left) && !i.alt,
{
    reveal(Input::has_key);
}

/// What the commands of the files do: the clipboard goes into the folder shown,
/// the name of the one row, or of the folder while the tree has the keyboard, is
/// asked to be changed, a new folder gets a name that is free, and nothing is
/// changed before the dialogs were answered.
pub proof fn law_commands_on_files(x: Explorer, y: Explorer, c: Command, tree_focus: bool, e: Effect)
    requires
        ran(x, y, c, tree_focus, e),
        c is Paste || c is Rename || c is NewFolder,
    ensures
        y.pane == x.pane && y.history == x.history && y.job == x.job && y.clipboard == x.clipboard,
        c is Paste && x.clipboard is Some ==> e is PasteInto && e->PasteInto_0@ == x.pane.current_dir@,
        c is Paste && x.clipboard is None ==> e is Nothing,
        c is NewFolder ==> y.prompt is Some && y.prompt->0.kind is NewFolder,
        c is Rename && tree_focus && paths::file_name_spec(x.pane.style, x.pane.current_dir@) is Some ==> {
            &&& y.prompt is Some && y.prompt->0.kind is RenameDir && y.prompt->0.kind->dir@ == x.pane.current_dir@
        },
        c is Rename && !tree_focus && x.pane.lead is Some && x.pane.lead->0 < x.pane.entries@.len()
            && x.pane.selected().contains(x.pane.entries@[x.pane.lead->0 as int].name@) ==> {
            &&& y.prompt is Some && y.prompt->0.kind is Rename && y.prompt->0.kind->orig@
                == x.pane.entries@[x.pane.lead->0 as int].name@
            &&& y.prompt->0.buf@ == x.pane.entries@[x.pane.lead->0 as int].name@
        },
{
}

/// What the commands of the view do: the keyboard goes from the list to the tree
/// and back, details once shown stay, the paths go on the clipboard one a line, the
/// menu opens at the row that operations act on or else at the cursor, and nothing
/// happens to files.
pub proof fn law_commands_of_the_view(x: Explorer, y: Explorer, c: Command, tree_focus: bool, e: Effect)
    requires
        ran(x, y, c, tree_focus, e),
        c is SwitchFocus || c is ShowDetails || c is CopyPaths || c is OpenMenu || c is FocusFilter || c is ToggleLead
            || c is Refresh || c is SelectAll,
    ensures
        y.history == x.history && y.job == x.job && y.clipboard == x.clipboard,
        y.pane.current_dir@ == x.pane.current_dir@,
        c is SwitchFocus ==> (y.focus is Tree <==> x.focus is List) && y.pane == x.pane,
        c is SwitchFocus && x.focus is List ==> y.sidebar.scroll,
        !(c is SwitchFocus) ==> y.focus == x.focus,
        c is ShowDetails && (x.details || tree_focus) ==> y.details,
        c is CopyPaths && tree_focus ==> e is CopyText && e->CopyText_0@ == x.pane.current_dir@,
        c is CopyPaths && !tree_focus && explorer::selected(x).len() == 0 ==> e is Nothing,
        c is CopyPaths && !tree_focus && explorer::selected(x).len() == 2 ==> e is CopyText && e->CopyText_0@
            == explorer::selected(x)[0] + seq!['\n'] + explorer::selected(x)[1],
        c is OpenMenu && x.pane.lead is Some && x.pane.selected().len() == 0 ==> e == Effect::OpenMenu(x.pane.lead->0),
        c is FocusFilter ==> e is FocusFilter,
        c is Refresh ==> y.pane.entries_dirty && y.sidebar.branches@.len() == 0,
{
    reveal_strlit("\n");
    assert("\n"@ =~= seq!['\n']);
    let one = seq![x.pane.current_dir@];
    assert(text::join(one, "\n"@) == one[0]);
    let s = explorer::selected(x);
    if s.len() == 2 {
        assert(s.drop_last() =~= seq![s[0]]);
        assert(text::join(s.drop_last(), "\n"@) == s[0]);
        assert(text::join(s, "\n"@) == s[0] + "\n"@ + s[1]);
    }
}

/// What the commands of the way do: up leads to the parent folder, back and forward
/// to the newest visit of their stack.
pub proof fn law_commands_of_the_way(x: Explorer, y: Explorer, c: Command, tree_focus: bool, e: Effect)
    requires
        ran(x, y, c, tree_focus, e),
        c is Up || c is Back || c is Forward,
    ensures
        e is Nothing,
        y.history == x.history && y.job == x.job && y.clipboard == x.clipboard,
        c is Back && x.pane.back_stack@.len() > 0 ==> y.pane.current_dir == x.pane.back_stack@.last().dir,
        c is Forward && x.pane.fwd_stack@.len() > 0 ==> y.pane.current_dir == x.pane.fwd_stack@.last().dir,
        c is Back && x.pane.back_stack@.len() == 0 || c is Forward && x.pane.fwd_stack@.len() == 0 ==> y == x,
        c is Up && paths::parent_spec(x.pane.style, x.pane.current_dir@) is None ==> y == x,
        c is Up && paths::parent_spec(x.pane.style, x.pane.current_dir@) is Some ==> paths::same_path_spec(
            x.pane.style,
            y.pane.current_dir@,
            crate::location::upper_drive(paths::parent_spec(x.pane.style, x.pane.current_dir@)->0),
        ),
{
}

} // verus!
