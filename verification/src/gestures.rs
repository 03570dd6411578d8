//! What clicks, drags and keys do to a pane.
use vstd::prelude::*;
use crate::browse::Entry;
use crate::details::{self, entry_detail, selected_bytes, selection_detail};
use crate::listing::{self, sort_entries, SortKey, Sorting};
use crate::pane::{self, add_name, Pane, Pick, Visit};
use crate::paths::{self, join};
use crate::text::{self, chars_of, copy_texts, trimmed};
use crate::time::Stamp;

verus! {

/// How far a page key moves.
pub const PAGE: usize = 12;

/// How many files can be opened at once.
pub const MAX_OPEN: usize = 15;

/// How many folders the history menus list.
pub const HISTORY_MENU: usize = 12;

/// A key that moves the cursor of the list.
#[derive(Clone, Copy, Debug, PartialEq, Eq, Structural)]
pub enum ListKey {
    Down,
    Up,
    PageDown,
    PageUp,
    Home,
    End,
}

/// The row that a key moves the cursor to among `n` rows.
pub open spec fn row_after(cur: Option<usize>, n: nat, key: ListKey) -> nat {
    let last = (n - 1) as nat;
    match key {
        ListKey::Home => 0,
        ListKey::End => last,
        _ => match cur {
            None => 0,
            Some(c) => match key {
                ListKey::Down => if c + 1 < n {
                    (c + 1) as nat
                } else {
                    last
                },
                ListKey::PageDown => if c + PAGE < n {
                    (c + PAGE) as nat
                } else {
                    last
                },
                ListKey::Up => if c > 0 {
                    (c - 1) as nat
                } else {
                    0
                },
                _ => if c > PAGE {
                    (c - PAGE) as nat
                } else {
                    0
                },
            },
        },
    }
}

fn target_of(cur: Option<usize>, n: usize, key: ListKey) -> (r: usize)
    requires
        n > 0,
    ensures
        r == row_after(cur, n as nat, key),
        r < n || (cur matches Some(c) && c >= n),
{
    let last: usize = n - 1;
    match key {
        ListKey::Home => 0,
        ListKey::End => last,
        _ => match cur {
            None => 0,
            Some(c) => match key {
                ListKey::Down => if c < last {
                    c + 1
                } else {
                    last
                },
                ListKey::PageDown => if c < last && PAGE < n - c {
                    c + PAGE
                } else {
                    last
                },
                ListKey::Up => if c > 0 {
                    c - 1
                } else {
                    0
                },
                _ => if c > PAGE {
                    c - PAGE
                } else {
                    0
                },
            },
        },
    }
}

/// What moving the cursor to row `m` does: it extends the range, or moves the
/// cursor alone, or selects the row.
pub open spec fn lead_moved(p: Pane, q: Pane, m: usize, shift: bool, ctrl: bool) -> bool {
    exists|a: Pane|
        #[trigger] lead_placed(p, a, m, shift, ctrl) && q == (Pane { scroll_target: Some(m), ..a })
}

/// The cursor is at row `m`, with the selection that the modifiers ask for.
pub open spec fn lead_placed(p: Pane, a: Pane, m: usize, shift: bool, ctrl: bool) -> bool {
    if shift {
        pane::range_selected(p, a, m)
    } else if ctrl {
        a == (Pane { lead: Some(m), ..p })
    } else {
        pane::only_selected(p, a, m)
    }
}

/// What a click on row `i` does: a range with Shift, a toggle with Ctrl, else the
/// row alone.
pub open spec fn clicked(p: Pane, q: Pane, i: usize, shift: bool, ctrl: bool) -> bool {
    if shift {
        pane::range_selected(p, q, i)
    } else if ctrl {
        pane::toggled(p, q, i)
    } else {
        pane::only_selected(p, q, i)
    }
}

/// Row `i` is part of the selection.
pub open spec fn in_selection(p: Pane, i: usize) -> bool {
    i < p.entries@.len() && p.selected().contains(p.entries@[i as int].name@)
}

/// Everything that is shown is selected.
pub open spec fn all_selected(p: Pane, q: Pane) -> bool {
    &&& q == (Pane {
        sel: q.sel,
        lead: if p.entries@.len() > 0 {
            Some((p.entries@.len() - 1) as usize)
        } else {
            None
        },
        anchor: Some(0usize),
        ..p
    })
    &&& forall|n: Seq<char>| #[trigger] q.selected().contains(n) <==> pane::names_of(p.entries@).contains(n)
}

/// How the listing is ordered after a click on the head of a column: the other
/// way round, or by another column, small first.
pub open spec fn column_clicked(p: Pane, k: SortKey) -> (SortKey, bool) {
    if p.sort_key == k {
        (k, !p.sort_asc)
    } else {
        (k, true)
    }
}

/// The listing was put into another order.
pub open spec fn reordered(p: Pane, a: Pane, k: SortKey) -> bool {
    &&& a == (Pane {
        sort_key: column_clicked(p, k).0,
        sort_asc: column_clicked(p, k).1,
        all_entries: a.all_entries,
        ..p
    })
    &&& listing::sorted_from(a.sorting(), p.folder_sizes, p.all_entries@, a.all_entries@)
}

/// The pane shows its listing in another order, at the cursor.
pub open spec fn resorted(p: Pane, q: Pane, k: SortKey, show_hidden: bool) -> bool {
    exists|a: Pane, b: Pane|
        #[trigger] reordered(p, a, k) && #[trigger] pane::filtered(a, b, show_hidden) && q == (Pane {
            scroll_target: b.lead,
            ..b
        })
}

/// A row that the band touches has the name.
pub open spec fn hit_name(es: Seq<Entry>, hits: Seq<usize>, n: Seq<char>) -> bool {
    exists|k: int| 0 <= k < hits.len() && es[(#[trigger] hits[k]) as int].name@ == n
}

/// The smallest and the largest of the first `k` rows.
pub open spec fn extent(hits: Seq<usize>, k: int) -> Option<(usize, usize)>
    decreases k,
{
    if k <= 0 {
        None
    } else {
        let h = hits[k - 1];
        match extent(hits, k - 1) {
            None => Some((h, h)),
            Some((lo, hi)) => Some(
                (
                    if h < lo {
                        h
                    } else {
                        lo
                    },
                    if h > hi {
                        h
                    } else {
                        hi
                    },
                ),
            ),
        }
    }
}

/// A rubber band selects the rows it touches on top of what was selected when it
/// began.
pub open spec fn banded(p: Pane, q: Pane, base: Seq<Seq<char>>, hits: Seq<usize>) -> bool {
    let e = extent(hits, hits.len() as int);
    &&& q == (Pane {
        sel: q.sel,
        anchor: match e {
            Some((lo, _)) => Some(lo),
            None => p.anchor,
        },
        lead: match e {
            Some((_, hi)) => Some(hi),
            None => p.lead,
        },
        ..p
    })
    &&& forall|n: Seq<char>|
        #[trigger] q.selected().contains(n) <==> base.contains(n) || hit_name(p.entries@, hits, n)
}

/// The folder is listed again, and the item the cursor was on is picked.
pub open spec fn refreshed(p: Pane, q: Pane) -> bool {
    &&& q == (Pane {
        sel: q.sel,
        lead: None,
        anchor: None,
        entries_dirty: true,
        select_after_reload: match pane::name_at(p.entries@, p.lead) {
            Some(n) => Some(Pick { dir: p.current_dir, name: n }),
            None => p.select_after_reload,
        },
        ..p
    })
    &&& q.selected() == Seq::<Seq<char>>::empty()
}

impl Pane {
    /// Moves the cursor with a key; whether it moved.
    pub fn move_lead(&mut self, key: ListKey, shift: bool, ctrl: bool) -> (r: bool)
        requires
            old(self).wf(),
        ensures
            final(self).wf(),
            ({
                let n = old(self).entries@.len();
                let m = row_after(old(self).lead, n, key);
                &&& r == (n > 0 && !(old(self).lead matches Some(c) && c == m))
                &&& !r ==> *final(self) == *old(self)
                &&& r ==> lead_moved(*old(self), *final(self), m as usize, shift, ctrl)
            }),
    {
        let n: usize = self.entries.len();
        if n == 0 {
            return false;
        }
        let m = target_of(self.lead, n, key);
        match self.lead {
            Some(c) => {
                if c == m {
                    return false;
                }
            },
            None => {},
        }
        if shift {
            self.select_range_to(m);
        } else if ctrl {
            self.lead = Some(m);
        } else {
            self.select_only(m);
        }
        let ghost a = *self;
        self.scroll_target = Some(m);
        assert(lead_placed(*old(self), a, m, shift, ctrl));
        true
    }

    /// Applies a click on a row.
    pub fn click(&mut self, i: usize, shift: bool, ctrl: bool)
        requires
            old(self).wf(),
        ensures
            final(self).wf(),
            clicked(*old(self), *final(self), i, shift, ctrl),
    {
        if shift {
            self.select_range_to(i);
        } else if ctrl {
            self.toggle_at(i);
        } else {
            self.select_only(i);
        }
    }

    /// Takes a row that is not part of the selection as the selection: a drag or
    /// a menu on a selected row is meant for all that is selected.
    pub fn take_row(&mut self, i: usize)
        requires
            old(self).wf(),
        ensures
            final(self).wf(),
            in_selection(*old(self), i) ==> *final(self) == *old(self),
            !in_selection(*old(self), i) ==> pane::only_selected(*old(self), *final(self), i),
    {
        if !(i < self.entries.len() && self.is_selected(self.entries[i].name.as_str())) {
            self.select_only(i);
        }
    }

    /// What dragging a row drags: the selection where the row is part of it, else
    /// the row.
    pub fn drag_paths(&self, i: usize) -> (r: Vec<String>)
        requires
            i < self.entries@.len(),
        ensures
            text::texts(r@) == (if in_selection(*self, i) {
                pane::paths_of(
                    self.style,
                    self.current_dir@,
                    self.entries@,
                    self.selected(),
                    self.entries@.len() as int,
                )
            } else {
                seq![paths::join_spec(self.style, self.current_dir@, self.entries@[i as int].name@)]
            }),
    {
        if self.is_selected(self.entries[i].name.as_str()) {
            self.selected_paths()
        } else {
            let mut v: Vec<String> = Vec::new();
            v.push(join(self.style, self.current_dir.as_str(), self.entries[i].name.as_str()));
            assert(text::texts(v@) =~= seq![
                paths::join_spec(self.style, self.current_dir@, self.entries@[i as int].name@),
            ]);
            v
        }
    }

    /// Selects everything that is shown.
    pub fn select_all(&mut self)
        ensures
            final(self).wf(),
            all_selected(*old(self), *final(self)),
    {
        let mut sel: Vec<String> = Vec::new();
        let n: usize = self.entries.len();
        let ghost names = pane::names_of(self.entries@);
        assert(text::texts(sel@) =~= Seq::empty());
        let mut i: usize = 0;
        while i < n
            invariant
                i <= n,
                n == self.entries@.len(),
                *self == *old(self),
                names == pane::names_of(self.entries@),
                text::texts(sel@).no_duplicates(),
                forall|x: Seq<char>| #[trigger] text::texts(sel@).contains(x) <==> names.take(i as int).contains(x),
            decreases n - i,
        {
            let ghost before = text::texts(sel@);
            add_name(&mut sel, &self.entries[i].name);
            proof {
                assert forall|x: Seq<char>| #[trigger] text::texts(sel@).contains(x) <==> names.take(i + 1).contains(x) by {
                    let a = names.take(i as int);
                    let b = names.take(i + 1);
                    assert(b =~= a.push(names[i as int]));
                    assert(before.contains(x) <==> a.contains(x));
                    if a.contains(x) {
                        let k = a.index_of(x);
                        assert(b[k] == x);
                    }
                    if x == names[i as int] {
                        assert(b[i as int] == x);
                    }
                    if b.contains(x) {
                        let k = b.index_of(x);
                        if k < i {
                            assert(a[k] == x);
                        }
                    }
                }
            }
            i += 1;
        }
        assert(names.take(i as int) =~= names);
        self.sel = sel;
        self.lead = if n > 0 {
            Some(n - 1)
        } else {
            None
        };
        self.anchor = Some(0);
    }

    /// Orders the listing by a column, or turns its order round, and keeps the
    /// cursor in sight.
    pub fn sort_by(&mut self, k: SortKey, show_hidden: bool)
        requires
            old(self).wf(),
        ensures
            final(self).wf(),
            resorted(*old(self), *final(self), k, show_hidden),
    {
        if self.sort_key == k {
            self.sort_asc = !self.sort_asc;
        } else {
            self.sort_key = k;
            self.sort_asc = true;
        }
        let how = Sorting { style: self.style, key: self.sort_key, ascending: self.sort_asc };
        self.all_entries = sort_entries(&how, &self.folder_sizes, &self.all_entries);
        let ghost a = *self;
        self.apply_filter(show_hidden);
        let ghost b = *self;
        self.scroll_target = self.lead;
        assert(reordered(*old(self), a, k));
        assert(pane::filtered(a, b, show_hidden));
    }

    /// Selects what a rubber band touches on top of `base`.
    pub fn band(&mut self, base: &Vec<String>, hits: &Vec<usize>)
        requires
            text::texts(base@).no_duplicates(),
            forall|k: int| 0 <= k < hits@.len() ==> (#[trigger] hits@[k]) < old(self).entries@.len(),
        ensures
            final(self).wf(),
            banded(*old(self), *final(self), text::texts(base@), hits@),
    {
        let mut sel = copy_texts(base);
        let ghost es = self.entries@;
        let mut e: Option<(usize, usize)> = None;
        let mut k: usize = 0;
        while k < hits.len()
            invariant
                k <= hits@.len(),
                *self == *old(self),
                es == self.entries@,
                forall|j: int| 0 <= j < hits@.len() ==> (#[trigger] hits@[j]) < es.len(),
                text::texts(sel@).no_duplicates(),
                e == extent(hits@, k as int),
                forall|n: Seq<char>|
                    #[trigger] text::texts(sel@).contains(n) <==> text::texts(base@).contains(n) || hit_name(
                        es,
                        hits@.take(k as int),
                        n,
                    ),
            decreases hits@.len() - k,
        {
            let h: usize = hits[k];
            let ghost before = text::texts(sel@);
            add_name(&mut sel, &self.entries[h].name);
            e = match e {
                None => Some((h, h)),
                Some((lo, hi)) => Some(
                    (
                        if h < lo {
                            h
                        } else {
                            lo
                        },
                        if h > hi {
                            h
                        } else {
                            hi
                        },
                    ),
                ),
            };
            proof {
                let a = hits@.take(k as int);
                let b = hits@.take(k + 1);
                assert forall|n: Seq<char>| #[trigger] text::texts(sel@).contains(n) <==> text::texts(base@).contains(n)
                    || hit_name(es, b, n) by {
                    assert(before.contains(n) <==> text::texts(base@).contains(n) || hit_name(es, a, n));
                    if n == es[h as int].name@ {
                        assert(b[k as int] == h);
                    }
                    if hit_name(es, a, n) {
                        let j = choose|j: int| 0 <= j < a.len() && es[(#[trigger] a[j]) as int].name@ == n;
                        assert(b[j] == a[j]);
                    }
                    if hit_name(es, b, n) {
                        let j = choose|j: int| 0 <= j < b.len() && es[(#[trigger] b[j]) as int].name@ == n;
                        if j < k {
                            assert(a[j] == b[j]);
                        }
                    }
                }
            }
            k += 1;
        }
        assert(hits@.take(k as int) =~= hits@);
        self.sel = sel;
        match e {
            Some((lo, hi)) => {
                self.anchor = Some(lo);
                self.lead = Some(hi);
            },
            None => {},
        }
    }

    /// What a rubber band starts from: the selection where it adds to it, else
    /// nothing.
    pub fn band_base(&self, adds: bool) -> (r: Vec<String>)
        ensures
            text::texts(r@) == (if adds {
                self.selected()
            } else {
                Seq::empty()
            }),
    {
        if adds {
            copy_texts(&self.sel)
        } else {
            let v: Vec<String> = Vec::new();
            assert(text::texts(v@) =~= Seq::empty());
            v
        }
    }

    /// Lists the folder again, keeping the item the cursor is on.
    pub fn refresh(&mut self)
        ensures
            final(self).wf(),
            refreshed(*old(self), *final(self)),
    {
        let keep = self.lead_name();
        self.clear_selection();
        match keep {
            Some(name) => {
                self.select_after_reload = Some(Pick { dir: self.current_dir.clone(), name });
            },
            None => {},
        }
        self.entries_dirty = true;
    }

    /// The row that gets an outline: the cursor's, where that says something that
    /// the selection does not.
    pub fn outlined(&self) -> (r: Option<usize>)
        ensures
            r == (match self.lead {
                Some(l) => if !in_selection(*self, l) || self.sel@.len() > 1 {
                    Some(l)
                } else {
                    None
                },
                None => None,
            }),
    {
        match self.lead {
            Some(l) => {
                let on = l < self.entries.len() && self.is_selected(self.entries[l].name.as_str());
                if !on || self.sel.len() > 1 {
                    Some(l)
                } else {
                    None
                }
            },
            None => None,
        }
    }

    /// What the status line says of the selection.
    pub fn selection_text(&self, now: Stamp) -> (r: Option<String>)
        requires
            now.wf(),
            forall|i: int| 0 <= i < self.entries@.len() ==> details::times_ok(#[trigger] self.entries@[i]),
        ensures
            text::opt_text(r) == (if self.sel@.len() > 1 {
                Some(
                    details::selection_line(
                        self.sel@.len(),
                        details::selected_total(
                            self.folder_sizes,
                            self.entries@,
                            self.selected(),
                            self.entries@.len() as int,
                        ) % 0x1_0000_0000_0000_0000,
                    ),
                )
            } else {
                match self.lead {
                    Some(l) => if in_selection(*self, l) {
                        Some(details::entry_line(self.entries@[l as int], self.folder_sizes, now))
                    } else {
                        None
                    },
                    None => None,
                }
            }),
    {
        if self.sel.len() > 1 {
            let bytes = selected_bytes(&self.folder_sizes, &self.entries, &self.sel);
            return Some(selection_detail(self.sel.len(), bytes));
        }
        match self.lead {
            Some(l) => {
                if l < self.entries.len() && self.is_selected(self.entries[l].name.as_str()) {
                    Some(entry_detail(&self.entries[l], &self.folder_sizes, now))
                } else {
                    None
                }
            },
            None => None,
        }
    }
}

/// What Enter does in the list.
pub enum EnterAction {
    Nothing,
    /// Goes into a folder.
    Enter(String),
    /// Opens files with their programs.
    Open(Vec<String>),
    Refused(String),
}

/// The paths of the selected files among the first `k` entries.
pub open spec fn selected_files(p: Pane, k: int) -> Seq<Seq<char>>
    decreases k,
{
    if k <= 0 {
        Seq::empty()
    } else {
        let rest = selected_files(p, k - 1);
        let e = p.entries@[k - 1];
        if !e.is_dir && p.selected().contains(e.name@) {
            rest.push(paths::join_spec(p.style, p.current_dir@, e.name@))
        } else {
            rest
        }
    }
}

/// What Enter does: with several rows selected it opens the files among them, if
/// there are some and not too many; otherwise it enters or opens the one row.
pub open spec fn entering(p: Pane, a: EnterAction) -> bool {
    let files = selected_files(p, p.entries@.len() as int);
    if p.sel@.len() > 1 {
        if files.len() == 0 {
            a matches EnterAction::Refused(m) && m@ == "Enter opens files; select a single folder to enter it."@
        } else if files.len() > MAX_OPEN {
            a matches EnterAction::Refused(m) && m@ == "Select 15 or fewer files to open them all at once."@
        } else {
            a matches EnterAction::Open(v) && text::texts(v@) == files
        }
    } else {
        match pane::target_row(p.entries@, p.selected(), p.lead) {
            Some(i) => opens_row(p, i as int, a),
            None => a is Nothing,
        }
    }
}

/// Opening a row: a folder is entered, a file opened.
pub open spec fn opens_row(p: Pane, i: int, a: EnterAction) -> bool {
    let full = paths::join_spec(p.style, p.current_dir@, p.entries@[i].name@);
    if p.entries@[i].is_dir {
        a matches EnterAction::Enter(q) && q@ == full
    } else {
        a matches EnterAction::Open(v) && text::texts(v@) == seq![full]
    }
}

impl Pane {
    /// What opening a row does.
    pub fn open_row(&self, i: usize) -> (r: EnterAction)
        requires
            i < self.entries@.len(),
        ensures
            opens_row(*self, i as int, r),
    {
        let full = join(self.style, self.current_dir.as_str(), self.entries[i].name.as_str());
        if self.entries[i].is_dir {
            EnterAction::Enter(full)
        } else {
            let mut v: Vec<String> = Vec::new();
            v.push(full);
            assert(text::texts(v@) =~= seq![full@]);
            EnterAction::Open(v)
        }
    }

    /// What Enter does in the list.
    pub fn enter(&self) -> (r: EnterAction)
        ensures
            entering(*self, r),
    {
        if self.sel.len() > 1 {
            let mut files: Vec<String> = Vec::new();
            assert(text::texts(files@) =~= Seq::empty());
            let mut i: usize = 0;
            while i < self.entries.len()
                invariant
                    i <= self.entries@.len(),
                    text::texts(files@) == selected_files(*self, i as int),
                decreases self.entries@.len() - i,
            {
                let ghost before = text::texts(files@);
                if !self.entries[i].is_dir && self.is_selected(self.entries[i].name.as_str()) {
                    let full = join(self.style, self.current_dir.as_str(), self.entries[i].name.as_str());
                    files.push(full);
                    assert(text::texts(files@) =~= before.push(full@));
                }
                i += 1;
            }
            assert(text::texts(files@).len() == files@.len());
            if files.len() == 0 {
                EnterAction::Refused("Enter opens files; select a single folder to enter it.".to_owned())
            } else if files.len() > MAX_OPEN {
                EnterAction::Refused("Select 15 or fewer files to open them all at once.".to_owned())
            } else {
                EnterAction::Open(files)
            }
        } else {
            match self.op_target() {
                Some(i) => self.open_row(i),
                None => EnterAction::Nothing,
            }
        }
    }
}

/// The folder that a typed address means: without the white space around it, and
/// a bare drive as its root.
pub open spec fn address_target(s: Seq<char>) -> Seq<char> {
    let t = text::trim(s);
    if t.len() == 2 && paths::is_letter(t[0]) && t[1] == ':' {
        t.push('\\')
    } else {
        t
    }
}

/// The folder that a typed address means.
pub fn typed_address(s: &str) -> (r: String)
    ensures
        r@ == address_target(s@),
{
    let mut t = trimmed(s);
    let v = chars_of(t.as_str());
    if v.len() == 2 && v[1] == ':' && ((v[0] >= 'a' && v[0] <= 'z') || (v[0] >= 'A' && v[0] <= 'Z')) {
        t.push('\\');
    }
    t
}

/// The folders that a history menu lists, newest first.
pub open spec fn menu_folders(stack: Seq<Visit>) -> Seq<Seq<char>> {
    Seq::new(
        if stack.len() < HISTORY_MENU {
            stack.len()
        } else {
            HISTORY_MENU as nat
        },
        |i: int| stack[stack.len() - 1 - i].dir@,
    )
}

/// The folders that a history menu lists, newest first.
pub fn history_menu(stack: &Vec<Visit>) -> (r: Vec<String>)
    ensures
        text::texts(r@) == menu_folders(stack@),
{
    let n: usize = stack.len();
    let m: usize = if n < HISTORY_MENU {
        n
    } else {
        HISTORY_MENU
    };
    let mut out: Vec<String> = Vec::new();
    let mut i: usize = 0;
    while i < m
        invariant
            i <= m <= n,
            n == stack@.len(),
            out@.len() == i,
            forall|k: int| 0 <= k < i ==> (#[trigger] out@[k])@ == stack@[n - 1 - k].dir@,
        decreases m - i,
    {
        out.push(stack[n - 1 - i].dir.clone());
        i += 1;
    }
    assert(text::texts(out@) =~= menu_folders(stack@));
    out
}

/// A rubber band never loses what was selected when it began, nor a row that it
/// touches.
pub proof fn law_band_only_adds(p: Pane, q: Pane, base: Seq<Seq<char>>, hits: Seq<usize>, n: Seq<char>)
    requires
        banded(p, q, base, hits),
        base.contains(n),
    ensures
        q.selected().contains(n),
{
}

/// A click with Ctrl twice on one row leaves the selection as it was.
pub proof fn law_ctrl_click_twice(p: Pane, q: Pane, r: Pane, i: usize, n: Seq<char>)
    requires
        clicked(p, q, i, false, true),
        clicked(q, r, i, false, true),
    ensures
        r.selected().contains(n) <==> p.selected().contains(n),
        r.entries == p.entries,
{
    if i < p.entries@.len() {
        let name = p.entries@[i as int].name@;
        assert(q.selected().contains(name) <==> !p.selected().contains(name));
        assert(q.selected().contains(n) <==> (if n == name {
            !p.selected().contains(name)
        } else {
            p.selected().contains(n)
        }));
    }
}

/// Where the keys move the cursor among `n` rows: down and up by one row, the page
/// keys by twelve, as far as there are rows; Home to the first and End to the last.
pub proof fn law_keys_move_the_cursor(c: usize, n: nat)
    requires
        c < n,
    ensures
        row_after(Some(c), n, ListKey::Down) == (if c == n - 1 {
            c as int
        } else {
            c + 1
        }),
        row_after(Some(c), n, ListKey::Up) == (if c == 0 {
            0
        } else {
            c - 1
        }),
        row_after(Some(c), n, ListKey::PageDown) == (if c + 12 >= n {
            n - 1
        } else {
            c + 12
        }),
        row_after(Some(c), n, ListKey::PageUp) == (if c <= 12 {
            0
        } else {
            c - 12
        }),
        row_after(Some(c), n, ListKey::Home) == 0,
        row_after(Some(c), n, ListKey::End) == n - 1,
        row_after(None, n, ListKey::Down) == 0,
        row_after(None, n, ListKey::End) == n - 1,
{
}

/// A moved cursor selects its row alone; with Ctrl it leaves the selection as it
/// is; with Shift it selects the rows from the fixed end to it.
pub proof fn law_modifiers_of_a_move(p: Pane, q: Pane, m: usize, shift: bool, ctrl: bool)
    requires
        lead_moved(p, q, m, shift, ctrl),
        m < p.entries@.len(),
    ensures
        q.lead == Some(m) && q.scroll_target == Some(m),
        !shift && !ctrl ==> q.selected() == seq![p.entries@[m as int].name@] && q.anchor == Some(m),
        !shift && ctrl ==> q.sel == p.sel && q.anchor == p.anchor,
        shift ==> q.selected().contains(p.entries@[m as int].name@) && (p.anchor matches Some(a) ==> q.anchor == Some(a)
            && (a < p.entries@.len() ==> q.selected().contains(p.entries@[a as int].name@))),
{
    let a = choose|a: Pane|
        #[trigger] lead_placed(p, a, m, shift, ctrl) && q == (Pane { scroll_target: Some(m), ..a });
    assert(q.selected() == a.selected());
    if shift {
        let s = pane::range_start(p, m);
        let (lo, hi) = if s < m {
            (s as int, m as int)
        } else {
            (m as int, s as int)
        };
        assert(pane::named_between(p.entries@, lo, hi, p.entries@[m as int].name@));
        if s < p.entries@.len() {
            assert(pane::named_between(p.entries@, lo, hi, p.entries@[s as int].name@));
        }
    }
}

/// A click selects the row alone; with Ctrl it changes the row's own part in the
/// selection; with Shift it selects from the fixed end to the row.
pub proof fn law_clicks(p: Pane, q: Pane, i: usize, shift: bool, ctrl: bool)
    requires
        clicked(p, q, i, shift, ctrl),
        i < p.entries@.len(),
    ensures
        q.lead == Some(i) && q.entries == p.entries,
        !shift && !ctrl ==> q.selected() == seq![p.entries@[i as int].name@],
        !shift && ctrl ==> q.selected().contains(p.entries@[i as int].name@) != p.selected().contains(
            p.entries@[i as int].name@,
        ),
        shift ==> q.selected().contains(p.entries@[i as int].name@),
{
    if shift {
        let s = pane::range_start(p, i);
        let (lo, hi) = if s < i {
            (s as int, i as int)
        } else {
            (i as int, s as int)
        };
        assert(pane::named_between(p.entries@, lo, hi, p.entries@[i as int].name@));
    }
}

/// Everything that is shown is selected, and nothing that is not.
pub proof fn law_select_all(p: Pane, q: Pane, i: int)
    requires
        all_selected(p, q),
        0 <= i < p.entries@.len(),
    ensures
        q.selected().contains(p.entries@[i].name@),
        forall|n: Seq<char>| #[trigger]
            q.selected().contains(n) ==> exists|k: int| 0 <= k < p.entries@.len() && (#[trigger] p.entries@[k]).name@ == n,
{
    assert(pane::names_of(p.entries@)[i] == p.entries@[i].name@);
    assert forall|n: Seq<char>| #[trigger] q.selected().contains(n) implies exists|k: int|
        0 <= k < p.entries@.len() && (#[trigger] p.entries@[k]).name@ == n by {
        let k = choose|k: int| 0 <= k < pane::names_of(p.entries@).len() && pane::names_of(p.entries@)[k] == n;
        assert(p.entries@[k].name@ == n);
    }
}

/// A click on the column that orders the list turns the order round, and one on
/// another column orders by it, ascending; the entries stay the same.
pub proof fn law_column_click(p: Pane, q: Pane, k: SortKey, show_hidden: bool)
    requires
        resorted(p, q, k, show_hidden),
    ensures
        q.sort_key == k,
        p.sort_key == k ==> q.sort_asc == !p.sort_asc,
        p.sort_key != k ==> q.sort_asc,
        forall|e: Entry| #[trigger] q.all_entries@.contains(e) <==> p.all_entries@.contains(e),
        q.all_entries@.len() == p.all_entries@.len(),
        q.scroll_target == q.lead,
        q.filter == p.filter && q.current_dir == p.current_dir,
{
    let (a, b) = choose|a: Pane, b: Pane|
        #[trigger] reordered(p, a, k) && #[trigger] pane::filtered(a, b, show_hidden) && q == (Pane {
            scroll_target: b.lead,
            ..b
        });
    let _ = listing::law_sorting_keeps_the_entries(a.sorting(), p.folder_sizes, p.all_entries@, a.all_entries@);
}

proof fn lemma_extent(hits: Seq<usize>, k: int)
    requires
        0 <= k <= hits.len(),
    ensures
        k > 0 ==> extent(hits, k) is Some,
        extent(hits, k) matches Some((lo, hi)) ==> (forall|i: int| 0 <= i < k ==> lo <= #[trigger] hits[i] <= hi)
            && hits.take(k).contains(lo) && hits.take(k).contains(hi),
    decreases k,
{
    if k > 0 {
        lemma_extent(hits, k - 1);
        let front = hits.take(k - 1);
        let all = hits.take(k);
        assert(all[k - 1] == hits[k - 1]);
        assert forall|x: usize| front.contains(x) implies all.contains(x) by {
            let i = choose|i: int| 0 <= i < front.len() && front[i] == x;
            assert(all[i] == x);
        }
    }
}

/// A rubber band selects exactly what was selected when it began and the rows that
/// it touches; the cursor is at the lowest of these rows and the fixed end at the
/// highest.
pub proof fn law_band_selects_what_it_touches(p: Pane, q: Pane, base: Seq<Seq<char>>, hits: Seq<usize>, k: int)
    requires
        banded(p, q, base, hits),
        0 <= k < hits.len(),
    ensures
        q.selected().contains(p.entries@[hits[k] as int].name@),
        q.lead matches Some(hi) && hits[k] <= hi && hits.contains(hi),
        q.anchor matches Some(lo) && lo <= hits[k] && hits.contains(lo),
        forall|n: Seq<char>| #[trigger]
            q.selected().contains(n) ==> base.contains(n) || exists|j: int|
                0 <= j < hits.len() && p.entries@[(#[trigger] hits[j]) as int].name@ == n,
{
    lemma_extent(hits, hits.len() as int);
    assert(hits.take(hits.len() as int) =~= hits);
    assert(hit_name(p.entries@, hits, p.entries@[hits[k] as int].name@));
}

/// The files that Enter opens are the selected entries that are no folders.
pub proof fn law_selected_files(p: Pane, k: int)
    requires
        0 <= k <= p.entries@.len(),
    ensures
        forall|x: Seq<char>| #[trigger]
            selected_files(p, k).contains(x) <==> exists|i: int|
                0 <= i < k && !p.entries@[i].is_dir && p.selected().contains((#[trigger] p.entries@[i]).name@) && x
                    == paths::join_spec(p.style, p.current_dir@, p.entries@[i].name@),
    decreases k,
{
    let b = selected_files(p, k);
    if k > 0 {
        law_selected_files(p, k - 1);
        let a = selected_files(p, k - 1);
        let e = p.entries@[k - 1];
        let last = paths::join_spec(p.style, p.current_dir@, e.name@);
        assert forall|x: Seq<char>| #[trigger] b.contains(x) <==> exists|i: int|
            0 <= i < k && !p.entries@[i].is_dir && p.selected().contains((#[trigger] p.entries@[i]).name@) && x
                == paths::join_spec(p.style, p.current_dir@, p.entries@[i].name@) by {
            if a.contains(x) {
                let j = choose|j: int| 0 <= j < a.len() && a[j] == x;
                assert(b[j] == x);
            }
            if !e.is_dir && p.selected().contains(e.name@) {
                assert(b[b.len() - 1] == last);
            }
            if b.contains(x) {
                let j = choose|j: int| 0 <= j < b.len() && b[j] == x;
                if j < a.len() {
                    assert(a[j] == x);
                }
            }
        }
    }
}

/// Enter on several rows opens all the files among them, up to fifteen and never a
/// folder; more than that are refused. Enter on one row enters a folder and opens a
/// file.
pub proof fn law_enter(p: Pane, a: EnterAction)
    requires
        entering(p, a),
    ensures
        p.sel@.len() > 1 && a is Open ==> 0 < a->Open_0@.len() <= 15 && text::texts(a->Open_0@) == selected_files(
            p,
            p.entries@.len() as int,
        ),
        p.sel@.len() > 1 && selected_files(p, p.entries@.len() as int).len() > 15 ==> a is Refused,
        p.sel@.len() > 1 && 0 < selected_files(p, p.entries@.len() as int).len() <= 15 ==> a is Open,
        p.sel@.len() > 1 ==> !(a is Enter) && !(a is Nothing),
        p.sel@.len() <= 1 ==> !(a is Refused),
        p.sel@.len() <= 1 && p.lead is Some && p.lead->0 < p.entries@.len() && p.selected().contains(
            p.entries@[p.lead->0 as int].name@,
        ) ==> {
            let e = p.entries@[p.lead->0 as int];
            let full = paths::join_spec(p.style, p.current_dir@, e.name@);
            &&& e.is_dir ==> (a matches EnterAction::Enter(q) && q@ == full)
            &&& !e.is_dir ==> (a matches EnterAction::Open(v) && v@.len() == 1 && v@[0]@ == full)
        },
        p.sel@.len() == 0 ==> a is Nothing,
{
    assert(p.selected().len() == p.sel@.len());
    if let EnterAction::Open(v) = a {
        assert(text::texts(v@).len() == v@.len());
        if v@.len() == 1 {
            assert(text::texts(v@)[0] == v@[0]@);
        }
    }
}

/// A typed address means the text without the white space around it, and a bare
/// drive the root of the drive.
pub proof fn law_typed_address(s: Seq<char>)
    ensures
        text::trim(s).len() != 2 ==> address_target(s) == text::trim(s),
        text::trim(s).len() == 2 && (('A' <= text::trim(s)[0] && text::trim(s)[0] <= 'Z') || ('a' <= text::trim(s)[0]
            && text::trim(s)[0] <= 'z')) && text::trim(s)[1] == ':' ==> address_target(s) == text::trim(s).push('\\'),
        text::trim(s).len() == 2 && text::trim(s)[1] != ':' ==> address_target(s) == text::trim(s),
        text::trim(s).len() == 2 && !('A' <= text::trim(s)[0] && text::trim(s)[0] <= 'Z') && !('a' <= text::trim(s)[0]
            && text::trim(s)[0] <= 'z') ==> address_target(s) == text::trim(s),
{
}

/// The history menu lists the folders of a stack, the newest first and twelve at
/// most.
pub proof fn law_history_menu(stack: Seq<Visit>)
    ensures
        menu_folders(stack).len() == (if stack.len() <= 12 {
            stack.len() as int
        } else {
            12
        }),
        forall|i: int|
            0 <= i < menu_folders(stack).len() ==> #[trigger] menu_folders(stack)[i] == stack[stack.len() - 1 - i].dir@,
{
}

/// A refresh reads the folder again and picks the entry that the cursor was on.
pub proof fn law_refresh_comes_back_to_the_entry(p: Pane, q: Pane)
    requires
        refreshed(p, q),
    ensures
        q.entries_dirty,
        q.current_dir == p.current_dir && q.filter == p.filter && q.back_stack == p.back_stack,
        p.lead matches Some(i) && i < p.entries@.len() ==> q.select_after_reload is Some,
        p.lead is Some && p.lead->0 < p.entries@.len() ==> q.select_after_reload->0.name
            == p.entries@[p.lead->0 as int].name && q.select_after_reload->0.dir == p.current_dir,
{
}

} // verus!
