//! One explorer pane: a location and everything that hangs off it — the
//! listing, the selection and its cursor, filter, order, history.
use vstd::prelude::*;
use crate::browse::Entry;
use crate::labels::{self, commas, human_size};
use crate::listing::{self, entry_size, filter_entries, sort_entries, FolderSize, SortKey, Sorting};
use crate::location::{self, canonical_drive_case, name_of};
use crate::names;
use crate::paths::{self, file_name, parent, same_path, PathStyle};
use crate::text::{
    self, chars_of, list_has, same_ignoring_ascii_case, same_range, same_text, to_lower_text,
};

verus! {

/// A place in the history: a folder and the item one was on in it.
pub struct Visit {
    pub dir: String,
    pub item: Option<String>,
}

/// An item to select once the listing of its folder is there.
pub struct Pick {
    pub dir: String,
    pub name: String,
}

/// One explorer pane.
pub struct Pane {
    /// How paths are read here.
    pub style: PathStyle,
    pub current_dir: String,
    /// The text in the address bar.
    pub addr_edit: String,
    /// The full listing, in order.
    pub all_entries: Vec<Entry>,
    /// The part of it that is shown; rows and selection refer to this.
    pub entries: Vec<Entry>,
    pub filter: String,
    /// Why the folder could not be listed.
    pub entries_err: Option<String>,
    pub entries_dirty: bool,
    pub back_stack: Vec<Visit>,
    pub fwd_stack: Vec<Visit>,
    /// Free and total bytes of the volume.
    pub drive_space: Option<(u64, u64)>,
    pub sort_key: SortKey,
    pub sort_asc: bool,
    /// The names of the selected entries, each once.
    pub sel: Vec<String>,
    /// The row of the cursor.
    pub lead: Option<usize>,
    /// The fixed end of a range selection.
    pub anchor: Option<usize>,
    /// The row to scroll to.
    pub scroll_target: Option<usize>,
    /// What was typed lately, and when, in milliseconds of some clock.
    pub type_ahead: String,
    pub type_ahead_time: u64,
    /// Scanned sizes of the subfolders, by lowercase name.
    pub folder_sizes: Option<Vec<FolderSize>>,
    pub select_after_reload: Option<Pick>,
    pub status_summary: String,
    pub addr_editing: bool,
    pub addr_edit_focus: bool,
    /// The folder itself as an entry.
    pub cur_entry: Option<Entry>,
    /// The scanned size of the folder.
    pub cur_dir_size: Option<u64>,
}

/// A pane at a folder, nothing listed yet.
pub open spec fn is_new(p: Pane, style: PathStyle, dir: Seq<char>) -> bool {
    &&& p.style == style
    &&& p.current_dir@ == dir
    &&& p.addr_edit@ == dir
    &&& p.all_entries@.len() == 0
    &&& p.entries@.len() == 0
    &&& p.filter@.len() == 0
    &&& p.entries_err is None
    &&& p.entries_dirty
    &&& p.back_stack@.len() == 0
    &&& p.fwd_stack@.len() == 0
    &&& p.drive_space is None
    &&& p.sort_key == SortKey::Name
    &&& p.sort_asc
    &&& p.sel@.len() == 0
    &&& p.lead is None
    &&& p.anchor is None
    &&& p.scroll_target is None
    &&& p.type_ahead@.len() == 0
    &&& p.type_ahead_time == 0
    &&& p.folder_sizes is None
    &&& p.select_after_reload is None
    &&& p.status_summary@.len() == 0
    &&& !p.addr_editing
    &&& !p.addr_edit_focus
    &&& p.cur_entry is None
    &&& p.cur_dir_size is None
}

/// The names of entries.
pub open spec fn names_of(es: Seq<Entry>) -> Seq<Seq<char>> {
    es.map_values(|e: Entry| e.name@)
}

/// The first entry of that name from `i` on.
pub open spec fn position(es: Seq<Entry>, name: Seq<char>, i: int) -> Option<usize>
    decreases es.len() - i,
{
    if i < 0 || i >= es.len() {
        None
    } else if es[i].name@ == name {
        Some(i as usize)
    } else {
        position(es, name, i + 1)
    }
}

/// The first entry from `i` on whose name differs in the case of ASCII letters
/// at most.
pub open spec fn position_any_case(es: Seq<Entry>, name: Seq<char>, i: int) -> Option<usize>
    decreases es.len() - i,
{
    if i < 0 || i >= es.len() {
        None
    } else if text::same_but_ascii_case(es[i].name@, name) {
        Some(i as usize)
    } else {
        position_any_case(es, name, i + 1)
    }
}

/// The name of the entry in a row.
pub open spec fn name_at(es: Seq<Entry>, row: Option<usize>) -> Option<String> {
    match row {
        Some(i) => if i < es.len() {
            Some(es[i as int].name)
        } else {
            None
        },
        None => None,
    }
}

fn find_name(es: &Vec<Entry>, name: &str) -> (r: Option<usize>)
    ensures
        r == position(es@, name@, 0),
        r matches Some(i) ==> i < es@.len() && es@[i as int].name@ == name@,
{
    let mut i: usize = 0;
    while i < es.len()
        invariant
            i <= es@.len(),
            position(es@, name@, 0) == position(es@, name@, i as int),
        decreases es@.len() - i,
    {
        if same_text(es[i].name.as_str(), name) {
            return Some(i);
        }
        i += 1;
    }
    None
}

fn find_name_any_case(es: &Vec<Entry>, name: &str) -> (r: Option<usize>)
    ensures
        r == position_any_case(es@, name@, 0),
        r matches Some(i) ==> i < es@.len(),
{
    let mut i: usize = 0;
    while i < es.len()
        invariant
            i <= es@.len(),
            position_any_case(es@, name@, 0) == position_any_case(es@, name@, i as int),
        decreases es@.len() - i,
    {
        if same_ignoring_ascii_case(es[i].name.as_str(), name) {
            return Some(i);
        }
        i += 1;
    }
    None
}

/// Nothing is selected.
pub open spec fn nothing_selected(p: Pane, q: Pane) -> bool {
    &&& q == (Pane { sel: q.sel, lead: None, anchor: None, ..p })
    &&& q.selected() == Seq::<Seq<char>>::empty()
}

/// Exactly row `i` is selected; without such a row nothing, and the cursor
/// stayed.
pub open spec fn only_selected(p: Pane, q: Pane, i: usize) -> bool {
    if i < p.entries@.len() {
        &&& q == (Pane { sel: q.sel, lead: Some(i), anchor: Some(i), ..p })
        &&& q.selected() == seq![p.entries@[i as int].name@]
    } else {
        &&& q == (Pane { sel: q.sel, ..p })
        &&& q.selected() == Seq::<Seq<char>>::empty()
    }
}

/// Row `i` was toggled in the selection; without such a row nothing happened.
pub open spec fn toggled(p: Pane, q: Pane, i: usize) -> bool {
    if i < p.entries@.len() {
        let name = p.entries@[i as int].name@;
        &&& q == (Pane { sel: q.sel, lead: Some(i), anchor: Some(i), ..p })
        &&& forall|n: Seq<char>|
            #[trigger] q.selected().contains(n) <==> (if n == name {
                !p.selected().contains(name)
            } else {
                p.selected().contains(n)
            })
    } else {
        q == p
    }
}

/// The fixed end of a range to row `i`.
pub open spec fn range_start(p: Pane, i: usize) -> usize {
    match p.anchor {
        Some(a) => a,
        None => i,
    }
}

/// The rows between the anchor and `i` are selected, and the cursor is at `i`.
pub open spec fn range_selected(p: Pane, q: Pane, i: usize) -> bool {
    let a = range_start(p, i);
    let lo = if a < i {
        a
    } else {
        i
    };
    let hi = if a < i {
        i
    } else {
        a
    };
    &&& q == (Pane { sel: q.sel, lead: Some(i), anchor: Some(a), ..p })
    &&& forall|n: Seq<char>|
        #[trigger] q.selected().contains(n) <==> named_between(p.entries@, lo as int, hi as int, n)
}

impl Pane {
    /// No name is selected twice.
    pub open spec fn wf(&self) -> bool {
        self.selected().no_duplicates()
    }

    /// The selected names.
    pub open spec fn selected(&self) -> Seq<Seq<char>> {
        text::texts(self.sel@)
    }

    /// How the listing is ordered.
    pub open spec fn sorting(&self) -> Sorting {
        Sorting { style: self.style, key: self.sort_key, ascending: self.sort_asc }
    }

    /// A pane at a folder, nothing listed yet.
    pub fn new(style: PathStyle, dir: &str) -> (r: Pane)
        ensures
            r.wf(),
            is_new(r, style, dir@),
    {
        let r = Pane {
            style,
            current_dir: dir.to_owned(),
            addr_edit: dir.to_owned(),
            all_entries: Vec::new(),
            entries: Vec::new(),
            filter: String::new(),
            entries_err: None,
            entries_dirty: true,
            back_stack: Vec::new(),
            fwd_stack: Vec::new(),
            drive_space: None,
            sort_key: SortKey::Name,
            sort_asc: true,
            sel: Vec::new(),
            lead: None,
            anchor: None,
            scroll_target: None,
            type_ahead: String::new(),
            type_ahead_time: 0,
            folder_sizes: None,
            select_after_reload: None,
            status_summary: String::new(),
            addr_editing: false,
            addr_edit_focus: false,
            cur_entry: None,
            cur_dir_size: None,
        };
        assert(r.selected() =~= Seq::empty());
        r
    }

    /// Keeps the address bar showing the current folder.
    pub fn sync_addr(&mut self)
        ensures
            *final(self) == (Pane { addr_edit: old(self).current_dir, ..*old(self) }),
    {
        self.addr_edit = self.current_dir.clone();
    }

    /// Switches the address bar to its text field, with the path in it.
    pub fn begin_addr_edit(&mut self)
        ensures
            *final(self) == (Pane {
                addr_edit: old(self).current_dir,
                addr_editing: true,
                addr_edit_focus: true,
                ..*old(self)
            }),
    {
        self.addr_edit = self.current_dir.clone();
        self.addr_editing = true;
        self.addr_edit_focus = true;
    }

    /// The name of the item the cursor is on.
    pub fn lead_name(&self) -> (r: Option<String>)
        ensures
            r == name_at(self.entries@, self.lead),
    {
        match self.lead {
            Some(i) => {
                if i < self.entries.len() {
                    Some(self.entries[i].name.clone())
                } else {
                    None
                }
            },
            None => None,
        }
    }

    /// Selects nothing.
    pub fn clear_selection(&mut self)
        ensures
            nothing_selected(*old(self), *final(self)),
            final(self).wf(),
    {
        self.sel.clear();
        self.lead = None;
        self.anchor = None;
        assert(self.selected() =~= Seq::empty());
    }

    /// Selects exactly row `i`; without such a row, nothing, and the cursor
    /// stays.
    pub fn select_only(&mut self, i: usize)
        ensures
            final(self).wf(),
            only_selected(*old(self), *final(self), i),
    {
        self.sel.clear();
        if i < self.entries.len() {
            self.sel.push(self.entries[i].name.clone());
            self.lead = Some(i);
            self.anchor = Some(i);
            assert(self.selected() =~= seq![self.entries@[i as int].name@]);
        } else {
            assert(self.selected() =~= Seq::empty());
        }
    }

    /// Whether an entry of that name is selected.
    pub fn is_selected(&self, name: &str) -> (r: bool)
        ensures
            r == self.selected().contains(name@),
    {
        list_has(&self.sel, name)
    }

    /// Toggles row `i` in the selection; without such a row, nothing happens.
    pub fn toggle_at(&mut self, i: usize)
        requires
            old(self).wf(),
        ensures
            final(self).wf(),
            toggled(*old(self), *final(self), i),
    {
        if i >= self.entries.len() {
            return;
        }
        let name = self.entries[i].name.clone();
        let ghost before = self.selected();
        let mut k: usize = 0;
        let mut found = false;
        while k < self.sel.len() && !found
            invariant
                k <= self.sel@.len(),
                self.sel == old(self).sel,
                *self == *old(self),
                before == self.selected(),
                forall|j: int| 0 <= j < k ==> #[trigger] before[j] != name@,
                found ==> k < self.sel@.len() && before[k as int] == name@,
            decreases self.sel@.len() - k, (if found { 0int } else { 1 }),
        {
            if same_text(self.sel[k].as_str(), name.as_str()) {
                found = true;
                assert(before[k as int] == name@);
            } else {
                assert(before[k as int] != name@);
                k += 1;
            }
        }
        if found {
            self.sel.remove(k);
            proof {
                let after = self.selected();
                assert(after =~= before.remove(k as int));
                assert forall|n: Seq<char>| after.contains(n) <==> (if n == name@ {
                    !before.contains(name@)
                } else {
                    before.contains(n)
                }) by {
                    lemma_removed(before, k as int, n);
                }
                lemma_remove_keeps_unique(before, k as int);
            }
        } else {
            self.sel.push(name);
            proof {
                let after = self.selected();
                assert(after =~= before.push(name@));
                assert(!before.contains(name@));
                assert forall|n: Seq<char>| after.contains(n) <==> (if n == name@ {
                    !before.contains(name@)
                } else {
                    before.contains(n)
                }) by {
                    lemma_pushed(before, name@, n);
                }
            }
        }
        self.lead = Some(i);
        self.anchor = Some(i);
    }
}

proof fn lemma_removed<T>(s: Seq<T>, k: int, n: T)
    requires
        0 <= k < s.len(),
        s.no_duplicates(),
    ensures
        s.remove(k).contains(n) <==> (s.contains(n) && n != s[k]),
{
    let r = s.remove(k);
    if r.contains(n) {
        let j = choose|j: int| 0 <= j < r.len() && r[j] == n;
        if j < k {
            assert(s[j] == n);
        } else {
            assert(s[j + 1] == n);
        }
    }
    if s.contains(n) && n != s[k] {
        let j = choose|j: int| 0 <= j < s.len() && s[j] == n;
        if j < k {
            assert(r[j] == n);
        } else {
            assert(r[j - 1] == n);
        }
    }
}

proof fn lemma_remove_keeps_unique<T>(s: Seq<T>, k: int)
    requires
        0 <= k < s.len(),
        s.no_duplicates(),
    ensures
        s.remove(k).no_duplicates(),
{
    let r = s.remove(k);
    assert forall|i: int, j: int| 0 <= i < r.len() && 0 <= j < r.len() && i != j implies r[i] != r[j] by {
        let a = if i < k {
            i
        } else {
            i + 1
        };
        let b = if j < k {
            j
        } else {
            j + 1
        };
        assert(r[i] == s[a] && r[j] == s[b]);
    }
}

proof fn lemma_pushed<T>(s: Seq<T>, x: T, n: T)
    ensures
        s.push(x).contains(n) <==> (s.contains(n) || n == x),
{
    let r = s.push(x);
    if r.contains(n) {
        let j = choose|j: int| 0 <= j < r.len() && r[j] == n;
        if j < s.len() {
            assert(s[j] == n);
        }
    }
    if s.contains(n) {
        let j = choose|j: int| 0 <= j < s.len() && s[j] == n;
        assert(r[j] == n);
    }
    assert(r[s.len() as int] == x);
}

/// Adds a name to a list unless it is there.
pub(crate) fn add_name(list: &mut Vec<String>, name: &String)
    requires
        text::texts(old(list)@).no_duplicates(),
    ensures
        text::texts(final(list)@).no_duplicates(),
        forall|n: Seq<char>|
            #[trigger] text::texts(final(list)@).contains(n) <==> (text::texts(old(list)@).contains(n) || n == name@),
{
    let ghost before = text::texts(list@);
    if !list_has(list, name.as_str()) {
        list.push(name.clone());
        proof {
            assert(text::texts(list@) =~= before.push(name@));
            assert forall|n: Seq<char>| text::texts(list@).contains(n) <==> (before.contains(n) || n == name@) by {
                lemma_pushed(before, name@, n);
            }
        }
    }
}

/// Some row from `lo` to `hi` has the name.
pub open spec fn named_between(es: Seq<Entry>, lo: int, hi: int, n: Seq<char>) -> bool {
    exists|r: int| lo <= r <= hi && 0 <= r < es.len() && (#[trigger] es[r]).name@ == n
}

/// The paths of the first `k` entries that are selected.
pub open spec fn paths_of(
    style: PathStyle,
    dir: Seq<char>,
    es: Seq<Entry>,
    sel: Seq<Seq<char>>,
    k: int,
) -> Seq<Seq<char>>
    decreases k,
{
    if k <= 0 {
        Seq::empty()
    } else if sel.contains(es[k - 1].name@) {
        paths_of(style, dir, es, sel, k - 1).push(paths::join_spec(style, dir, es[k - 1].name@))
    } else {
        paths_of(style, dir, es, sel, k - 1)
    }
}

/// The row that single-item operations act on.
pub open spec fn target_row(es: Seq<Entry>, sel: Seq<Seq<char>>, lead: Option<usize>) -> Option<usize> {
    if lead matches Some(i) && i < es.len() && sel.contains(es[i as int].name@) {
        lead
    } else if sel.len() == 1 {
        position(es, sel[0], 0)
    } else {
        None
    }
}

/// The folders among the first `k` entries.
pub open spec fn folder_count(es: Seq<Entry>, k: int) -> nat
    decreases k,
{
    if k <= 0 {
        0
    } else {
        folder_count(es, k - 1) + (if es[k - 1].is_dir {
            1nat
        } else {
            0
        })
    }
}

/// The shown sizes of the first `k` entries.
pub open spec fn shown_total(sizes: Option<Vec<FolderSize>>, es: Seq<Entry>, k: int) -> nat
    decreases k,
{
    if k <= 0 {
        0
    } else {
        shown_total(sizes, es, k - 1) + listing::shown_size(sizes, es[k - 1]) as nat
    }
}

/// The status line: how many entries are shown, what they are, how large, and
/// the room on the volume. (A total beyond 64 bits is shown modulo that.)
pub open spec fn summary(
    all: nat,
    es: Seq<Entry>,
    sizes: Option<Vec<FolderSize>>,
    space: Option<(u64, u64)>,
) -> Seq<char> {
    let n = es.len();
    let folders = folder_count(es, n as int);
    (if n != all {
        labels::grouped(labels::dec(n)) + " of "@ + labels::grouped(labels::dec(all)) + " shown · "@
    } else {
        Seq::<char>::empty()
    }) + labels::grouped(labels::dec(n)) + " items · "@ + labels::grouped(labels::dec(folders)) + " folders · "@
        + labels::grouped(labels::dec((n - folders) as nat)) + " files · "@ + labels::human_size_spec(
        shown_total(sizes, es, n as int) % 0x1_0000_0000_0000_0000,
    ) + (match space {
        Some((free, total)) => " · "@ + labels::human_size_spec(free as nat) + " free of "@ + labels::human_size_spec(
            total as nat,
        ),
        None => Seq::<char>::empty(),
    })
}

impl Pane {
    /// Selects the rows from the anchor to `i` and moves the cursor to `i`;
    /// without an anchor, `i` becomes it.
    pub fn select_range_to(&mut self, i: usize)
        ensures
            final(self).wf(),
            range_selected(*old(self), *final(self), i),
    {
        let a: usize = match self.anchor {
            Some(a) => a,
            None => i,
        };
        self.anchor = Some(a);
        let (lo, hi): (usize, usize) = if a < i {
            (a, i)
        } else {
            (i, a)
        };
        let mut sel: Vec<String> = Vec::new();
        let n: usize = self.entries.len();
        let ghost es = self.entries@;
        let mut r: usize = lo;
        assert(text::texts(sel@) =~= Seq::empty());
        while r < n && r <= hi
            invariant
                n == es.len(),
                es == self.entries@,
                lo <= r,
                r <= n || r == lo,
                text::texts(sel@).no_duplicates(),
                forall|x: Seq<char>|
                    text::texts(sel@).contains(x) <==> named_between(es, lo as int, if r <= hi { r - 1 } else { hi as int }, x),
            decreases n - r,
        {
            let ghost before = text::texts(sel@);
            add_name(&mut sel, &self.entries[r].name);
            proof {
                assert forall|x: Seq<char>| text::texts(sel@).contains(x) <==> named_between(
                    es,
                    lo as int,
                    r as int,
                    x,
                ) by {
                    if x == es[r as int].name@ {
                        assert(es[r as int].name@ == x);
                    }
                    if named_between(es, lo as int, r - 1, x) {
                        let w = choose|w: int| lo <= w <= r - 1 && 0 <= w < es.len() && (#[trigger] es[w]).name@ == x;
                        assert(es[w].name@ == x);
                    }
                    if named_between(es, lo as int, r as int, x) {
                        let w = choose|w: int|
                            lo <= w <= r && 0 <= w < es.len() && (#[trigger] es[w]).name@ == x;
                        if w < r {
                            assert(named_between(es, lo as int, r - 1, x));
                        }
                    }
                }
            }
            r += 1;
        }
        proof {
            assert forall|x: Seq<char>| text::texts(sel@).contains(x) <==> named_between(es, lo as int, hi as int, x) by {
                if named_between(es, lo as int, hi as int, x) {
                    let w = choose|w: int| lo <= w <= hi && 0 <= w < es.len() && (#[trigger] es[w]).name@ == x;
                    assert(es[w].name@ == x);
                }
                let up = if r <= hi {
                    r - 1
                } else {
                    hi as int
                };
                if named_between(es, lo as int, up, x) {
                    let w = choose|w: int| lo <= w <= up && 0 <= w < es.len() && (#[trigger] es[w]).name@ == x;
                    assert(es[w].name@ == x);
                }
            }
        }
        self.sel = sel;
        self.lead = Some(i);
    }

    /// The row that Open, Rename and Properties act on: the cursor's if it is
    /// selected, else the only selected one.
    pub fn op_target(&self) -> (r: Option<usize>)
        ensures
            r == target_row(self.entries@, self.selected(), self.lead),
            r matches Some(i) ==> i < self.entries@.len(),
    {
        match self.lead {
            Some(i) => {
                if i < self.entries.len() && self.is_selected(self.entries[i].name.as_str()) {
                    return Some(i);
                }
            },
            None => {},
        }
        if self.sel.len() == 1 {
            assert(self.selected()[0] == self.sel@[0]@);
            return find_name(&self.entries, self.sel[0].as_str());
        }
        None
    }

    /// The paths of the selected entries, in listing order.
    pub fn selected_paths(&self) -> (r: Vec<String>)
        ensures
            text::texts(r@) == paths_of(
                self.style,
                self.current_dir@,
                self.entries@,
                self.selected(),
                self.entries@.len() as int,
            ),
    {
        let mut out: Vec<String> = Vec::new();
        let mut i: usize = 0;
        assert(text::texts(out@) =~= Seq::empty());
        while i < self.entries.len()
            invariant
                i <= self.entries@.len(),
                text::texts(out@) == paths_of(
                    self.style,
                    self.current_dir@,
                    self.entries@,
                    self.selected(),
                    i as int,
                ),
            decreases self.entries@.len() - i,
        {
            if self.is_selected(self.entries[i].name.as_str()) {
                let ghost before = text::texts(out@);
                let p = paths::join(self.style, self.current_dir.as_str(), self.entries[i].name.as_str());
                out.push(p);
                assert(text::texts(out@) =~= before.push(p@));
            }
            i += 1;
        }
        out
    }

    /// Works out the status line; a folder that could not be listed has none.
    pub fn refresh_status_summary(&mut self)
        ensures
            *final(self) == (Pane { status_summary: final(self).status_summary, ..*old(self) }),
            final(self).status_summary@ == old(self).status_line(),
    {
        if self.entries_err.is_some() {
            self.status_summary = String::new();
            return;
        }
        let n: usize = self.entries.len();
        let mut folders: u64 = 0;
        let mut total: u64 = 0;
        let mut i: usize = 0;
        while i < n
            invariant
                n == self.entries@.len(),
                *self == *old(self),
                i <= n,
                folders == folder_count(self.entries@, i as int),
                folders <= i,
                total == shown_total(self.folder_sizes, self.entries@, i as int) % 0x1_0000_0000_0000_0000,
            decreases n - i,
        {
            if self.entries[i].is_dir {
                folders = folders + 1;
            }
            let size: u64 = entry_size(&self.folder_sizes, &self.entries[i]);
            total = total.wrapping_add(size);
            i += 1;
        }
        let mut out = String::new();
        if n != self.all_entries.len() {
            out.append(commas(n as u64).as_str());
            out.append(" of ");
            out.append(commas(self.all_entries.len() as u64).as_str());
            out.append(" shown · ");
        }
        out.append(commas(n as u64).as_str());
        out.append(" items · ");
        out.append(commas(folders).as_str());
        out.append(" folders · ");
        out.append(commas(n as u64 - folders).as_str());
        out.append(" files · ");
        out.append(human_size(total).as_str());
        match self.drive_space {
            Some((free, all)) => {
                out.append(" · ");
                out.append(human_size(free).as_str());
                out.append(" free of ");
                out.append(human_size(all).as_str());
            },
            None => {},
        }
        assert(out@ =~= summary(self.all_entries@.len(), self.entries@, self.folder_sizes, self.drive_space));
        self.status_summary = out;
    }

    /// The status line of the listing as it is.
    pub open spec fn status_line(&self) -> Seq<char> {
        if self.entries_err is Some {
            Seq::empty()
        } else {
            summary(self.all_entries@.len(), self.entries@, self.folder_sizes, self.drive_space)
        }
    }
}

/// Some entry has that name without regard to case, and it is not the one name
/// that may be kept.
pub open spec fn clashes(es: Seq<Entry>, name: Seq<char>, allow: Option<Seq<char>>) -> bool {
    exists|i: int|
        0 <= i < es.len() && text::lower_text((#[trigger] es[i]).name@) == text::lower_text(name) && !(allow matches Some(
            a,
        ) && text::lower_text(a) == text::lower_text(es[i].name@))
}

/// What is wrong with a name for this listing, if anything.
pub open spec fn listed_name_error(es: Seq<Entry>, name: Seq<char>, allow: Option<Seq<char>>) -> Option<Seq<char>> {
    match names::name_error(name) {
        Some(e) => Some(e),
        None => if clashes(es, name, allow) {
            Some("An item with that name already exists."@)
        } else {
            None
        },
    }
}

/// Whether the pause since the last letter has ended the search text.
pub open spec fn paused(pane: &Pane, now: u64) -> bool {
    now - pane.type_ahead_time >= 900
}

/// The same single letter again.
pub open spec fn repeats(pane: &Pane, low: Seq<char>, now: u64) -> bool {
    !paused(pane, now) && pane.type_ahead@.len() == 1 && low.len() == 1 && pane.type_ahead@ == low
}

/// The search text after more was typed.
pub open spec fn search_text(pane: &Pane, low: Seq<char>, now: u64) -> Seq<char> {
    if paused(pane, now) {
        low
    } else if repeats(pane, low, now) {
        pane.type_ahead@
    } else {
        pane.type_ahead@ + low
    }
}

/// A row whose name starts with the text, without regard to case.
pub open spec fn starts_row(es: Seq<Entry>, q: Seq<char>, i: int) -> bool {
    q.is_prefix_of(text::lower_text(es[i].name@))
}

/// The first of the rows from `start` on, round the end, that starts with the
/// text, `off` rows already passed.
pub open spec fn next_row(es: Seq<Entry>, q: Seq<char>, start: int, off: int) -> Option<usize>
    decreases es.len() - off,
{
    if off < 0 || off >= es.len() {
        None
    } else if starts_row(es, q, (start + off) % (es.len() as int)) {
        Some(((start + off) % (es.len() as int)) as usize)
    } else {
        next_row(es, q, start, off + 1)
    }
}

/// Where a search in the list starts: the same letter again goes on behind the
/// cursor.
pub open spec fn search_from(p: Pane, low: Seq<char>, now: u64) -> int {
    if repeats(&p, low, now) {
        match p.lead {
            Some(i) => i + 1,
            None => 0,
        }
    } else {
        0
    }
}

/// What was typed led to a row that is selected now, or to none.
pub open spec fn jumped(p: Pane, q: Pane, typed: Seq<char>, now: u64, hit: bool) -> bool {
    if p.entries@.len() == 0 || typed.len() == 0 {
        !hit && q == p
    } else {
        let low = text::lower_text(typed);
        let text = search_text(&p, low, now);
        &&& q.type_ahead@ == text
        &&& match next_row(p.entries@, text, search_from(p, low, now), 0) {
            Some(i) => {
                &&& hit
                &&& i < p.entries@.len()
                &&& q.selected() == seq![p.entries@[i as int].name@]
                &&& q == (Pane {
                    type_ahead: q.type_ahead,
                    type_ahead_time: now,
                    sel: q.sel,
                    lead: Some(i),
                    anchor: Some(i),
                    scroll_target: Some(i),
                    ..p
                })
            },
            None => !hit && q == (Pane { type_ahead: q.type_ahead, type_ahead_time: now, ..p }),
        }
    }
}

fn name_starts(name: &str, q: &Vec<char>) -> (r: bool)
    ensures
        r == q@.is_prefix_of(text::lower_text(name@)),
{
    let low = chars_of(to_lower_text(name).as_str());
    if q.len() > low.len() {
        return false;
    }
    assert(q@.subrange(0, q@.len() as int) =~= q@);
    same_range(&low, 0, q.len(), q, 0, q.len())
}

impl Pane {
    /// The name for a new folder that no entry has.
    pub fn unique_new_folder_name(&self) -> (r: String)
        ensures
            r@ == names::free_folder_name(names_of(self.all_entries@), 1),
            self.all_entries@.len() < u64::MAX ==> !names::is_taken(names_of(self.all_entries@), r@),
    {
        let mut list: Vec<String> = Vec::new();
        let mut i: usize = 0;
        while i < self.all_entries.len()
            invariant
                i <= self.all_entries@.len(),
                list@.len() == i,
                forall|k: int| 0 <= k < i ==> (#[trigger] list@[k]) == self.all_entries@[k].name,
            decreases self.all_entries@.len() - i,
        {
            list.push(self.all_entries[i].name.clone());
            i += 1;
        }
        assert(text::texts(list@) =~= names_of(self.all_entries@));
        names::unique_new_folder_name(&list)
    }

    /// Whether a name, without the white space around it, can be given here.
    /// `allow` is the one existing name that a rename may keep.
    pub fn validate_name(&self, name: &str, allow: Option<&str>) -> (r: Result<String, String>)
        ensures
            ({
                let a = match allow {
                    Some(t) => Some(t@),
                    None => None,
                };
                match r {
                    Ok(n) => n@ == text::trim(name@) && listed_name_error(
                        self.all_entries@,
                        text::trim(name@),
                        a,
                    ) is None,
                    Err(e) => listed_name_error(self.all_entries@, text::trim(name@), a) == Some(e@),
                }
            }),
    {
        let n = match names::validate_name_syntax(name) {
            Ok(n) => n,
            Err(e) => {
                return Err(e);
            },
        };
        let lname = to_lower_text(n.as_str());
        let lallow = match allow {
            Some(a) => Some(to_lower_text(a)),
            None => None,
        };
        let ghost a = match allow {
            Some(t) => Some(t@),
            None => None,
        };
        let mut i: usize = 0;
        while i < self.all_entries.len()
            invariant
                i <= self.all_entries@.len(),
                n@ == text::trim(name@),
                names::name_error(n@) is None,
                a == (match allow {
                    Some(t) => Some(t@),
                    None => None,
                }),
                lname@ == text::lower_text(n@),
                text::opt_text(lallow) == (match a {
                    Some(t) => Some(text::lower_text(t)),
                    None => None,
                }),
                forall|k: int|
                    0 <= k < i ==> !(text::lower_text((#[trigger] self.all_entries@[k]).name@) == text::lower_text(n@)
                        && !(a matches Some(t) && text::lower_text(t) == text::lower_text(self.all_entries@[k].name@))),
            decreases self.all_entries@.len() - i,
        {
            let en = to_lower_text(self.all_entries[i].name.as_str());
            let kept = match &lallow {
                Some(l) => same_text(l.as_str(), en.as_str()),
                None => false,
            };
            if same_text(en.as_str(), lname.as_str()) && !kept {
                assert(clashes(self.all_entries@, n@, a));
                return Err("An item with that name already exists.".to_owned());
            }
            i += 1;
        }
        Ok(n)
    }

    /// Takes what was typed into the search text, which starts anew after a
    /// pause. The text to search for, and whether it is the same single letter
    /// again; `None` where nothing was typed.
    pub fn type_ahead_input(&mut self, typed: &str, now: u64) -> (r: Option<(String, bool)>)
        ensures
            typed@.len() == 0 ==> r is None && *final(self) == *old(self),
            typed@.len() > 0 ==> {
                let low = text::lower_text(typed@);
                &&& r matches Some((q, repeat)) && q == final(self).type_ahead && repeat == repeats(
                    old(self),
                    low,
                    now,
                )
                &&& final(self).type_ahead@ == search_text(old(self), low, now)
                &&& *final(self) == (Pane {
                    type_ahead: final(self).type_ahead,
                    type_ahead_time: now,
                    ..*old(self)
                })
            },
    {
        if typed.unicode_len() == 0 {
            return None;
        }
        let low = to_lower_text(typed);
        let timed_out = now.saturating_sub(self.type_ahead_time) >= 900;
        let repeat = !timed_out && self.type_ahead.as_str().unicode_len() == 1 && low.as_str().unicode_len() == 1
            && same_text(self.type_ahead.as_str(), low.as_str());
        if timed_out {
            self.type_ahead = low;
        } else if !repeat {
            self.type_ahead.append(low.as_str());
        }
        self.type_ahead_time = now;
        Some((self.type_ahead.clone(), repeat))
    }

    /// Jumps to the first entry whose name starts with what was typed; the same
    /// letter again goes on from the cursor. Whether something was selected.
    pub fn type_ahead_list(&mut self, typed: &str, now: u64) -> (r: bool)
        requires
            old(self).wf(),
            old(self).lead matches Some(i) ==> i + old(self).entries@.len() < usize::MAX,
        ensures
            final(self).wf(),
            jumped(*old(self), *final(self), typed@, now, r),
    {
        if self.entries.len() == 0 {
            return false;
        }
        let (q, repeat) = match self.type_ahead_input(typed, now) {
            Some(x) => x,
            None => {
                return false;
            },
        };
        let n: usize = self.entries.len();
        let start: usize = if repeat {
            match self.lead {
                Some(i) => i + 1,
                None => 0,
            }
        } else {
            0
        };
        let qv = chars_of(q.as_str());
        let mut off: usize = 0;
        while off < n
            invariant
                n == self.entries@.len(),
                n > 0,
                off <= n,
                start + n <= usize::MAX,
                next_row(self.entries@, qv@, start as int, 0) == next_row(self.entries@, qv@, start as int, off as int),
                qv@ == self.type_ahead@,
                *self == (Pane { type_ahead: self.type_ahead, type_ahead_time: now, ..*old(self) }),
                self.wf(),
                old(self).entries@.len() > 0,
                typed@.len() > 0,
                self.type_ahead@ == search_text(old(self), text::lower_text(typed@), now),
                repeat == repeats(old(self), text::lower_text(typed@), now),
                start == (if repeat {
                    match old(self).lead {
                        Some(i) => i + 1,
                        None => 0,
                    }
                } else {
                    0
                }),
            decreases n - off,
        {
            let i: usize = (start + off) % n;
            if name_starts(self.entries[i].name.as_str(), &qv) {
                self.select_only(i);
                self.scroll_target = Some(i);
                return true;
            }
            off += 1;
        }
        false
    }
}

/// The pane went from `p` to `q` by opening the folder `dir`: the place it left
/// is on top of the back stack, the way forward is gone, and nothing is
/// selected or filtered.
pub open spec fn opened(p: Pane, q: Pane, dir: Seq<char>) -> bool {
    &&& q == (Pane {
        current_dir: q.current_dir,
        addr_edit: q.current_dir,
        filter: q.filter,
        back_stack: q.back_stack,
        fwd_stack: q.fwd_stack,
        sel: q.sel,
        lead: None,
        anchor: None,
        entries_dirty: true,
        ..p
    })
    &&& q.current_dir@ == location::upper_drive(dir)
    &&& q.back_stack@ == p.back_stack@.push(here(p))
    &&& q.fwd_stack@.len() == 0
    &&& q.filter@.len() == 0
    &&& q.selected().len() == 0
}

/// Where the pane is: its folder and the item its cursor is on.
pub open spec fn here(p: Pane) -> Visit {
    Visit { dir: p.current_dir, item: name_at(p.entries@, p.lead) }
}

/// The pane went to a place in its history; the item one was on there is picked
/// again once the folder is listed.
pub open spec fn hopped(p: Pane, q: Pane, to: Visit) -> bool {
    &&& q == (Pane {
        current_dir: to.dir,
        addr_edit: to.dir,
        filter: q.filter,
        back_stack: q.back_stack,
        fwd_stack: q.fwd_stack,
        sel: q.sel,
        lead: None,
        anchor: None,
        entries_dirty: true,
        select_after_reload: match to.item {
            Some(n) => Some(Pick { dir: to.dir, name: n }),
            None => p.select_after_reload,
        },
        ..p
    })
    &&& q.filter@.len() == 0
    &&& q.selected().len() == 0
}

/// The pane went back one step.
pub open spec fn went_back(p: Pane, q: Pane) -> bool {
    &&& p.back_stack@.len() > 0
    &&& hopped(p, q, p.back_stack@.last())
    &&& q.back_stack@ == p.back_stack@.drop_last()
    &&& q.fwd_stack@ == p.fwd_stack@.push(here(p))
}

/// The pane went forward one step.
pub open spec fn went_forward(p: Pane, q: Pane) -> bool {
    &&& p.fwd_stack@.len() > 0
    &&& hopped(p, q, p.fwd_stack@.last())
    &&& q.fwd_stack@ == p.fwd_stack@.drop_last()
    &&& q.back_stack@ == p.back_stack@.push(here(p))
}

/// The pane went up to the parent folder, where the folder it left is to be
/// picked.
pub open spec fn went_up(p: Pane, q: Pane) -> bool {
    let up = paths::parent_spec(p.style, p.current_dir@)->0;
    let child = paths::file_name_spec(p.style, p.current_dir@);
    let pick = q.select_after_reload;
    &&& child is None ==> pick == p.select_after_reload
    &&& child matches Some(c) ==> (pick matches Some(x) && x.dir@ == up && x.name@ == c)
    &&& if paths::same_path_spec(p.style, location::upper_drive(up), p.current_dir@) {
        q == (Pane { entries_dirty: true, select_after_reload: pick, ..p })
    } else {
        opened(Pane { select_after_reload: pick, ..p }, q, up)
    }
}

/// An edit gave an item here that name: it is to be picked in a new listing, with
/// nothing filtered.
pub open spec fn edited(p: Pane, q: Pane, name: Seq<char>) -> bool {
    &&& q == (Pane { entries_dirty: true, filter: q.filter, select_after_reload: q.select_after_reload, ..p })
    &&& q.filter@.len() == 0
    &&& q.select_after_reload matches Some(x) && x.dir == p.current_dir && x.name@ == name
}

/// An operation touched `item`: it is to be picked where it lies in this folder.
pub open spec fn touched(p: Pane, q: Pane, item: Seq<char>) -> bool {
    if location::is_child_of(p.style, item, p.current_dir@) {
        edited(p, q, location::name_spec(p.style, item))
    } else {
        q == (Pane { entries_dirty: true, ..p })
    }
}

/// Back after opening a folder returns to the folder one came from, on the item
/// one was on, and leaves the way forward to the opened one.
pub proof fn law_back_returns(p: Pane, q: Pane, r: Pane, dir: Seq<char>)
    requires
        opened(p, q, dir),
        went_back(q, r),
    ensures
        r.current_dir == p.current_dir,
        r.back_stack@ == p.back_stack@,
        name_at(p.entries@, p.lead) matches Some(n) ==> r.select_after_reload == Some(
            Pick { dir: p.current_dir, name: n },
        ),
        r.fwd_stack@.len() == 1 && r.fwd_stack@[0].dir == q.current_dir,
{
    assert(p.back_stack@.push(here(p)).drop_last() =~= p.back_stack@);
}

/// Forward after Back is where one was, with both stacks as high as before, and
/// the item one was on is picked again.
pub proof fn law_forward_undoes_back(p: Pane, q: Pane, r: Pane)
    requires
        went_back(p, q),
        went_forward(q, r),
    ensures
        r.current_dir == p.current_dir,
        r.fwd_stack@ == p.fwd_stack@,
        r.back_stack@.len() == p.back_stack@.len(),
        r.back_stack@.drop_last() == p.back_stack@.drop_last(),
        r.back_stack@.last().dir == p.back_stack@.last().dir,
        name_at(p.entries@, p.lead) matches Some(n) ==> r.select_after_reload == Some(
            Pick { dir: p.current_dir, name: n },
        ),
{
    assert(p.fwd_stack@.push(here(p)).drop_last() =~= p.fwd_stack@);
    assert(r.back_stack@.drop_last() =~= p.back_stack@.drop_last());
}

impl Pane {
    /// Opens a folder. Whether the location changed: opening the folder one is in
    /// only lists it again.
    pub fn navigate_to(&mut self, path: &str) -> (r: bool)
        ensures
            r == !paths::same_path_spec(old(self).style, location::upper_drive(path@), old(self).current_dir@),
            !r ==> *final(self) == (Pane { entries_dirty: true, ..*old(self) }),
            r ==> opened(*old(self), *final(self), path@),
            old(self).wf() ==> final(self).wf(),
    {
        let dir = canonical_drive_case(path);
        if same_path(self.style, dir.as_str(), self.current_dir.as_str()) {
            self.entries_dirty = true;
            return false;
        }
        let leaving = Visit { dir: self.current_dir.clone(), item: self.lead_name() };
        self.back_stack.push(leaving);
        self.fwd_stack.clear();
        self.current_dir = dir;
        self.entries_dirty = true;
        self.clear_selection();
        self.filter = String::new();
        self.sync_addr();
        true
    }

    /// Goes to a place in the history and gives back the one it left.
    fn hop(&mut self, to: Visit) -> (r: Visit)
        ensures
            r == here(*old(self)),
            hopped(*old(self), *final(self), to),
            final(self).back_stack == old(self).back_stack,
            final(self).fwd_stack == old(self).fwd_stack,
            final(self).wf(),
    {
        let leaving = Visit { dir: self.current_dir.clone(), item: self.lead_name() };
        self.current_dir = to.dir.clone();
        self.entries_dirty = true;
        self.clear_selection();
        self.filter = String::new();
        self.sync_addr();
        match to.item {
            Some(n) => {
                self.select_after_reload = Some(Pick { dir: to.dir, name: n });
            },
            None => {},
        }
        leaving
    }

    /// Back one step; whether there was somewhere to go.
    pub fn go_back(&mut self) -> (r: bool)
        ensures
            r == (old(self).back_stack@.len() > 0),
            !r ==> *final(self) == *old(self),
            r ==> went_back(*old(self), *final(self)),
            old(self).wf() ==> final(self).wf(),
    {
        if self.back_stack.len() == 0 {
            return false;
        }
        match self.back_stack.pop() {
            Some(to) => {
                let left = self.hop(to);
                self.fwd_stack.push(left);
                true
            },
            None => false,
        }
    }

    /// Forward one step; whether there was somewhere to go.
    pub fn go_forward(&mut self) -> (r: bool)
        ensures
            r == (old(self).fwd_stack@.len() > 0),
            !r ==> *final(self) == *old(self),
            r ==> went_forward(*old(self), *final(self)),
            old(self).wf() ==> final(self).wf(),
    {
        if self.fwd_stack.len() == 0 {
            return false;
        }
        match self.fwd_stack.pop() {
            Some(to) => {
                let left = self.hop(to);
                self.back_stack.push(left);
                true
            },
            None => false,
        }
    }

    /// Up to the parent, where the folder one left is picked once it is listed;
    /// whether there was a parent.
    pub fn go_up(&mut self) -> (r: bool)
        ensures
            r == paths::parent_spec(old(self).style, old(self).current_dir@) is Some,
            !r ==> *final(self) == *old(self),
            r ==> went_up(*old(self), *final(self)),
            old(self).wf() ==> final(self).wf(),
    {
        let up = match parent(self.style, self.current_dir.as_str()) {
            Some(p) => p,
            None => {
                return false;
            },
        };
        let child = file_name(self.style, self.current_dir.as_str());
        self.navigate_to(up.as_str());
        match child {
            Some(c) => {
                self.select_after_reload = Some(Pick { dir: up, name: c });
            },
            None => {},
        }
        true
    }

    /// After an edit made or renamed an item here: lists again, with nothing
    /// filtered, and picks it.
    pub fn after_edit(&mut self, select_name: &str)
        ensures
            edited(*old(self), *final(self), select_name@),
    {
        self.entries_dirty = true;
        self.filter = String::new();
        self.select_after_reload = Some(Pick { dir: self.current_dir.clone(), name: select_name.to_owned() });
    }

    /// After an operation touched `item`: lists again, and picks the item where
    /// it lies in this very folder.
    pub fn after_op(&mut self, item: &str)
        ensures
            touched(*old(self), *final(self), item@),
    {
        self.entries_dirty = true;
        let inside = match parent(self.style, item) {
            Some(d) => same_path(self.style, d.as_str(), self.current_dir.as_str()),
            None => false,
        };
        if inside {
            self.filter = String::new();
            self.select_after_reload = Some(
                Pick { dir: self.current_dir.clone(), name: name_of(self.style, item) },
            );
        }
    }
}

/// The row, after the listing changed, of the entry that was in the row before.
pub open spec fn moved_row(before: Seq<Entry>, after: Seq<Entry>, row: Option<usize>) -> Option<usize> {
    match name_at(before, row) {
        Some(n) => position(after, n@, 0),
        None => None,
    }
}

/// The pane shows what passes its filter: the selection keeps the names that are
/// still shown, cursor and anchor stay on their entries.
pub open spec fn filtered(p: Pane, q: Pane, show_hidden: bool) -> bool {
    &&& q == (Pane {
        entries: q.entries,
        sel: q.sel,
        lead: moved_row(p.entries@, q.entries@, p.lead),
        anchor: moved_row(p.entries@, q.entries@, p.anchor),
        status_summary: q.status_summary,
        ..p
    })
    &&& q.entries@ == listing::visible(p.all_entries@, show_hidden, listing::filter_text(p.filter@))
    &&& forall|n: Seq<char>|
        #[trigger] q.selected().contains(n) <==> (p.selected().contains(n) && names_of(q.entries@).contains(n))
    &&& q.status_summary@ == q.status_line()
}

impl Pane {
    /// Shows what passes the hidden toggle and the filter.
    pub fn apply_filter(&mut self, show_hidden: bool)
        requires
            old(self).wf(),
        ensures
            final(self).wf(),
            filtered(*old(self), *final(self), show_hidden),
    {
        let lead_name = self.lead_name();
        let anchor_name = match self.anchor {
            Some(i) => {
                if i < self.entries.len() {
                    Some(self.entries[i].name.clone())
                } else {
                    None
                }
            },
            None => None,
        };
        let shown = filter_entries(&self.all_entries, show_hidden, self.filter.as_str());
        let ghost es = shown@;
        let mut kept: Vec<String> = Vec::new();
        let mut i: usize = 0;
        let ghost before = self.selected();
        assert(text::texts(kept@) =~= Seq::empty());
        while i < self.sel.len()
            invariant
                i <= self.sel@.len(),
                *self == *old(self),
                es == shown@,
                before == self.selected(),
                before.no_duplicates(),
                text::texts(kept@).no_duplicates(),
                forall|n: Seq<char>|
                    #[trigger] text::texts(kept@).contains(n) <==> (before.take(i as int).contains(n) && names_of(
                        es,
                    ).contains(n)),
            decreases self.sel@.len() - i,
        {
            let name = self.sel[i].clone();
            let ghost was = text::texts(kept@);
            let hit = find_name(&shown, name.as_str());
            proof {
                lemma_position(es, name@);
                assert(before.take(i + 1) =~= before.take(i as int).push(name@));
            }
            if hit.is_some() {
                proof {
                    if was.contains(name@) {
                        let k = choose|k: int| 0 <= k < i && before.take(i as int)[k] == name@;
                        assert(before[k] == before[i as int]);
                    }
                }
                kept.push(name);
                assert(text::texts(kept@) =~= was.push(name@));
            }
            proof {
                let now = text::texts(kept@);
                let listed = names_of(es).contains(name@);
                assert(now == (if listed {
                    was.push(name@)
                } else {
                    was
                }));
                assert forall|n: Seq<char>| now.contains(n) <==> (before.take(i + 1).contains(n) && names_of(es).contains(
                    n,
                )) by {
                    lemma_pushed(was, name@, n);
                    lemma_pushed(before.take(i as int), name@, n);
                    assert(was.contains(n) <==> (before.take(i as int).contains(n) && names_of(es).contains(n)));
                }
            }
            i += 1;
        }
        proof {
            assert(before.take(i as int) =~= before);
        }
        self.entries = shown;
        self.sel = kept;
        self.lead = match &lead_name {
            Some(n) => find_name(&self.entries, n.as_str()),
            None => None,
        };
        self.anchor = match &anchor_name {
            Some(n) => find_name(&self.entries, n.as_str()),
            None => None,
        };
        self.refresh_status_summary();
    }

    /// Takes a new listing of the current folder, or why there is none: puts it
    /// in order, filters it, and makes the pending pick where it was meant for
    /// this folder.
    pub fn reload_entries(
        &mut self,
        listed: Result<Vec<Entry>, String>,
        space: Option<(u64, u64)>,
        folder: Option<Entry>,
        show_hidden: bool,
    )
        requires
            old(self).wf(),
        ensures
            final(self).wf(),
            reloaded(*old(self), *final(self), listed, space, folder, show_hidden),
    {
        self.drive_space = space;
        match listed {
            Ok(es) => {
                let how = Sorting { style: self.style, key: self.sort_key, ascending: self.sort_asc };
                self.all_entries = sort_entries(&how, &self.folder_sizes, &es);
                self.entries_err = None;
            },
            Err(e) => {
                self.all_entries = Vec::new();
                self.entries_err = Some(e);
            },
        }
        let ghost p1 = *self;
        self.apply_filter(show_hidden);
        let ghost p2 = *self;
        self.sync_addr();
        self.entries_dirty = false;
        self.cur_entry = folder;
        let pick = self.select_after_reload.take();
        match pick {
            Some(x) => {
                if same_path(self.style, x.dir.as_str(), self.current_dir.as_str()) {
                    match find_name_any_case(&self.entries, x.name.as_str()) {
                        Some(i) => {
                            self.select_only(i);
                            self.scroll_target = Some(i);
                        },
                        None => {},
                    }
                }
            },
            None => {},
        }
        proof {
            assert(listing_taken(*old(self), p1, listed, space));
            assert(settled(p2, *self, folder));
        }
    }
}

/// The listing was taken in, in order.
pub open spec fn listing_taken(
    p: Pane,
    q: Pane,
    listed: Result<Vec<Entry>, String>,
    space: Option<(u64, u64)>,
) -> bool {
    &&& q == (Pane { drive_space: space, all_entries: q.all_entries, entries_err: q.entries_err, ..p })
    &&& match listed {
        Ok(es) => q.entries_err is None && listing::sorted_from(p.sorting(), p.folder_sizes, es@, q.all_entries@),
        Err(e) => q.entries_err == Some(e) && q.all_entries@.len() == 0,
    }
}

/// The row that a pending pick means here.
pub open spec fn picked_row(p: Pane) -> Option<usize> {
    match p.select_after_reload {
        Some(x) => if paths::same_path_spec(p.style, x.dir@, p.current_dir@) {
            position_any_case(p.entries@, x.name@, 0)
        } else {
            None
        },
        None => None,
    }
}

/// The pending pick was made or dropped, and the listing is current.
pub open spec fn settled(p: Pane, q: Pane, folder: Option<Entry>) -> bool {
    match picked_row(p) {
        Some(i) => q == (Pane {
            addr_edit: p.current_dir,
            entries_dirty: false,
            cur_entry: folder,
            select_after_reload: None,
            sel: q.sel,
            lead: Some(i),
            anchor: Some(i),
            scroll_target: Some(i),
            ..p
        }) && q.selected() == seq![p.entries@[i as int].name@],
        None => q == (Pane {
            addr_edit: p.current_dir,
            entries_dirty: false,
            cur_entry: folder,
            select_after_reload: None,
            ..p
        }),
    }
}

/// The pane took a listing: in order, filtered, and with the pending pick made.
pub open spec fn reloaded(
    p: Pane,
    q: Pane,
    listed: Result<Vec<Entry>, String>,
    space: Option<(u64, u64)>,
    folder: Option<Entry>,
    show_hidden: bool,
) -> bool {
    exists|a: Pane, b: Pane|
        #[trigger] listing_taken(p, a, listed, space) && filtered(a, b, show_hidden) && #[trigger] settled(b, q, folder)
}

proof fn lemma_position_from(es: Seq<Entry>, name: Seq<char>, i: int)
    requires
        0 <= i <= es.len(),
    ensures
        position(es, name, i) is Some ==> names_of(es).contains(name),
        position(es, name, i) is None ==> forall|k: int| i <= k < es.len() ==> (#[trigger] es[k]).name@ != name,
    decreases es.len() - i,
{
    if i < es.len() {
        if es[i].name@ == name {
            assert(names_of(es)[i] == name);
        } else {
            lemma_position_from(es, name, i + 1);
        }
    }
}

proof fn lemma_position(es: Seq<Entry>, name: Seq<char>)
    ensures
        position(es, name, 0) is Some <==> names_of(es).contains(name),
{
    lemma_position_from(es, name, 0);
    if position(es, name, 0) is None {
        assert forall|k: int| 0 <= k < names_of(es).len() implies #[trigger] names_of(es)[k] != name by {
            assert(es[k].name@ != name);
        }
    }
}

/// `q` is the nearest folder above `dir` that is there, or the topmost one.
pub open spec fn stepped_out<F: Fn(&str) -> bool>(style: PathStyle, dir: Seq<char>, q: Seq<char>, exists_at: F) -> bool {
    exists|k: nat|
        q == #[trigger] paths::above(style, dir, k) && (paths::parent_spec(style, q) is None || (k > 0
            && names::answered(exists_at, q, true))) && forall|j: nat|
            0 < j < k ==> names::answered(exists_at, #[trigger] paths::above(style, dir, j), false)
}

/// The pane left its folder where that is gone, to the nearest one above it that
/// is there.
pub open spec fn left_if_gone<F: Fn(&str) -> bool>(p: Pane, q: Pane, exists_at: F, left: bool) -> bool {
    &&& names::answered(exists_at, p.current_dir@, !left)
    &&& !left ==> q == p
    &&& left ==> {
        &&& q == (Pane {
            current_dir: q.current_dir,
            addr_edit: q.current_dir,
            sel: q.sel,
            lead: None,
            anchor: None,
            ..p
        })
        &&& q.selected().len() == 0
        &&& stepped_out(p.style, p.current_dir@, q.current_dir@, exists_at)
    }
}

impl Pane {
    /// If the folder one is in is gone, steps out to the nearest one above it
    /// that is there, in place. `exists_at` is asked about each. Whether it
    /// moved.
    pub fn step_out_if_gone<F: Fn(&str) -> bool>(&mut self, exists_at: F) -> (r: bool)
        requires
            forall|p: &str| #[trigger] call_requires(exists_at, (p,)),
        ensures
            left_if_gone(*old(self), *final(self), exists_at, r),
            old(self).wf() ==> final(self).wf(),
    {
        let here: &str = self.current_dir.as_str();
        let there = exists_at(here);
        assert(call_ensures(exists_at, (here,), there));
        if there {
            return false;
        }
        let style = self.style;
        let ghost dir = self.current_dir@;
        let mut p = self.current_dir.clone();
        let mut done = false;
        let mut k: Ghost<nat> = Ghost(0);
        while !done
            invariant
                forall|x: &str| #[trigger] call_requires(exists_at, (x,)),
                p@ == paths::above(style, dir, k@),
                !done ==> forall|j: nat|
                    0 < j <= k@ ==> names::answered(exists_at, #[trigger] paths::above(style, dir, j), false),
                done ==> stepped_out(style, dir, p@, exists_at),
            decreases p@.len(), (if done { 0int } else { 1int }),
        {
            proof {
                paths::lemma_parent_is_shorter(style, p@);
            }
            match parent(style, p.as_str()) {
                None => {
                    done = true;
                },
                Some(up) => {
                    let q: &str = up.as_str();
                    let yes = exists_at(q);
                    assert(call_ensures(exists_at, (q,), yes));
                    proof {
                        k@ = k@ + 1;
                        assert(up@ == paths::above(style, dir, k@));
                        assert(names::answered(exists_at, up@, yes));
                    }
                    if yes {
                        done = true;
                    }
                    p = up;
                },
            }
        }
        self.current_dir = p;
        self.sync_addr();
        self.clear_selection();
        true
    }
}

/// The folder we are in moved with the folder `from`, if it is in it.
pub open spec fn place_moved(p: Pane, q: Pane, from: Seq<char>, to: Seq<char>) -> bool {
    match location::reroot_spec(p.style, p.current_dir@, from, to) {
        Some(d) => q == (Pane { current_dir: q.current_dir, addr_edit: q.current_dir, ..p }) && q.current_dir@ == d,
        None => q == p,
    }
}

impl Pane {
    /// The folder `from` has the path `to` now: goes along where we are in it.
    pub fn follow(&mut self, from: &str, to: &str)
        ensures
            place_moved(*old(self), *final(self), from@, to@),
            old(self).wf() ==> final(self).wf(),
    {
        match location::reroot(self.style, self.current_dir.as_str(), from, to) {
            Some(p) => {
                self.current_dir = p;
                self.sync_addr();
            },
            None => {},
        }
    }
}

/// The paths of the selected entries are those of the shown entries whose names
/// are selected, each the name in the folder, and no others.
pub proof fn law_selected_paths(style: PathStyle, dir: Seq<char>, es: Seq<Entry>, sel: Seq<Seq<char>>, k: int)
    requires
        0 <= k <= es.len(),
    ensures
        forall|x: Seq<char>| #[trigger]
            paths_of(style, dir, es, sel, k).contains(x) <==> exists|i: int|
                0 <= i < k && sel.contains((#[trigger] es[i]).name@) && x == paths::join_spec(style, dir, es[i].name@),
        (forall|i: int| 0 <= i < k ==> sel.contains((#[trigger] es[i]).name@)) ==> paths_of(style, dir, es, sel, k).len()
            == k,
    decreases k,
{
    let b = paths_of(style, dir, es, sel, k);
    if k > 0 {
        law_selected_paths(style, dir, es, sel, k - 1);
        let a = paths_of(style, dir, es, sel, k - 1);
        let last = paths::join_spec(style, dir, es[k - 1].name@);
        assert forall|x: Seq<char>| #[trigger] b.contains(x) <==> exists|i: int|
            0 <= i < k && sel.contains((#[trigger] es[i]).name@) && x == paths::join_spec(style, dir, es[i].name@) by {
            if a.contains(x) {
                let j = choose|j: int| 0 <= j < a.len() && a[j] == x;
                assert(b[j] == x);
            }
            if sel.contains(es[k - 1].name@) {
                assert(b[b.len() - 1] == last);
            }
            if b.contains(x) {
                let j = choose|j: int| 0 <= j < b.len() && b[j] == x;
                if j < a.len() {
                    assert(a[j] == x);
                }
            }
        }
        if forall|i: int| 0 <= i < k ==> sel.contains((#[trigger] es[i]).name@) {
            assert(sel.contains(es[k - 1].name@));
        }
    }
}

/// A range reaches from the fixed end to the row, both included, whichever of them
/// is higher up: every row between is selected and nothing else; the fixed end
/// stays, or is the row itself where there was none.
pub proof fn law_range_reaches_both_ends(p: Pane, q: Pane, i: usize, a: usize)
    requires
        range_selected(p, q, i),
        i < p.entries@.len(),
        a < p.entries@.len(),
        p.anchor == Some(a) || (p.anchor is None && a == i),
    ensures
        q.lead == Some(i) && q.anchor == Some(a),
        forall|r: int|
            (a <= r <= i || i <= r <= a) ==> q.selected().contains((#[trigger] p.entries@[r]).name@),
        forall|n: Seq<char>| #[trigger]
            q.selected().contains(n) ==> exists|r: int| (a <= r <= i || i <= r <= a) && (#[trigger] p.entries@[r]).name@ == n,
{
    let (lo, hi) = if a < i {
        (a as int, i as int)
    } else {
        (i as int, a as int)
    };
    assert forall|r: int| (a <= r <= i || i <= r <= a) implies q.selected().contains((#[trigger] p.entries@[r]).name@) by {
        assert(named_between(p.entries@, lo, hi, p.entries@[r].name@));
    }
    assert forall|n: Seq<char>| #[trigger] q.selected().contains(n) implies exists|r: int|
        (a <= r <= i || i <= r <= a) && (#[trigger] p.entries@[r]).name@ == n by {
        assert(named_between(p.entries@, lo, hi, n));
    }
}

/// A toggle changes whether the row's own name is selected, and no other's.
pub proof fn law_toggle_changes_one_name(p: Pane, q: Pane, i: usize, n: Seq<char>)
    requires
        toggled(p, q, i),
        i < p.entries@.len(),
    ensures
        n == p.entries@[i as int].name@ ==> q.selected().contains(n) != p.selected().contains(n),
        n != p.entries@[i as int].name@ ==> q.selected().contains(n) == p.selected().contains(n),
        q.lead == Some(i) && q.entries == p.entries,
{
}

/// What operations act on alone: the cursor's row where it is selected, else the
/// one selected row; never a row that is not selected.
pub proof fn law_operations_act_on_the_selection(es: Seq<Entry>, sel: Seq<Seq<char>>, lead: Option<usize>)
    ensures
        target_row(es, sel, lead) matches Some(i) ==> sel.contains(es[i as int].name@) || es.len() > usize::MAX,
        lead matches Some(i) && i < es.len() && sel.contains(es[i as int].name@) ==> target_row(es, sel, lead) == lead,
        sel.len() == 0 ==> target_row(es, sel, lead) is None,
{
    if sel.len() == 1 {
        lemma_first_row(es, sel[0], 0);
        assert(sel.contains(sel[0]));
    }
}

/// The first row of a name.
proof fn lemma_first_row(es: Seq<Entry>, name: Seq<char>, i: int)
    requires
        0 <= i <= es.len(),
    ensures
        position(es, name, i) is None <==> forall|j: int| i <= j < es.len() ==> (#[trigger] es[j]).name@ != name,
        es.len() <= usize::MAX ==> (position(es, name, i) matches Some(r) ==> i <= r < es.len() && es[r as int].name@ == name
            && forall|j: int| i <= j < r ==> (#[trigger] es[j]).name@ != name),
    decreases es.len() - i,
{
    if i < es.len() && es[i].name@ != name {
        lemma_first_row(es, name, i + 1);
    }
}

/// A name that is taken here is refused, whatever its case, unless it is the one
/// that a rename may keep; one that no entry has and that is right in itself is
/// accepted.
pub proof fn law_taken_names_are_refused(es: Seq<Entry>, name: Seq<char>, allow: Option<Seq<char>>, i: int)
    requires
        names::name_error(name) is None,
    ensures
        0 <= i < es.len() && text::lower_text(es[i].name@) == text::lower_text(name) && (allow matches Some(a)
            ==> text::lower_text(a) != text::lower_text(name)) ==> listed_name_error(es, name, allow) == Some(
            "An item with that name already exists."@,
        ),
        (forall|j: int| 0 <= j < es.len() ==> text::lower_text((#[trigger] es[j]).name@) != text::lower_text(name))
            ==> listed_name_error(es, name, allow) is None,
        allow matches Some(a) && text::lower_text(a) == text::lower_text(name) ==> listed_name_error(es, name, allow) is None,
{
    if 0 <= i < es.len() && text::lower_text(es[i].name@) == text::lower_text(name) && (allow matches Some(a)
        ==> text::lower_text(a) != text::lower_text(name)) {
        assert(clashes(es, name, allow));
    }
}

/// The first of the rows, from one of them on and round the end.
proof fn lemma_next_row(es: Seq<Entry>, q: Seq<char>, start: int, off: int)
    requires
        0 <= off <= es.len() <= usize::MAX,
        0 <= start,
    ensures
        next_row(es, q, start, off) matches Some(i) ==> i < es.len() && q.is_prefix_of(
            text::lower_text(es[i as int].name@),
        ) && exists|o: int|
            off <= o < es.len() && i == #[trigger] wrapped(start, o, es.len() as int) && forall|m: int|
                off <= m < o ==> !q.is_prefix_of(
                    text::lower_text(es[#[trigger] wrapped(start, m, es.len() as int)].name@),
                ),
        next_row(es, q, start, off) is None ==> forall|m: int|
            off <= m < es.len() ==> !q.is_prefix_of(
                text::lower_text(es[#[trigger] wrapped(start, m, es.len() as int)].name@),
            ),
    decreases es.len() - off,
{
    let n = es.len() as int;
    if off < n {
        let i = wrapped(start, off, n);
        assert(0 <= i < n) by (nonlinear_arith)
            requires
                n > 0,
                i == (start + off) % n,
        ;
        if !starts_row(es, q, i) {
            lemma_next_row(es, q, start, off + 1);
            assert forall|m: int| off <= m < off + 1 implies !q.is_prefix_of(
                text::lower_text(es[#[trigger] wrapped(start, m, n)].name@),
            ) by {}
            if next_row(es, q, start, off) is Some {
                let r = next_row(es, q, start, off)->0;
                let o = choose|o: int|
                    off + 1 <= o < n && r == #[trigger] wrapped(start, o, n) && forall|m: int|
                        off + 1 <= m < o ==> !q.is_prefix_of(text::lower_text(es[#[trigger] wrapped(start, m, n)].name@));
                assert(r == wrapped(start, o, n));
            }
        }
    }
}

/// The row `m` rows behind `start`, round the end.
pub open spec fn wrapped(start: int, m: int, n: int) -> int {
    (start + m) % n
}

/// Typing jumps to an entry whose name starts with what was typed, without regard
/// to case: one is found exactly where there is one, it is selected alone with the
/// cursor on it, and after a pause of 900 milliseconds what was typed starts a new
/// search, which finds the first from the top.
pub proof fn law_typing_jumps_to_a_name(p: Pane, q: Pane, typed: Seq<char>, now: u64, hit: bool)
    requires
        jumped(p, q, typed, now, hit),
        0 < p.entries@.len() <= usize::MAX,
        typed.len() > 0,
    ensures
        hit ==> (q.lead matches Some(i) && i < p.entries@.len() && q.type_ahead@.is_prefix_of(
            text::lower_text(p.entries@[i as int].name@),
        ) && q.selected() == seq![p.entries@[i as int].name@] && q.scroll_target == Some(i)),
        !hit ==> q.lead == p.lead && q.sel == p.sel && forall|j: int|
            0 <= j < p.entries@.len() ==> !q.type_ahead@.is_prefix_of(text::lower_text((#[trigger] p.entries@[j]).name@)),
        now - p.type_ahead_time >= 900 ==> q.type_ahead@ == text::lower_text(typed) && (hit ==> forall|j: int|
            0 <= j < q.lead->0 ==> !q.type_ahead@.is_prefix_of(text::lower_text((#[trigger] p.entries@[j]).name@))),
        now - p.type_ahead_time < 900 && p.type_ahead@.len() > 1 ==> q.type_ahead@ == p.type_ahead@ + text::lower_text(
            typed,
        ),
{
    let low = text::lower_text(typed);
    let text = search_text(&p, low, now);
    let start = search_from(p, low, now);
    let n = p.entries@.len() as int;
    lemma_next_row(p.entries@, text, start, 0);
    if !hit {
        assert forall|j: int| 0 <= j < n implies !text.is_prefix_of(text::lower_text((#[trigger] p.entries@[j]).name@)) by {
            let m = (j - start) % n;
            assert(0 <= m < n) by (nonlinear_arith)
                requires
                    n > 0,
                    m == (j - start) % n,
            ;
            vstd::arithmetic::div_mod::lemma_add_mod_noop_right(start, j - start, n);
            vstd::arithmetic::div_mod::lemma_small_mod(j as nat, n as nat);
            assert(wrapped(start, m, n) == j);
        }
    }
    if hit && now - p.type_ahead_time >= 900 {
        let i = q.lead->0;
        let o = choose|o: int|
            0 <= o < n && i == #[trigger] wrapped(start, o, n) && forall|m: int|
                0 <= m < o ==> !text.is_prefix_of(text::lower_text(p.entries@[#[trigger] wrapped(start, m, n)].name@));
        vstd::arithmetic::div_mod::lemma_small_mod(o as nat, n as nat);
        assert forall|j: int| 0 <= j < i implies !text.is_prefix_of(text::lower_text((#[trigger] p.entries@[j]).name@)) by {
            vstd::arithmetic::div_mod::lemma_small_mod(j as nat, n as nat);
            assert(wrapped(start, j, n) == j);
        }
    }
}

/// What the status line counts: an entry more is one folder more or none, and its
/// size more, a file's own and a folder's as far as it was scanned.
pub proof fn law_status_counts_every_entry(sizes: Option<Vec<FolderSize>>, es: Seq<Entry>, e: Entry)
    ensures
        folder_count(es.push(e), es.len() as int + 1) == folder_count(es, es.len() as int) + (if e.is_dir {
            1int
        } else {
            0
        }),
        !e.is_dir ==> shown_total(sizes, es.push(e), es.len() as int + 1) == shown_total(sizes, es, es.len() as int) + e.size,
        e.is_dir && sizes is None ==> shown_total(sizes, es.push(e), es.len() as int + 1) == shown_total(
            sizes,
            es,
            es.len() as int,
        ),
        folder_count(Seq::empty(), 0) == 0 && shown_total(sizes, Seq::empty(), 0) == 0,
{
    lemma_counts_go_by_entries(sizes, es, es.push(e), es.len() as int);
}

proof fn lemma_counts_go_by_entries(sizes: Option<Vec<FolderSize>>, x: Seq<Entry>, y: Seq<Entry>, k: int)
    requires
        0 <= k <= x.len(),
        k <= y.len(),
        forall|i: int| 0 <= i < k ==> x[i] == y[i],
    ensures
        folder_count(x, k) == folder_count(y, k),
        shown_total(sizes, x, k) == shown_total(sizes, y, k),
    decreases k,
{
    if k > 0 {
        lemma_counts_go_by_entries(sizes, x, y, k - 1);
    }
}

/// Opening a folder puts the one that was left, with the item the cursor was on,
/// on top of the way back, cuts the way forward, and shows the new folder with
/// nothing selected and nothing filtered.
pub proof fn law_opening_remembers_the_way_back(p: Pane, q: Pane, dir: Seq<char>)
    requires
        opened(p, q, dir),
    ensures
        q.back_stack@.len() == p.back_stack@.len() + 1,
        q.back_stack@.last().dir@ == p.current_dir@,
        p.lead is Some && p.lead->0 < p.entries@.len() ==> (q.back_stack@.last().item matches Some(n) && n@
            == p.entries@[p.lead->0 as int].name@),
        p.lead is None ==> q.back_stack@.last().item is None,
        q.fwd_stack@.len() == 0,
        q.current_dir@ == dir || (dir.len() > 1 && q.current_dir@.len() == dir.len() && q.current_dir@.drop_first()
            == dir.drop_first()),
        q.addr_edit@ == q.current_dir@,
        q.filter@.len() == 0 && q.sel@.len() == 0 && q.lead is None && q.anchor is None && q.entries_dirty,
        q.sort_key == p.sort_key && q.sort_asc == p.sort_asc,
{
    assert(q.selected().len() == q.sel@.len());
    assert(location::upper_drive(dir).drop_first() =~= dir.drop_first());
}

/// When another part of the listing is shown, the cursor stays on its entry where
/// that is still shown, and what is selected is what was and is still shown.
pub proof fn law_filter_keeps_the_cursor(p: Pane, q: Pane, show_hidden: bool, i: usize, j: int)
    requires
        filtered(p, q, show_hidden),
        p.lead == Some(i),
        i < p.entries@.len(),
        0 <= j < q.entries@.len() <= usize::MAX,
        q.entries@[j].name@ == p.entries@[i as int].name@,
    ensures
        q.lead matches Some(r) && r < q.entries@.len() && q.entries@[r as int].name@ == p.entries@[i as int].name@,
        p.selected().contains(q.entries@[j].name@) ==> q.selected().contains(q.entries@[j].name@),
        forall|n: Seq<char>| #[trigger] q.selected().contains(n) ==> p.selected().contains(n),
        q.current_dir == p.current_dir && q.all_entries == p.all_entries && q.filter == p.filter,
{
    lemma_first_row(q.entries@, p.entries@[i as int].name@, 0);
    assert(names_of(q.entries@)[j] == q.entries@[j].name@);
}

/// A listing that was taken in holds the entries that were listed, and shows those
/// of them that are not hidden, or all where hidden ones are asked for, as far as
/// they pass the filter; a listing that failed shows nothing and says why.
pub proof fn law_reload_shows_the_folder(
    p: Pane,
    q: Pane,
    listed: Result<Vec<Entry>, String>,
    space: Option<(u64, u64)>,
    folder: Option<Entry>,
    show_hidden: bool,
)
    requires
        reloaded(p, q, listed, space, folder, show_hidden),
    ensures
        listed matches Ok(es) ==> {
            &&& q.all_entries@.len() == es@.len()
            &&& forall|e: Entry| #[trigger] q.all_entries@.contains(e) <==> es@.contains(e)
            &&& q.entries_err is None
            &&& p.filter@.len() == 0 ==> forall|e: Entry| #[trigger]
                q.entries@.contains(e) <==> es@.contains(e) && (show_hidden || !e.is_hidden)
        },
        listed matches Err(e) ==> q.entries_err == Some(e) && q.all_entries@.len() == 0 && q.entries@.len() == 0,
        !q.entries_dirty && q.drive_space == space && q.cur_entry == folder && q.select_after_reload is None,
        q.current_dir == p.current_dir,
{
    let (a, b) = choose|a: Pane, b: Pane|
        #[trigger] listing_taken(p, a, listed, space) && filtered(a, b, show_hidden) && #[trigger] settled(b, q, folder);
    if let Ok(es) = listed {
        let _ = listing::law_sorting_keeps_the_entries(p.sorting(), p.folder_sizes, es@, a.all_entries@);
        if p.filter@.len() == 0 {
            assert(text::trim(p.filter@).len() == 0);
            assert forall|e: Entry| #[trigger] q.entries@.contains(e) <==> es@.contains(e) && (show_hidden || !e.is_hidden) by {
                if a.all_entries@.contains(e) {
                    listing::law_list_shows_what_passes(a.all_entries@, show_hidden, p.filter@, e);
                }
                if q.entries@.contains(e) {
                    let f = listing::filter_text(p.filter@);
                    listing::law_filter_only_narrows(a.all_entries@, show_hidden, f);
                    let k = choose|k: int| 0 <= k < b.entries@.len() && b.entries@[k] == e;
                    assert(listing::visible(a.all_entries@, show_hidden, f)[k] == e);
                    assert(a.all_entries@.contains(e));
                }
            }
        }
    } else {
        listing::law_filter_only_narrows(a.all_entries@, show_hidden, listing::filter_text(p.filter@));
    }
}

/// What is to be picked in a folder is picked once the folder is listed: where an
/// entry that is shown has the name, it is selected alone, with the cursor on it.
pub proof fn law_pick_is_made(
    p: Pane,
    q: Pane,
    listed: Result<Vec<Entry>, String>,
    space: Option<(u64, u64)>,
    folder: Option<Entry>,
    show_hidden: bool,
    j: int,
)
    requires
        reloaded(p, q, listed, space, folder, show_hidden),
        p.select_after_reload is Some,
        p.select_after_reload->0.dir@ == p.current_dir@,
        0 <= j < q.entries@.len() <= usize::MAX,
        q.entries@[j].name@ == p.select_after_reload->0.name@,
    ensures
        q.lead matches Some(i) && i <= j && q.selected() == seq![q.entries@[i as int].name@] && text::same_but_ascii_case(
            q.entries@[i as int].name@,
            p.select_after_reload->0.name@,
        ),
        q.scroll_target == q.lead,
{
    let (a, b) = choose|a: Pane, b: Pane|
        #[trigger] listing_taken(p, a, listed, space) && filtered(a, b, show_hidden) && #[trigger] settled(b, q, folder);
    lemma_position_any_case(b.entries@, p.select_after_reload->0.name@, 0, j);
}

proof fn lemma_position_any_case(es: Seq<Entry>, name: Seq<char>, i: int, j: int)
    requires
        0 <= i <= j < es.len() <= usize::MAX,
        es[j].name@ == name,
    ensures
        position_any_case(es, name, i) matches Some(r) && i <= r <= j && text::same_but_ascii_case(
            es[r as int].name@,
            name,
        ),
    decreases j - i,
{
    if !text::same_but_ascii_case(es[i].name@, name) {
        lemma_position_any_case(es, name, i + 1, j);
    }
}

/// Going up leads to the parent folder and picks there the folder that was left;
/// the way back leads to where one was.
pub proof fn law_up_picks_the_folder_left(p: Pane, q: Pane)
    requires
        went_up(p, q),
        paths::parent_spec(p.style, p.current_dir@) is Some,
        paths::file_name_spec(p.style, p.current_dir@) is Some,
    ensures
        q.select_after_reload is Some,
        q.select_after_reload->0.name@ == paths::file_name_spec(p.style, p.current_dir@)->0,
        q.select_after_reload->0.dir@ == paths::parent_spec(p.style, p.current_dir@)->0,
        q.entries_dirty,
        paths::same_path_spec(
            p.style,
            q.current_dir@,
            location::upper_drive(paths::parent_spec(p.style, p.current_dir@)->0),
        ),
        q.back_stack@ == p.back_stack@ || (q.back_stack@.len() == p.back_stack@.len() + 1 && q.back_stack@.last().dir
            == p.current_dir),
{
}

/// After an edit the new name is picked in this folder, and no filter hides it.
pub proof fn law_edited_item_is_picked(p: Pane, q: Pane, name: Seq<char>)
    requires
        edited(p, q, name),
    ensures
        q.select_after_reload is Some,
        q.select_after_reload->0.name@ == name,
        q.select_after_reload->0.dir@ == p.current_dir@,
        q.filter@.len() == 0,
        q.entries_dirty,
        q.current_dir == p.current_dir,
        q.back_stack == p.back_stack && q.fwd_stack == p.fwd_stack,
{
}

/// Back and forward lead to the newest visit of their stack, with nothing
/// filtered or selected, and the visit that was left goes on the other stack.
pub proof fn law_steps_through_the_visits(p: Pane, q: Pane)
    ensures
        went_back(p, q) ==> {
            &&& q.current_dir == p.back_stack@.last().dir && q.addr_edit == q.current_dir
            &&& q.back_stack@ == p.back_stack@.take(p.back_stack@.len() - 1)
            &&& q.fwd_stack@.len() == p.fwd_stack@.len() + 1 && q.fwd_stack@.last().dir == p.current_dir
        },
        went_forward(p, q) ==> {
            &&& q.current_dir == p.fwd_stack@.last().dir && q.addr_edit == q.current_dir
            &&& q.fwd_stack@ == p.fwd_stack@.take(p.fwd_stack@.len() - 1)
            &&& q.back_stack@.len() == p.back_stack@.len() + 1 && q.back_stack@.last().dir == p.current_dir
        },
        went_back(p, q) || went_forward(p, q) ==> q.filter@.len() == 0 && q.selected().len() == 0 && q.entries_dirty,
{
    if went_back(p, q) {
        assert(p.back_stack@.drop_last() =~= p.back_stack@.take(p.back_stack@.len() - 1));
    }
    if went_forward(p, q) {
        assert(p.fwd_stack@.drop_last() =~= p.fwd_stack@.take(p.fwd_stack@.len() - 1));
    }
}

/// A folder that is there is not left. One that is gone is left for a folder above
/// it, which is there or has none above it, and no folder between the two is there.
pub proof fn law_gone_folder_is_left<F: Fn(&str) -> bool>(p: Pane, q: Pane, exists_at: F, left: bool)
    requires
        left_if_gone(p, q, exists_at, left),
        forall|s: &str, b: bool| #[trigger] call_ensures(exists_at, (s,), b) ==> b == exists_there(exists_at, s@),
    ensures
        left <==> !exists_there(exists_at, p.current_dir@),
        !left ==> q == p,
        left ==> exists_there(exists_at, q.current_dir@) || paths::parent_spec(p.style, q.current_dir@) is None,
        left ==> exists|k: nat|
            q.current_dir@ == #[trigger] paths::above(p.style, p.current_dir@, k) && forall|j: nat|
                0 < j < k ==> !exists_there(exists_at, #[trigger] paths::above(p.style, p.current_dir@, j)),
        q.back_stack == p.back_stack && q.fwd_stack == p.fwd_stack,
{
    if left {
        let k = choose|k: nat|
            q.current_dir@ == #[trigger] paths::above(p.style, p.current_dir@, k) && (paths::parent_spec(
                p.style,
                q.current_dir@,
            ) is None || (k > 0 && names::answered(exists_at, q.current_dir@, true))) && forall|j: nat|
                0 < j < k ==> names::answered(exists_at, #[trigger] paths::above(p.style, p.current_dir@, j), false);
        assert forall|j: nat| 0 < j < k implies !exists_there(
            exists_at,
            #[trigger] paths::above(p.style, p.current_dir@, j),
        ) by {
            assert(names::answered(exists_at, paths::above(p.style, p.current_dir@, j), false));
        }
    }
}

/// The path can have been found to be there.
pub open spec fn exists_there<F: Fn(&str) -> bool>(exists_at: F, path: Seq<char>) -> bool {
    names::answered(exists_at, path, true)
}

/// The same letter typed again, before a pause of 900 milliseconds, goes on to the
/// next entry below the cursor that starts with it.
pub proof fn law_same_letter_goes_on(p: Pane, q: Pane, typed: Seq<char>, now: u64, hit: bool, i: int, j: int)
    requires
        jumped(p, q, typed, now, hit),
        p.entries@.len() <= usize::MAX,
        typed.len() > 0,
        now - p.type_ahead_time < 900,
        text::lower_text(typed).len() == 1 && p.type_ahead@ == text::lower_text(typed),
        p.lead == Some(i as usize),
        0 <= i < j < p.entries@.len(),
        text::lower_text(typed).is_prefix_of(text::lower_text(p.entries@[j].name@)),
        forall|k: int|
            i < k < j ==> !text::lower_text(typed).is_prefix_of(text::lower_text((#[trigger] p.entries@[k]).name@)),
    ensures
        hit,
        q.lead == Some(j as usize),
        q.selected() == seq![p.entries@[j].name@],
        q.type_ahead@ == p.type_ahead@,
{
    lemma_row_found(p.entries@, text::lower_text(typed), i + 1, 0, j);
}

proof fn lemma_row_found(es: Seq<Entry>, q: Seq<char>, start: int, off: int, j: int)
    requires
        es.len() <= usize::MAX,
        0 <= start,
        0 <= off,
        start + off <= j < es.len(),
        starts_row(es, q, j),
        forall|k: int| start + off <= k < j ==> !q.is_prefix_of(text::lower_text((#[trigger] es[k]).name@)),
    ensures
        next_row(es, q, start, off) == Some(j as usize),
    decreases j - off,
{
    vstd::arithmetic::div_mod::lemma_small_mod((start + off) as nat, es.len());
    if start + off < j {
        assert(!q.is_prefix_of(text::lower_text(es[start + off].name@)));
        lemma_row_found(es, q, start, off + 1, j);
    }
}

/// The row that a range starts from stays on its entry too, where that is still
/// shown; cursor and start are gone where their entries are.
pub proof fn law_filter_keeps_the_start_of_a_range(p: Pane, q: Pane, show_hidden: bool, i: usize)
    requires
        filtered(p, q, show_hidden),
        p.anchor == Some(i),
        i < p.entries@.len(),
        q.entries@.len() <= usize::MAX,
    ensures
        names_of(q.entries@).contains(p.entries@[i as int].name@) ==> (q.anchor matches Some(r) && r < q.entries@.len()
            && q.entries@[r as int].name@ == p.entries@[i as int].name@),
        !names_of(q.entries@).contains(p.entries@[i as int].name@) ==> q.anchor is None,
{
    let name = p.entries@[i as int].name@;
    lemma_first_row(q.entries@, name, 0);
    lemma_position_from(q.entries@, name, 0);
    if names_of(q.entries@).contains(name) {
        let j = names_of(q.entries@).index_of(name);
        assert(q.entries@[j].name@ == name);
    }
}

} // verus!
