//! What a file list shows of its entries: kinds, sizes, order and filter.
use vstd::prelude::*;
use crate::browse::Entry;
use crate::filetype::{self, categorize_in};
use crate::order::{self, Rows};
use crate::paths::PathStyle;
use crate::text::{self, chars_of, same_text, to_lower_text};

verus! {

/// File-list sort column.
#[derive(Clone, Copy, Debug, PartialEq, Eq, Structural)]
pub enum SortKey {
    Name,
    Size,
    Kind,
    Modified,
}

/// The stable name a sort column is saved under.
pub open spec fn sort_key_name(k: SortKey) -> Seq<char> {
    match k {
        SortKey::Name => "name"@,
        SortKey::Size => "size"@,
        SortKey::Kind => "kind"@,
        SortKey::Modified => "modified"@,
    }
}

/// The column of a saved name; anything else is the name column.
pub open spec fn sort_key_from(s: Seq<char>) -> SortKey {
    if s == "size"@ {
        SortKey::Size
    } else if s == "kind"@ {
        SortKey::Kind
    } else if s == "modified"@ {
        SortKey::Modified
    } else {
        SortKey::Name
    }
}

impl SortKey {
    /// Stable name for persistence.
    pub fn name(self) -> (r: &'static str)
        ensures
            r@ == sort_key_name(self),
    {
        match self {
            SortKey::Name => "name",
            SortKey::Size => "size",
            SortKey::Kind => "kind",
            SortKey::Modified => "modified",
        }
    }

    /// The column of a saved name.
    pub fn from_name(s: &str) -> (r: SortKey)
        ensures
            r == sort_key_from(s@),
    {
        if same_text(s, "size") {
            SortKey::Size
        } else if same_text(s, "kind") {
            SortKey::Kind
        } else if same_text(s, "modified") {
            SortKey::Modified
        } else {
            SortKey::Name
        }
    }
}

/// A sort column comes back from its saved name.
pub proof fn law_sort_key_round_trip(k: SortKey)
    ensures
        sort_key_from(sort_key_name(k)) == k,
{
    reveal_strlit("name");
    reveal_strlit("size");
    reveal_strlit("kind");
    reveal_strlit("modified");
    assert("name"@[0] == 'n' && "size"@[0] == 's' && "kind"@[0] == 'k' && "modified"@[0] == 'm');
}

/// A short kind for an entry.
pub open spec fn kind_label(style: PathStyle, e: Entry) -> Seq<char> {
    if e.is_dir {
        "Folder"@
    } else {
        filetype::label_spec(filetype::category_spec(style, e.name@))
    }
}

/// A short kind for an entry: what the Type column shows and sorts by.
pub fn entry_kind(style: PathStyle, e: &Entry) -> (r: &'static str)
    ensures
        r@ == kind_label(style, *e),
{
    if e.is_dir {
        "Folder"
    } else {
        categorize_in(style, e.name.as_str()).label()
    }
}

/// The scanned size of one subfolder, by its lowercase name.
pub struct FolderSize {
    pub name: String,
    pub bytes: u64,
}

/// The bytes of the last of the first `k` that has the name.
pub open spec fn size_of_folder(v: Seq<FolderSize>, name: Seq<char>, k: int) -> Option<u64>
    decreases k,
{
    if k <= 0 {
        None
    } else if v[k - 1].name@ == name {
        Some(v[k - 1].bytes)
    } else {
        size_of_folder(v, name, k - 1)
    }
}

/// The scanned size of an entry's folder, where one is known.
pub open spec fn known_size(sizes: Option<Vec<FolderSize>>, e: Entry) -> Option<u64> {
    match sizes {
        Some(v) => size_of_folder(v@, text::lower_text(e.name@), v@.len() as int),
        None => None,
    }
}

/// The size an entry is shown and sorted with: a file's own, a folder's scanned
/// one where it is known, 0 otherwise.
pub open spec fn shown_size(sizes: Option<Vec<FolderSize>>, e: Entry) -> u64 {
    if e.is_dir {
        match known_size(sizes, e) {
            Some(b) => b,
            None => 0,
        }
    } else {
        e.size
    }
}

/// The scanned size of a folder of that name.
pub fn folder_size(sizes: &Option<Vec<FolderSize>>, e: &Entry) -> (r: Option<u64>)
    ensures
        r == known_size(*sizes, *e),
{
    match sizes {
        None => None,
        Some(v) => {
            let name = to_lower_text(e.name.as_str());
            let mut k: usize = v.len();
            while k > 0
                invariant
                    k <= v@.len(),
                    known_size(*sizes, *e) == size_of_folder(v@, name@, v@.len() as int),
                    size_of_folder(v@, name@, v@.len() as int) == size_of_folder(v@, name@, k as int),
                decreases k,
            {
                if same_text(v[k - 1].name.as_str(), name.as_str()) {
                    return Some(v[k - 1].bytes);
                }
                k -= 1;
            }
            None
        },
    }
}

/// The size an entry is shown and sorted with.
pub fn entry_size(sizes: &Option<Vec<FolderSize>>, e: &Entry) -> (r: u64)
    ensures
        r == shown_size(*sizes, *e),
{
    if e.is_dir {
        match folder_size(sizes, e) {
            Some(b) => b,
            None => 0,
        }
    } else {
        e.size
    }
}

/// How a list is ordered.
pub struct Sorting {
    pub style: PathStyle,
    pub key: SortKey,
    pub ascending: bool,
}

/// Characters as numbers.
pub open spec fn codes(s: Seq<char>) -> Seq<int> {
    s.map_values(|c: char| c as int)
}

/// What an entry is ordered by: its name without regard to case, its size, its
/// kind, or when it was modified (an unknown time before every other).
pub open spec fn entry_key(how: Sorting, sizes: Option<Vec<FolderSize>>, e: Entry) -> Seq<int> {
    match how.key {
        SortKey::Name => codes(text::lower_text(e.name@)),
        SortKey::Size => seq![shown_size(sizes, e) as int],
        SortKey::Kind => codes(kind_label(how.style, e)),
        SortKey::Modified => match e.modified {
            Some(t) => seq![t.secs as int, t.nanos as int],
            None => Seq::empty(),
        },
    }
}

/// `a` has to stand before `b`: folders first, then by the key in the chosen
/// direction.
pub open spec fn entry_precedes(how: Sorting, sizes: Option<Vec<FolderSize>>, a: Entry, b: Entry) -> bool {
    if a.is_dir != b.is_dir {
        a.is_dir
    } else if how.ascending {
        order::lex_less(entry_key(how, sizes, a), entry_key(how, sizes, b))
    } else {
        order::lex_less(entry_key(how, sizes, b), entry_key(how, sizes, a))
    }
}

/// `r` is `es` taken at the positions `p`, every one once.
pub open spec fn taken_at(es: Seq<Entry>, r: Seq<Entry>, p: Seq<usize>) -> bool {
    &&& r.len() == es.len()
    &&& p.len() == es.len()
    &&& forall|i: int| 0 <= i < p.len() ==> (#[trigger] p[i]) < es.len() && r[i] == es[p[i] as int]
}

/// Entries stand in their order, and those that neither has to stand before the
/// other as they stood.
pub open spec fn placed(how: Sorting, sizes: Option<Vec<FolderSize>>, es: Seq<Entry>, p: Seq<usize>) -> bool {
    forall|i: int, j: int|
        0 <= i < j < p.len() ==> {
            let (x, y) = ((#[trigger] p[i]) as int, (#[trigger] p[j]) as int);
            entry_precedes(how, sizes, es[x], es[y]) || (!entry_precedes(how, sizes, es[y], es[x]) && x < y)
        }
}

/// `r` is `es` in order.
pub open spec fn sorted_from(how: Sorting, sizes: Option<Vec<FolderSize>>, es: Seq<Entry>, r: Seq<Entry>) -> bool {
    exists|p: Seq<usize>| #[trigger] taken_at(es, r, p) && placed(how, sizes, es, p)
}

fn key_of(how: &Sorting, sizes: &Option<Vec<FolderSize>>, e: &Entry) -> (r: Vec<i128>)
    ensures
        order::ints(r@) == entry_key(*how, *sizes, *e),
{
    let mut out: Vec<i128> = Vec::new();
    match how.key {
        SortKey::Name => {
            let v = chars_of(to_lower_text(e.name.as_str()).as_str());
            push_codes(&mut out, &v);
        },
        SortKey::Size => {
            out.push(entry_size(sizes, e) as i128);
        },
        SortKey::Kind => {
            let v = chars_of(entry_kind(how.style, e));
            push_codes(&mut out, &v);
        },
        SortKey::Modified => match e.modified {
            Some(t) => {
                out.push(t.secs as i128);
                out.push(t.nanos as i128);
            },
            None => {},
        },
    }
    assert(order::ints(out@) =~= entry_key(*how, *sizes, *e));
    out
}

/// A text as a key to order by.
pub(crate) fn text_key(s: &str) -> (r: Vec<i128>)
    ensures
        order::ints(r@) == codes(s@),
{
    let mut out: Vec<i128> = Vec::new();
    let v = chars_of(s);
    push_codes(&mut out, &v);
    out
}

fn push_codes(out: &mut Vec<i128>, v: &Vec<char>)
    requires
        old(out)@.len() == 0,
    ensures
        order::ints(final(out)@) == codes(v@),
{
    let mut i: usize = 0;
    while i < v.len()
        invariant
            i <= v@.len(),
            out@.len() == i,
            forall|k: int| 0 <= k < i ==> #[trigger] out@[k] == v@[k] as int,
        decreases v@.len() - i,
    {
        let c: char = v[i];
        proof {
            text::lemma_scalar(c);
        }
        out.push(c as u32 as i128);
        i += 1;
    }
    assert(order::ints(out@) =~= codes(v@));
}

/// The entries in order.
pub fn sort_entries(how: &Sorting, sizes: &Option<Vec<FolderSize>>, es: &Vec<Entry>) -> (r: Vec<Entry>)
    ensures
        sorted_from(*how, *sizes, es@, r@),
{
    let mut rows = Rows { ahead: Vec::new(), keys: Vec::new(), ascending: how.ascending };
    let mut i: usize = 0;
    while i < es.len()
        invariant
            i <= es@.len(),
            rows.ahead@.len() == i,
            rows.keys@.len() == i,
            rows.ascending == how.ascending,
            forall|k: int| 0 <= k < i ==> (#[trigger] rows.ahead@[k]) == es@[k].is_dir,
            forall|k: int| 0 <= k < i ==> rows.key(k) == #[trigger] entry_key(*how, *sizes, es@[k]),
        decreases es@.len() - i,
    {
        let ghost before = rows;
        let key = key_of(how, sizes, &es[i]);
        rows.ahead.push(es[i].is_dir);
        rows.keys.push(key);
        proof {
            assert forall|k: int| 0 <= k < i + 1 implies rows.key(k) == #[trigger] entry_key(*how, *sizes, es@[k]) by {
                if k < i {
                    assert(rows.keys@[k] == before.keys@[k]);
                    assert(before.key(k) == entry_key(*how, *sizes, es@[k]));
                }
            }
        }
        i += 1;
    }
    let p = rows.sorted();
    let mut out: Vec<Entry> = Vec::new();
    let mut j: usize = 0;
    while j < p.len()
        invariant
            j <= p@.len(),
            p@.len() == es@.len(),
            forall|k: int| 0 <= k < p@.len() ==> (#[trigger] p@[k]) < es@.len(),
            out@.len() == j,
            forall|k: int| 0 <= k < j ==> (#[trigger] out@[k]) == es@[p@[k] as int],
        decreases p@.len() - j,
    {
        let e = es[p[j]].copy();
        out.push(e);
        j += 1;
    }
    proof {
        assert(taken_at(es@, out@, p@));
        assert forall|a: int, b: int| 0 <= a < b < p@.len() implies ({
            let (x, y) = ((#[trigger] p@[a]) as int, (#[trigger] p@[b]) as int);
            entry_precedes(*how, *sizes, es@[x], es@[y]) || (!entry_precedes(*how, *sizes, es@[y], es@[x]) && x < y)
        }) by {
            let (x, y) = (p@[a] as int, p@[b] as int);
            assert(rows.before(x, y));
            assert(rows.key(x) == entry_key(*how, *sizes, es@[x]));
            assert(rows.key(y) == entry_key(*how, *sizes, es@[y]));
        }
    }
    out
}

/// `t` occurs in `s`.
pub open spec fn contains_text(s: Seq<char>, t: Seq<char>) -> bool {
    exists|i: int| 0 <= i <= s.len() - t.len() && #[trigger] s.subrange(i, i + t.len()) == t
}

/// What a filter looks for: its text without white space around it, in lower
/// case.
pub open spec fn filter_text(filter: Seq<char>) -> Seq<char> {
    text::lower_text(text::trim(filter))
}

/// Whether an entry passes the hidden toggle and the filter.
pub open spec fn passes(e: Entry, show_hidden: bool, f: Seq<char>) -> bool {
    (show_hidden || !e.is_hidden) && (f.len() == 0 || contains_text(text::lower_text(e.name@), f))
}

/// The entries that pass, in order.
pub open spec fn visible(es: Seq<Entry>, show_hidden: bool, f: Seq<char>) -> Seq<Entry>
    decreases es.len(),
{
    if es.len() == 0 {
        Seq::empty()
    } else if passes(es.last(), show_hidden, f) {
        visible(es.drop_last(), show_hidden, f).push(es.last())
    } else {
        visible(es.drop_last(), show_hidden, f)
    }
}

fn has_text(s: &Vec<char>, t: &Vec<char>) -> (r: bool)
    ensures
        r == contains_text(s@, t@),
{
    if t.len() > s.len() {
        return false;
    }
    let n: usize = s.len();
    let last: usize = n - t.len();
    let mut i: usize = 0;
    while i <= last
        invariant
            n == s@.len(),
            last == s@.len() - t@.len(),
            t@.len() <= s@.len(),
            i <= last + 1,
            forall|k: int| 0 <= k < i ==> #[trigger] s@.subrange(k, k + t@.len()) != t@,
        decreases last + 1 - i,
    {
        assert(t@.subrange(0, t@.len() as int) =~= t@);
        if text::same_range(s, i, i + t.len(), t, 0, t.len()) {
            assert(s@.subrange(i as int, i + t@.len()) == t@);
            return true;
        }
        if i == last {
            return false;
        }
        i += 1;
    }
    false
}

/// The entries that pass the hidden toggle and the filter, in order.
pub fn filter_entries(es: &Vec<Entry>, show_hidden: bool, filter: &str) -> (r: Vec<Entry>)
    ensures
        r@ == visible(es@, show_hidden, filter_text(filter@)),
{
    let f = chars_of(to_lower_text(text::trimmed(filter).as_str()).as_str());
    let mut out: Vec<Entry> = Vec::new();
    let mut i: usize = 0;
    assert(es@.take(0) =~= Seq::empty());
    while i < es.len()
        invariant
            i <= es@.len(),
            f@ == filter_text(filter@),
            out@ == visible(es@.take(i as int), show_hidden, f@),
        decreases es@.len() - i,
    {
        assert(es@.take(i + 1).drop_last() =~= es@.take(i as int));
        assert(es@.take(i + 1).last() == es@[i as int]);
        let e = &es[i];
        let mut pass = show_hidden || !e.is_hidden;
        if pass && f.len() > 0 {
            let low = chars_of(to_lower_text(e.name.as_str()).as_str());
            pass = has_text(&low, &f);
        }
        if pass {
            out.push(e.copy());
        }
        i += 1;
    }
    assert(es@.take(i as int) =~= es@);
    out
}

/// Without a filter and with hidden entries shown, everything is visible; what
/// is visible is among the entries and passes.
pub proof fn law_filter_only_narrows(es: Seq<Entry>, show_hidden: bool, f: Seq<char>)
    ensures
        show_hidden && f.len() == 0 ==> visible(es, show_hidden, f) == es,
        visible(es, show_hidden, f).len() <= es.len(),
        forall|i: int|
            0 <= i < visible(es, show_hidden, f).len() ==> passes(
                #[trigger] visible(es, show_hidden, f)[i],
                show_hidden,
                f,
            ) && es.contains(visible(es, show_hidden, f)[i]),
    decreases es.len(),
{
    if es.len() > 0 {
        let rest = es.drop_last();
        law_filter_only_narrows(rest, show_hidden, f);
        let v = visible(es, show_hidden, f);
        if show_hidden && f.len() == 0 {
            assert(v =~= es);
        }
        assert forall|i: int| 0 <= i < v.len() implies passes(#[trigger] v[i], show_hidden, f) && es.contains(v[i]) by {
            if i < visible(rest, show_hidden, f).len() {
                let x = visible(rest, show_hidden, f)[i];
                assert(v[i] == x);
                let k = choose|k: int| 0 <= k < rest.len() && rest[k] == x;
                assert(es[k] == x);
            } else {
                assert(es[es.len() - 1] == v[i]);
            }
        }
    }
}

/// A list in order holds the entries that it was made from, each in one place.
pub proof fn law_sorting_keeps_the_entries(
    how: Sorting,
    sizes: Option<Vec<FolderSize>>,
    es: Seq<Entry>,
    r: Seq<Entry>,
) -> (p: Seq<usize>)
    requires
        sorted_from(how, sizes, es, r),
    ensures
        r.len() == es.len(),
        p.len() == es.len(),
        p.no_duplicates(),
        forall|i: int| 0 <= i < r.len() ==> (#[trigger] p[i]) < es.len() && r[i] == es[p[i] as int],
        forall|e: Entry| #[trigger] r.contains(e) <==> es.contains(e),
        placed(how, sizes, es, p),
{
    let p = choose|p: Seq<usize>| #[trigger] taken_at(es, r, p) && placed(how, sizes, es, p);
    assert forall|i: int, j: int| 0 <= i < p.len() && 0 <= j < p.len() && i != j implies p[i] != p[j] by {
        let (a, b) = if i < j {
            (i, j)
        } else {
            (j, i)
        };
        let e = es[p[a] as int];
        if p[a] == p[b] {
            order::lemma_not_less_than_itself(entry_key(how, sizes, e));
            assert(entry_precedes(how, sizes, es[p[a] as int], es[p[b] as int]) || p[a] < p[b]);
        }
    }
    order::lemma_every_position(p);
    assert forall|e: Entry| #[trigger] r.contains(e) <==> es.contains(e) by {
        if es.contains(e) {
            let x = choose|x: int| 0 <= x < es.len() && es[x] == e;
            assert(order::positions(p).contains(x));
            let i = choose|i: int| 0 <= i < p.len() && order::positions(p)[i] == x;
            assert(r[i] == e);
        }
        if r.contains(e) {
            let i = choose|i: int| 0 <= i < r.len() && r[i] == e;
            assert(es[p[i] as int] == e);
        }
    }
    p
}

/// In every order of the list the folders stand before the files.
pub proof fn law_folders_stand_first(
    how: Sorting,
    sizes: Option<Vec<FolderSize>>,
    es: Seq<Entry>,
    r: Seq<Entry>,
    i: int,
    j: int,
)
    requires
        sorted_from(how, sizes, es, r),
        0 <= i < j < r.len(),
    ensures
        r[j].is_dir ==> r[i].is_dir,
{
    let p = law_sorting_keeps_the_entries(how, sizes, es, r);
    let (x, y) = (p[i] as int, p[j] as int);
    assert(entry_precedes(how, sizes, es[x], es[y]) || (!entry_precedes(how, sizes, es[y], es[x]) && x < y));
}

proof fn lemma_one_of_two(
    how: Sorting,
    sizes: Option<Vec<FolderSize>>,
    es: Seq<Entry>,
    r: Seq<Entry>,
    i: int,
    j: int,
)
    requires
        sorted_from(how, sizes, es, r),
        0 <= i < j < r.len(),
        r[i].is_dir == r[j].is_dir,
    ensures
        how.ascending ==> !order::lex_less(entry_key(how, sizes, r[j]), entry_key(how, sizes, r[i])),
        !how.ascending ==> !order::lex_less(entry_key(how, sizes, r[i]), entry_key(how, sizes, r[j])),
{
    let p = law_sorting_keeps_the_entries(how, sizes, es, r);
    let (x, y) = (p[i] as int, p[j] as int);
    assert(entry_precedes(how, sizes, es[x], es[y]) || (!entry_precedes(how, sizes, es[y], es[x]) && x < y));
    order::lemma_less_one_way(entry_key(how, sizes, r[i]), entry_key(how, sizes, r[j]));
}

/// Sorted by Modified: among files, and among folders, of two with known times
/// the earlier stands first when ascending and last when descending, by the seconds
/// and then by the nanoseconds; one whose time is not known counts as earlier than
/// all others.
pub proof fn law_sorted_by_modified(
    how: Sorting,
    sizes: Option<Vec<FolderSize>>,
    es: Seq<Entry>,
    r: Seq<Entry>,
    i: int,
    j: int,
)
    requires
        sorted_from(how, sizes, es, r),
        how.key == SortKey::Modified,
        0 <= i < j < r.len(),
        r[i].is_dir == r[j].is_dir,
    ensures
        r[i].modified is Some && r[j].modified is Some ==> {
            let (a, b) = (r[i].modified->0, r[j].modified->0);
            if how.ascending {
                a.secs < b.secs || (a.secs == b.secs && a.nanos <= b.nanos)
            } else {
                a.secs > b.secs || (a.secs == b.secs && a.nanos >= b.nanos)
            }
        },
        how.ascending && r[j].modified is None ==> r[i].modified is None,
        !how.ascending && r[i].modified is None ==> r[j].modified is None,
{
    lemma_one_of_two(how, sizes, es, r, i, j);
    reveal_with_fuel(order::lex_less, 3);
    let (k, l) = (entry_key(how, sizes, r[i]), entry_key(how, sizes, r[j]));
    if r[i].modified is Some && r[j].modified is Some {
        assert(k.drop_first()[0] == r[i].modified->0.nanos && l.drop_first()[0] == r[j].modified->0.nanos);
    }
}

/// Sorted by Size: of two files the smaller stands first when ascending and last
/// when descending.
pub proof fn law_sorted_by_size(
    how: Sorting,
    sizes: Option<Vec<FolderSize>>,
    es: Seq<Entry>,
    r: Seq<Entry>,
    i: int,
    j: int,
)
    requires
        sorted_from(how, sizes, es, r),
        how.key == SortKey::Size,
        0 <= i < j < r.len(),
        r[i].is_dir == r[j].is_dir,
    ensures
        !r[i].is_dir && how.ascending ==> r[i].size <= r[j].size,
        !r[i].is_dir && !how.ascending ==> r[i].size >= r[j].size,
        r[i].is_dir && how.ascending ==> shown_size(sizes, r[i]) <= shown_size(sizes, r[j]),
        r[i].is_dir && !how.ascending ==> shown_size(sizes, r[i]) >= shown_size(sizes, r[j]),
{
    lemma_one_of_two(how, sizes, es, r, i, j);
    reveal_with_fuel(order::lex_less, 2);
}

/// The size of a folder is the one that was scanned for its name in lower case, the
/// last where there are several; without one it has none and counts as 0. A file
/// has its own, whatever was scanned.
pub proof fn law_folder_size_is_the_scanned_one(v: Vec<FolderSize>, e: Entry, k: int)
    requires
        0 <= k < v@.len(),
        v@[k].name@ == text::lower_text(e.name@),
        forall|j: int| k < j < v@.len() ==> (#[trigger] v@[j]).name@ != text::lower_text(e.name@),
    ensures
        known_size(Some(v), e) == Some(v@[k].bytes),
        e.is_dir ==> shown_size(Some(v), e) == v@[k].bytes,
        !e.is_dir ==> shown_size(Some(v), e) == e.size,
        known_size(None, e) is None,
        shown_size(None, e) == (if e.is_dir {
            0
        } else {
            e.size
        }),
{
    lemma_size_of_folder(v@, text::lower_text(e.name@), k, v@.len() as int);
}

proof fn lemma_size_of_folder(v: Seq<FolderSize>, name: Seq<char>, k: int, n: int)
    requires
        0 <= k < n <= v.len(),
        v[k].name@ == name,
        forall|j: int| k < j < n ==> (#[trigger] v[j]).name@ != name,
    ensures
        size_of_folder(v, name, n) == Some(v[k].bytes),
    decreases n,
{
    if k < n - 1 {
        assert(v[n - 1].name@ != name);
        lemma_size_of_folder(v, name, k, n - 1);
    }
}

/// A folder that no scanned size is of has none.
pub proof fn law_unscanned_folder_has_no_size(v: Vec<FolderSize>, e: Entry)
    requires
        forall|j: int| 0 <= j < v@.len() ==> (#[trigger] v@[j]).name@ != text::lower_text(e.name@),
    ensures
        known_size(Some(v), e) is None,
        e.is_dir ==> shown_size(Some(v), e) == 0,
{
    lemma_no_size(v@, text::lower_text(e.name@), v@.len() as int);
}

proof fn lemma_no_size(v: Seq<FolderSize>, name: Seq<char>, n: int)
    requires
        0 <= n <= v.len(),
        forall|j: int| 0 <= j < n ==> (#[trigger] v[j]).name@ != name,
    ensures
        size_of_folder(v, name, n) is None,
    decreases n,
{
    if n > 0 {
        lemma_no_size(v, name, n - 1);
    }
}

/// No character of `a` that is the first to differ comes behind the one of `b`, and
/// `b` does not end before they differ.
pub open spec fn in_dictionary_order(a: Seq<char>, b: Seq<char>) -> bool {
    forall|k: int|
        0 <= k <= a.len() && k <= b.len() && #[trigger] a.take(k) == b.take(k) ==> k == a.len() || (k < b.len() && a[k]
            <= b[k])
}

proof fn lemma_codes_in_order(a: Seq<char>, b: Seq<char>)
    requires
        !order::lex_less(codes(b), codes(a)),
    ensures
        in_dictionary_order(a, b),
    decreases a.len(),
{
    assert forall|k: int| 0 <= k <= a.len() && k <= b.len() && #[trigger] a.take(k) == b.take(k) implies k == a.len() || (
    k < b.len() && a[k] <= b[k]) by {
        if k == 0 {
            if a.len() > 0 {
                assert(codes(a)[0] == a[0] as int);
                if b.len() > 0 {
                    assert(codes(b)[0] == b[0] as int);
                }
            }
        } else {
            assert(a.take(k)[0] == a[0] && b.take(k)[0] == b[0]);
            assert(codes(a)[0] == codes(b)[0]);
            assert(codes(a).drop_first() =~= codes(a.drop_first()));
            assert(codes(b).drop_first() =~= codes(b.drop_first()));
            lemma_codes_in_order(a.drop_first(), b.drop_first());
            assert(a.drop_first().take(k - 1) =~= a.take(k).drop_first());
            assert(b.drop_first().take(k - 1) =~= b.take(k).drop_first());
            assert(a.drop_first().take(k - 1) == b.drop_first().take(k - 1));
        }
    }
}

/// Sorted by Name: among files, and among folders, names in lower case stand in
/// the order of their characters when ascending, and in the reverse order when
/// descending; of two that are the same but for case the one that stood first
/// still does.
pub proof fn law_sorted_by_name(
    how: Sorting,
    sizes: Option<Vec<FolderSize>>,
    es: Seq<Entry>,
    r: Seq<Entry>,
    i: int,
    j: int,
)
    requires
        sorted_from(how, sizes, es, r),
        how.key == SortKey::Name,
        0 <= i < j < r.len(),
        r[i].is_dir == r[j].is_dir,
    ensures
        how.ascending ==> in_dictionary_order(text::lower_text(r[i].name@), text::lower_text(r[j].name@)),
        !how.ascending ==> in_dictionary_order(text::lower_text(r[j].name@), text::lower_text(r[i].name@)),
{
    lemma_one_of_two(how, sizes, es, r, i, j);
    if how.ascending {
        lemma_codes_in_order(text::lower_text(r[i].name@), text::lower_text(r[j].name@));
    } else {
        lemma_codes_in_order(text::lower_text(r[j].name@), text::lower_text(r[i].name@));
    }
}

/// Sorted by Type: among files the names of their kinds stand in the order of
/// their characters, or in the reverse order when descending. The kind of a file
/// is the name of its category, and that of every folder is the same.
pub proof fn law_sorted_by_kind(
    how: Sorting,
    sizes: Option<Vec<FolderSize>>,
    es: Seq<Entry>,
    r: Seq<Entry>,
    i: int,
    j: int,
)
    requires
        sorted_from(how, sizes, es, r),
        how.key == SortKey::Kind,
        0 <= i < j < r.len(),
        !r[i].is_dir && !r[j].is_dir,
    ensures
        ({
            let a = filetype::label_spec(filetype::category_spec(how.style, r[i].name@));
            let b = filetype::label_spec(filetype::category_spec(how.style, r[j].name@));
            if how.ascending {
                in_dictionary_order(a, b)
            } else {
                in_dictionary_order(b, a)
            }
        }),
{
    lemma_one_of_two(how, sizes, es, r, i, j);
    if how.ascending {
        lemma_codes_in_order(kind_label(how.style, r[i]), kind_label(how.style, r[j]));
    } else {
        lemma_codes_in_order(kind_label(how.style, r[j]), kind_label(how.style, r[i]));
    }
}

/// What the list shows of a folder: hidden entries exactly where they are asked
/// for, and only entries whose name in lower case holds the filter's text in lower
/// case, without the white space around it; everything that passes is shown.
pub proof fn law_list_shows_what_passes(es: Seq<Entry>, show_hidden: bool, filter: Seq<char>, e: Entry)
    requires
        es.contains(e),
    ensures
        visible(es, show_hidden, filter_text(filter)).contains(e) <==> (!e.is_hidden || show_hidden) && {
            let name = text::lower_text(e.name@);
            let part = text::lower_text(text::trim(filter));
            exists|i: int| 0 <= i <= name.len() - part.len() && #[trigger] name.subrange(i, i + part.len()) == part
        },
        text::trim(filter).len() == 0 && (!e.is_hidden || show_hidden) ==> visible(
            es,
            show_hidden,
            filter_text(filter),
        ).contains(e),
{
    let f = filter_text(filter);
    let name = text::lower_text(e.name@);
    lemma_visible_holds(es, show_hidden, f, e);
    if text::trim(filter).len() == 0 {
        text::lemma_lower_text(text::trim(filter), text::trim(filter));
    }
    if f.len() == 0 {
        assert(name.subrange(0, 0int + f.len()) =~= f);
    }
}

proof fn lemma_visible_holds(es: Seq<Entry>, show_hidden: bool, f: Seq<char>, e: Entry)
    ensures
        visible(es, show_hidden, f).contains(e) <==> es.contains(e) && passes(e, show_hidden, f),
    decreases es.len(),
{
    if es.len() > 0 {
        let rest = es.drop_last();
        lemma_visible_holds(rest, show_hidden, f, e);
        let (a, b) = (visible(rest, show_hidden, f), visible(es, show_hidden, f));
        if es.contains(e) {
            let i = choose|i: int| 0 <= i < es.len() && es[i] == e;
            if i < rest.len() {
                assert(rest[i] == e);
            }
        }
        if rest.contains(e) {
            let i = choose|i: int| 0 <= i < rest.len() && rest[i] == e;
            assert(es[i] == e);
        }
        assert(es[es.len() - 1] == es.last());
        if a.contains(e) {
            let i = choose|i: int| 0 <= i < a.len() && a[i] == e;
            assert(b[i] == e);
        }
        if passes(es.last(), show_hidden, f) {
            assert(b[b.len() - 1] == es.last());
            if b.contains(e) {
                let i = choose|i: int| 0 <= i < b.len() && b[i] == e;
                if i < a.len() {
                    assert(a[i] == e);
                }
            }
        }
    }
}

} // verus!
