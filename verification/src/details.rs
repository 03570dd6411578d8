//! What is told of an entry: the fields of the details panel, the text over a
//! row, and the line on the selection.
use vstd::prelude::*;
use crate::browse::Entry;
use crate::filetype::{self, categorize_in};
use crate::labels::{self, commas, decimal, human_size};
use crate::listing::{self, entry_size, folder_size, FolderSize};
use crate::paths::{self, extension, PathStyle};
use crate::text::{self, cat, cat3, list_has, to_lower_text};
use crate::time::{self, format_datetime, humanize_age, Stamp};

verus! {

/// One field of the details panel.
pub struct Field {
    pub label: &'static str,
    pub value: String,
}

/// The field has that label and that value.
pub open spec fn is_field(f: Field, label: Seq<char>, value: Seq<char>) -> bool {
    f.label@ == label && f.value@ == value
}

/// The type of an entry: of a file its category, and its extension where it has
/// one.
pub open spec fn type_text(style: PathStyle, e: Entry) -> Seq<char> {
    if e.is_dir {
        "Folder"@
    } else {
        let label = filetype::label_spec(filetype::category_spec(style, e.name@));
        match paths::extension_spec(style, e.name@) {
            Some(x) => label + "  ·  ."@ + text::lower_text(x),
            None => label,
        }
    }
}

/// A size in short and in full.
pub open spec fn full_size(n: nat) -> Seq<char> {
    labels::human_size_spec(n) + " ("@ + labels::grouped(labels::dec(n)) + " bytes)"@
}

/// The size of an entry: of a folder only where it is known from a scan.
pub open spec fn size_text(e: Entry, dir_size: Option<u64>) -> Seq<char> {
    if e.is_dir {
        match dir_size {
            Some(n) => full_size(n as nat),
            None => "— (scan for folder size)"@,
        }
    } else {
        full_size(e.size as nat)
    }
}

/// The age of something changed at `t`.
pub open spec fn age_text(t: Stamp, now: Stamp) -> Seq<char> {
    time::age_label_spec(time::secs_between(t, now) as nat)
}

/// The special attributes of an entry.
pub open spec fn attributes(e: Entry) -> Seq<Seq<char>> {
    (if e.is_hidden {
        seq!["Hidden"@]
    } else {
        seq![]
    }) + (if e.readonly {
        seq!["Read-only"@]
    } else {
        seq![]
    }) + (if e.is_symlink {
        seq!["Link / reparse"@]
    } else {
        seq![]
    })
}

/// The times of an entry are times of day.
pub open spec fn times_ok(e: Entry) -> bool {
    &&& e.modified matches Some(t) ==> t.wf()
    &&& e.created matches Some(t) ==> t.wf()
}

/// One where there is a time, else none.
pub open spec fn one_if(o: Option<Stamp>) -> int {
    if o is Some {
        1
    } else {
        0
    }
}

/// The fields of `e`, which is in the folder `location`.
pub open spec fn describes(
    f: Seq<Field>,
    style: PathStyle,
    e: Entry,
    location: Seq<char>,
    dir_size: Option<u64>,
    now: Stamp,
) -> bool {
    let c = 4 + one_if(e.modified);
    let a = c + one_if(e.created);
    &&& f.len() == a + 1
    &&& is_field(f[0], "Name"@, e.name@)
    &&& is_field(f[1], "Location"@, location)
    &&& is_field(f[2], "Type"@, type_text(style, e))
    &&& is_field(f[3], "Size"@, size_text(e, dir_size))
    &&& e.modified matches Some(t) ==> f[4].label@ == "Modified"@ && exists|d: Seq<char>|
        #[trigger] time::is_date_text(d, t) && f[4].value@ == d + "  ·  "@ + age_text(t, now)
    &&& e.created matches Some(t) ==> f[c].label@ == "Created"@ && time::is_date_text(f[c].value@, t)
    &&& is_field(
        f[a],
        "Attributes"@,
        if attributes(e).len() == 0 {
            "—"@
        } else {
            text::join(attributes(e), ", "@)
        },
    )
}

fn full_size_label(n: u64) -> (r: String)
    ensures
        r@ == full_size(n as nat),
{
    let mut out = cat3(human_size(n).as_str(), " (", commas(n).as_str());
    out.append(" bytes)");
    out
}

fn attribute_list(e: &Entry) -> (r: Vec<String>)
    ensures
        text::texts(r@) == attributes(*e),
{
    let mut v: Vec<String> = Vec::new();
    if e.is_hidden {
        v.push("Hidden".to_owned());
    }
    if e.readonly {
        v.push("Read-only".to_owned());
    }
    if e.is_symlink {
        v.push("Link / reparse".to_owned());
    }
    assert(text::texts(v@) =~= attributes(*e));
    v
}

/// The fields of the details panel for `e`, which is in the folder `location`;
/// `dir_size` is the scanned size of a folder where it is known.
pub fn properties_of(style: PathStyle, e: &Entry, location: &str, dir_size: Option<u64>, now: Stamp) -> (r: Vec<Field>)
    requires
        times_ok(*e),
        now.wf(),
    ensures
        describes(r@, style, *e, location@, dir_size, now),
{
    let mut f: Vec<Field> = Vec::new();
    f.push(Field { label: "Name", value: e.name.clone() });
    f.push(Field { label: "Location", value: location.to_owned() });
    let kind = if e.is_dir {
        "Folder".to_owned()
    } else {
        let label = categorize_in(style, e.name.as_str()).label();
        match extension(style, e.name.as_str()) {
            Some(x) => cat3(label, "  ·  .", to_lower_text(x.as_str()).as_str()),
            None => label.to_owned(),
        }
    };
    f.push(Field { label: "Type", value: kind });
    let size = if e.is_dir {
        match dir_size {
            Some(n) => full_size_label(n),
            None => "— (scan for folder size)".to_owned(),
        }
    } else {
        full_size_label(e.size)
    };
    f.push(Field { label: "Size", value: size });
    match e.modified {
        Some(t) => {
            let d = format_datetime(t);
            let value = cat3(d.as_str(), "  ·  ", humanize_age(t, now).as_str());
            assert(time::is_date_text(d@, t));
            f.push(Field { label: "Modified", value });
        },
        None => {},
    }
    match e.created {
        Some(t) => {
            f.push(Field { label: "Created", value: format_datetime(t) });
        },
        None => {},
    }
    let attrs = attribute_list(e);
    let value = if attrs.len() == 0 {
        "—".to_owned()
    } else {
        text::joined(&attrs, ", ")
    };
    f.push(Field { label: "Attributes", value });
    f
}

/// The first lines of the text over a row: the name and what it is.
pub open spec fn tooltip_head(style: PathStyle, e: Entry, sizes: Option<Vec<FolderSize>>) -> Seq<char> {
    if e.is_dir {
        match listing::known_size(sizes, e) {
            Some(n) => e.name@ + "\nFolder · "@ + labels::human_size_spec(n as nat),
            None => e.name@ + "\nFolder"@,
        }
    } else {
        e.name@ + "\n"@ + filetype::label_spec(filetype::category_spec(style, e.name@)) + " · "@
            + labels::human_size_spec(e.size as nat)
    }
}

/// The text over a row.
pub open spec fn is_tooltip(r: Seq<char>, style: PathStyle, e: Entry, sizes: Option<Vec<FolderSize>>, now: Stamp) -> bool {
    let link = if e.is_symlink {
        "\nLink / reparse point"@
    } else {
        Seq::empty()
    };
    match e.modified {
        Some(t) => exists|d: Seq<char>|
            #[trigger] time::is_date_text(d, t) && r == tooltip_head(style, e, sizes) + "\nModified "@ + d + " ("@
                + age_text(t, now) + ")"@ + link,
        None => r == tooltip_head(style, e, sizes) + link,
    }
}

/// The text over a row of the list: the full name and the essentials.
pub fn row_tooltip(style: PathStyle, e: &Entry, sizes: &Option<Vec<FolderSize>>, now: Stamp) -> (r: String)
    requires
        times_ok(*e),
        now.wf(),
    ensures
        is_tooltip(r@, style, *e, *sizes, now),
{
    let mut s = if e.is_dir {
        match folder_size(sizes, e) {
            Some(n) => cat3(e.name.as_str(), "\nFolder · ", human_size(n).as_str()),
            None => cat(e.name.as_str(), "\nFolder"),
        }
    } else {
        let mut s = cat3(e.name.as_str(), "\n", categorize_in(style, e.name.as_str()).label());
        s.append(" · ");
        s.append(human_size(e.size).as_str());
        s
    };
    let ghost head = s@;
    let ghost mut date: Seq<char> = Seq::empty();
    match e.modified {
        Some(t) => {
            let d = format_datetime(t);
            proof {
                date = d@;
            }
            assert(time::is_date_text(d@, t));
            s.append("\nModified ");
            s.append(d.as_str());
            s.append(" (");
            s.append(humanize_age(t, now).as_str());
            s.append(")");
        },
        None => {},
    }
    if e.is_symlink {
        s.append("\nLink / reparse point");
    }
    proof {
        if !e.is_symlink {
            assert(s@ =~= s@ + Seq::<char>::empty());
        }
        match e.modified {
            Some(t) => {
                assert(time::is_date_text(date, t));
            },
            None => {},
        }
    }
    s
}

/// The bytes of the selected among the first `k` entries.
pub open spec fn selected_total(sizes: Option<Vec<FolderSize>>, es: Seq<Entry>, sel: Seq<Seq<char>>, k: int) -> nat
    decreases k,
{
    if k <= 0 {
        0
    } else {
        selected_total(sizes, es, sel, k - 1) + (if sel.contains(es[k - 1].name@) {
            listing::shown_size(sizes, es[k - 1]) as nat
        } else {
            0
        })
    }
}

/// What the status line says of one selected entry.
pub open spec fn entry_line(e: Entry, sizes: Option<Vec<FolderSize>>, now: Stamp) -> Seq<char> {
    e.name@ + (if !e.is_dir || listing::known_size(sizes, e) is Some {
        " · "@ + labels::human_size_spec(listing::shown_size(sizes, e) as nat)
    } else {
        Seq::empty()
    }) + (match e.modified {
        Some(t) => " · "@ + age_text(t, now),
        None => Seq::empty(),
    })
}

/// The bytes of the selected entries; the sum wraps around beyond 64 bits.
pub fn selected_bytes(sizes: &Option<Vec<FolderSize>>, es: &Vec<Entry>, sel: &Vec<String>) -> (r: u64)
    ensures
        r == selected_total(*sizes, es@, text::texts(sel@), es@.len() as int) % 0x1_0000_0000_0000_0000,
{
    let mut sum: u64 = 0;
    let mut i: usize = 0;
    while i < es.len()
        invariant
            i <= es@.len(),
            sum == selected_total(*sizes, es@, text::texts(sel@), i as int) % 0x1_0000_0000_0000_0000,
        decreases es@.len() - i,
    {
        if list_has(sel, es[i].name.as_str()) {
            sum = sum.wrapping_add(entry_size(sizes, &es[i]));
        }
        i += 1;
    }
    sum
}

/// What the status line says of one selected entry.
pub fn entry_detail(e: &Entry, sizes: &Option<Vec<FolderSize>>, now: Stamp) -> (r: String)
    requires
        times_ok(*e),
        now.wf(),
    ensures
        r@ == entry_line(*e, *sizes, now),
{
    let mut s = e.name.clone();
    if !e.is_dir || folder_size(sizes, e).is_some() {
        s.append(" · ");
        s.append(human_size(entry_size(sizes, e)).as_str());
    }
    match e.modified {
        Some(t) => {
            s.append(" · ");
            s.append(humanize_age(t, now).as_str());
        },
        None => {},
    }
    assert(s@ =~= entry_line(*e, *sizes, now));
    s
}

/// What the status line says of several selected entries.
pub open spec fn selection_line(n: nat, bytes: nat) -> Seq<char> {
    labels::dec(n) + " selected · "@ + labels::human_size_spec(bytes)
}

/// What the status line says of several selected entries.
pub fn selection_detail(n: usize, bytes: u64) -> (r: String)
    ensures
        r@ == selection_line(n as nat, bytes as nat),
{
    cat3(decimal(n as u64).as_str(), " selected · ", human_size(bytes).as_str())
}

/// The bytes of a selection are those of the entries whose names are selected: an
/// entry more adds its size where it is selected, and nothing where it is not.
pub proof fn law_selection_adds_up(sizes: Option<Vec<FolderSize>>, es: Seq<Entry>, sel: Seq<Seq<char>>, e: Entry)
    ensures
        sel.contains(e.name@) && !e.is_dir ==> selected_total(sizes, es.push(e), sel, es.len() as int + 1)
            == selected_total(sizes, es, sel, es.len() as int) + e.size,
        !sel.contains(e.name@) ==> selected_total(sizes, es.push(e), sel, es.len() as int + 1) == selected_total(
            sizes,
            es,
            sel,
            es.len() as int,
        ),
        selected_total(sizes, Seq::empty(), sel, 0) == 0,
{
    lemma_selected_total(sizes, es, es.push(e), sel, es.len() as int);
}

proof fn lemma_selected_total(sizes: Option<Vec<FolderSize>>, x: Seq<Entry>, y: Seq<Entry>, sel: Seq<Seq<char>>, k: int)
    requires
        0 <= k <= x.len(),
        k <= y.len(),
        forall|i: int| 0 <= i < k ==> x[i] == y[i],
    ensures
        selected_total(sizes, x, sel, k) == selected_total(sizes, y, sel, k),
    decreases k,
{
    if k > 0 {
        lemma_selected_total(sizes, x, y, sel, k - 1);
    }
}

/// What the details say: the name and the folder as they are, of a file its own
/// size and of a folder the scanned one, and each mark that the entry bears.
pub proof fn law_details_tell_the_entry(f: Seq<Field>, style: PathStyle, e: Entry, location: Seq<char>, dir_size: Option<u64>, now: Stamp)
    requires
        describes(f, style, e, location, dir_size, now),
    ensures
        f.len() >= 5,
        f[0].label@ == "Name"@ && f[0].value@ == e.name@,
        f[1].label@ == "Location"@ && f[1].value@ == location,
        !e.is_dir ==> f[3].value@ == labels::human_size_spec(e.size as nat) + " ("@ + labels::grouped(
            labels::dec(e.size as nat),
        ) + " bytes)"@,
        e.is_dir && dir_size is Some ==> f[3].value@ == labels::human_size_spec(dir_size->0 as nat) + " ("@
            + labels::grouped(labels::dec(dir_size->0 as nat)) + " bytes)"@,
        e.is_dir ==> f[2].value@ == "Folder"@,
        attributes(e).contains("Hidden"@) <== e.is_hidden,
        attributes(e).contains("Read-only"@) <== e.readonly,
        attributes(e).contains("Link / reparse"@) <== e.is_symlink,
        attributes(e).len() == (if e.is_hidden {
            1int
        } else {
            0
        }) + (if e.readonly {
            1int
        } else {
            0
        }) + (if e.is_symlink {
            1int
        } else {
            0
        }),
        f[f.len() - 1].label@ == "Attributes"@,
        !e.is_hidden && !e.readonly && !e.is_symlink ==> f[f.len() - 1].value@ == "—"@,
{
    let a = attributes(e);
    if e.is_hidden {
        assert(a[0] == "Hidden"@);
    }
    if e.readonly {
        assert(a[if e.is_hidden {
            1int
        } else {
            0
        }] == "Read-only"@);
    }
    if e.is_symlink {
        assert(a[a.len() - 1] == "Link / reparse"@);
    }
}

/// What is said of a selected entry begins with its name; a folder of which
/// neither a size nor a time is known is told by its name alone.
pub proof fn law_selected_entry_is_named(e: Entry, sizes: Option<Vec<FolderSize>>, now: Stamp)
    ensures
        e.name@.is_prefix_of(entry_line(e, sizes, now)),
        e.is_dir && listing::known_size(sizes, e) is None && e.modified is None ==> entry_line(e, sizes, now) == e.name@,
        !e.is_dir && e.modified is None ==> entry_line(e, sizes, now) == e.name@ + " · "@ + labels::human_size_spec(
            e.size as nat,
        ),
{
    let l = entry_line(e, sizes, now);
    assert(l.take(e.name@.len() as int) =~= e.name@);
    assert(e.name@.is_prefix_of(l)) by {
        assert(l.subrange(0, e.name@.len() as int) =~= e.name@);
    }
    if e.is_dir && listing::known_size(sizes, e) is None && e.modified is None {
        assert(l =~= e.name@);
    }
    if !e.is_dir && e.modified is None {
        assert(l =~= e.name@ + " · "@ + labels::human_size_spec(e.size as nat));
    }
}

/// The text over a row begins with the entry's name, and says of a link that it is
/// one.
pub proof fn law_tooltip_names_the_entry(
    r: Seq<char>,
    style: PathStyle,
    e: Entry,
    sizes: Option<Vec<FolderSize>>,
    now: Stamp,
)
    requires
        is_tooltip(r, style, e, sizes, now),
    ensures
        r.len() >= e.name@.len() && r.take(e.name@.len() as int) == e.name@,
        e.is_symlink ==> r.len() >= "\nLink / reparse point"@.len() && r.skip(r.len() - "\nLink / reparse point"@.len())
            == "\nLink / reparse point"@,
        e.modified is None && !e.is_symlink && e.is_dir && listing::known_size(sizes, e) is None ==> r == e.name@
            + "\nFolder"@,
{
    let h = tooltip_head(style, e, sizes);
    assert(h.take(e.name@.len() as int) =~= e.name@);
    let l = "\nLink / reparse point"@;
    assert(r.take(h.len() as int) =~= h);
    assert(r.take(e.name@.len() as int) =~= h.take(e.name@.len() as int));
    if e.is_symlink {
        assert(r.skip(r.len() - l.len()) =~= l);
    }
    assert(h + Seq::<char>::empty() =~= h);
}

} // verus!
