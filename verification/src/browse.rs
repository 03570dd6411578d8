//! One directory's immediate contents, from what the system says of them.
use vstd::prelude::*;
use crate::time::Stamp;

verus! {

/// One immediate child of a directory.
#[derive(Debug)]
pub struct Entry {
    pub name: String,
    pub is_dir: bool,
    /// File size in bytes; 0 for a directory.
    pub size: u64,
    pub modified: Option<Stamp>,
    pub created: Option<Stamp>,
    /// A symlink or reparse point, shown but not walked into.
    pub is_symlink: bool,
    /// A hidden or system entry.
    pub is_hidden: bool,
    pub readonly: bool,
}

/// What the system says of an entry beside its type.
#[derive(Debug)]
pub struct RawMetadata {
    pub len: u64,
    /// The attribute bits, where the system has them.
    pub attributes: Option<u32>,
    pub readonly: bool,
    pub modified: Option<Stamp>,
    pub created: Option<Stamp>,
}

/// An entry as the system lists it, links not followed.
#[derive(Debug)]
pub struct RawEntry {
    pub name: String,
    pub is_dir: bool,
    pub is_link: bool,
    /// `None` where it could not be read.
    pub metadata: Option<RawMetadata>,
}

/// The attribute bit of a reparse point.
pub open spec fn is_reparse(attributes: Option<u32>) -> bool {
    attributes matches Some(a) && a / 0x400 % 2 == 1
}

/// The attribute bits of a hidden or a system entry.
pub open spec fn hides(attributes: Option<u32>) -> bool {
    attributes matches Some(a) && (a / 2 % 2 == 1 || a / 4 % 2 == 1)
}

/// The entry shows what the system says.
pub open spec fn shows(e: Entry, raw: RawEntry) -> bool {
    &&& e.name@ == raw.name@
    &&& e.is_dir == raw.is_dir
    &&& match raw.metadata {
        Some(m) => {
            &&& e.size == (if raw.is_dir {
                0
            } else {
                m.len
            })
            &&& e.modified == m.modified
            &&& e.created == m.created
            &&& e.is_symlink == (raw.is_link || is_reparse(m.attributes))
            &&& e.is_hidden == hides(m.attributes)
            &&& e.readonly == m.readonly
        },
        None => {
            &&& e.size == 0
            &&& e.modified is None
            &&& e.created is None
            &&& e.is_symlink == raw.is_link
            &&& !e.is_hidden
            &&& !e.readonly
        },
    }
}

/// An entry from what the system says of it.
pub fn stat_entry(raw: &RawEntry) -> (r: Entry)
    ensures
        shows(r, *raw),
{
    match &raw.metadata {
        Some(m) => {
            let (reparse, hidden) = match m.attributes {
                Some(a) => (a / 0x400 % 2 == 1, a / 2 % 2 == 1 || a / 4 % 2 == 1),
                None => (false, false),
            };
            Entry {
                name: raw.name.clone(),
                is_dir: raw.is_dir,
                size: if raw.is_dir {
                    0
                } else {
                    m.len
                },
                modified: m.modified,
                created: m.created,
                is_symlink: raw.is_link || reparse,
                is_hidden: hidden,
                readonly: m.readonly,
            }
        },
        None => Entry {
            name: raw.name.clone(),
            is_dir: raw.is_dir,
            size: 0,
            modified: None,
            created: None,
            is_symlink: raw.is_link,
            is_hidden: false,
            readonly: false,
        },
    }
}

impl Entry {
    /// A copy.
    pub fn copy(&self) -> (r: Entry)
        ensures
            r == *self,
    {
        Entry {
            name: self.name.clone(),
            is_dir: self.is_dir,
            size: self.size,
            modified: self.modified,
            created: self.created,
            is_symlink: self.is_symlink,
            is_hidden: self.is_hidden,
            readonly: self.readonly,
        }
    }
}

/// The items that could be read, in order.
pub open spec fn readable(items: Seq<Option<RawEntry>>) -> Seq<RawEntry>
    decreases items.len(),
{
    if items.len() == 0 {
        Seq::empty()
    } else {
        match items.last() {
            Some(raw) => readable(items.drop_last()).push(raw),
            None => readable(items.drop_last()),
        }
    }
}

/// A directory's entries. An item that could not be read (`None`) is left out
/// and does not spoil the listing.
pub fn list_dir(items: &Vec<Option<RawEntry>>) -> (r: Vec<Entry>)
    ensures
        r@.len() == readable(items@).len(),
        forall|i: int| 0 <= i < r@.len() ==> shows(#[trigger] r@[i], readable(items@)[i]),
{
    let mut out: Vec<Entry> = Vec::new();
    let mut i: usize = 0;
    assert(items@.take(0) =~= Seq::empty());
    while i < items.len()
        invariant
            i <= items@.len(),
            out@.len() == readable(items@.take(i as int)).len(),
            forall|k: int| 0 <= k < out@.len() ==> shows(#[trigger] out@[k], readable(items@.take(i as int))[k]),
        decreases items@.len() - i,
    {
        assert(items@.take(i + 1).drop_last() =~= items@.take(i as int));
        match &items[i] {
            Some(raw) => {
                let e = stat_entry(raw);
                out.push(e);
            },
            None => {},
        }
        i += 1;
    }
    assert(items@.take(i as int) =~= items@);
    out
}

/// The attribute word on its bits: bit 10 marks a reparse point, bit 1 or bit 2 a
/// hidden or a system entry, and no other bit has a say.
pub proof fn law_attribute_bits(a: u32)
    ensures
        is_reparse(Some(a)) <==> a & 0x400 != 0,
        hides(Some(a)) <==> a & 0x2 != 0 || a & 0x4 != 0,
        !is_reparse(None) && !hides(None),
{
    assert(a / 0x400 % 2 == 1 <==> a & 0x400 != 0) by (bit_vector);
    assert(a / 2 % 2 == 1 <==> a & 0x2 != 0) by (bit_vector);
    assert(a / 4 % 2 == 1 <==> a & 0x4 != 0) by (bit_vector);
}

/// What an entry shows of what the system says: its name and kind always, a file's
/// length and no folder's, both times, and by the bits of the attribute word
/// whether it leads elsewhere and whether it is hidden. Where nothing could be read
/// it shows no size, no time and no mark but the link's.
pub proof fn law_entry_shows_what_the_system_says(e: Entry, raw: RawEntry)
    requires
        shows(e, raw),
    ensures
        e.name@ == raw.name@,
        e.is_dir == raw.is_dir,
        raw.is_link ==> e.is_symlink,
        raw.metadata matches Some(m) ==> {
            &&& !raw.is_dir ==> e.size == m.len
            &&& raw.is_dir ==> e.size == 0
            &&& e.modified == m.modified && e.created == m.created
            &&& e.readonly == m.readonly
            &&& m.attributes matches Some(a) ==> {
                &&& !raw.is_link ==> (e.is_symlink <==> a & 0x400 != 0)
                &&& e.is_hidden <==> a & 0x2 != 0 || a & 0x4 != 0
            }
            &&& m.attributes is None ==> e.is_symlink == raw.is_link && !e.is_hidden
        },
        raw.metadata is None ==> e.size == 0 && e.modified is None && e.created is None && e.is_symlink == raw.is_link
            && !e.is_hidden && !e.readonly,
{
    if let Some(m) = raw.metadata {
        if let Some(a) = m.attributes {
            law_attribute_bits(a);
        }
    }
}

/// Everything that could be read is listed, and nothing else.
pub proof fn law_listing_leaves_out_the_unreadable_alone(items: Seq<Option<RawEntry>>)
    ensures
        forall|i: int| 0 <= i < items.len() && items[i] is Some ==> readable(items).contains((#[trigger] items[i])->0),
        forall|k: int|
            0 <= k < readable(items).len() ==> items.contains(Some(#[trigger] readable(items)[k])),
        readable(items).len() <= items.len(),
        (forall|i: int| 0 <= i < items.len() ==> (#[trigger] items[i]) is Some) ==> readable(items).len() == items.len()
            && forall|i: int| 0 <= i < items.len() ==> Some(#[trigger] readable(items)[i]) == items[i],
    decreases items.len(),
{
    if items.len() > 0 {
        let rest = items.drop_last();
        law_listing_leaves_out_the_unreadable_alone(rest);
        let (a, b) = (readable(rest), readable(items));
        assert forall|i: int| 0 <= i < items.len() && items[i] is Some implies b.contains((#[trigger] items[i])->0) by {
            if i < rest.len() {
                assert(rest[i] == items[i]);
                let k = choose|k: int| 0 <= k < a.len() && a[k] == items[i]->0;
                assert(b[k] == items[i]->0);
            } else {
                assert(b[b.len() - 1] == items[i]->0);
            }
        }
        assert forall|k: int| 0 <= k < b.len() implies items.contains(Some(#[trigger] b[k])) by {
            if k < a.len() {
                assert(b[k] == a[k]);
                let i = choose|i: int| 0 <= i < rest.len() && rest[i] == Some(a[k]);
                assert(items[i] == Some(b[k]));
            } else {
                assert(items[items.len() - 1] == Some(b[k]));
            }
        }
        if forall|i: int| 0 <= i < items.len() ==> (#[trigger] items[i]) is Some {
            assert forall|i: int| 0 <= i < rest.len() implies (#[trigger] rest[i]) is Some by {
                assert(items[i] is Some);
            }
            assert(items[items.len() - 1] is Some);
            assert forall|i: int| 0 <= i < items.len() implies Some(#[trigger] b[i]) == items[i] by {
                if i < rest.len() {
                    assert(b[i] == a[i]);
                    assert(rest[i] == items[i]);
                }
            }
        }
    }
}

} // verus!
