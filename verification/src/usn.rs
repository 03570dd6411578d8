//! Change journals: whether a cached scan of a local volume is still current.
//!
//! A watermark is taken when a scan completes. Later the volume's journal says
//! whether anything has changed since, without another walk. Volumes without a
//! journal come back [`Freshness::Unknown`].
use vstd::prelude::*;
use crate::paths::{self, drive_of, PathStyle};

verus! {

/// A point in a volume's journal.
#[derive(Clone, Copy, Debug, PartialEq, Eq, Structural)]
pub struct UsnMark {
    pub journal_id: u64,
    pub next_usn: i64,
}

/// What a volume says of its journal.
#[derive(Clone, Copy, Debug, PartialEq, Eq, Structural)]
pub struct JournalData {
    pub journal_id: u64,
    pub first_usn: i64,
    pub next_usn: i64,
}

impl UsnMark {
    /// The mark that is stored where there is no journal.
    pub fn none() -> (r: UsnMark)
        ensures
            r == (UsnMark { journal_id: 0, next_usn: 0 }),
            !r.marks(),
    {
        UsnMark { journal_id: 0, next_usn: 0 }
    }

    /// It marks a journal.
    pub open spec fn marks(self) -> bool {
        self.journal_id != 0
    }

    /// Whether it marks a journal.
    pub fn is_some(&self) -> (r: bool)
        ensures
            r == self.marks(),
    {
        self.journal_id != 0
    }
}

/// Whether a cached scan is still current.
#[derive(Clone, Copy, Debug, PartialEq, Eq, Structural)]
pub enum Freshness {
    /// The journal has not advanced: nothing changed.
    Current,
    /// The journal has advanced: something on the volume changed.
    Stale,
    /// It cannot be told.
    Unknown,
}

/// The watermark of a volume that answered so.
pub fn query_mark(journal: Option<JournalData>) -> (r: Option<UsnMark>)
    ensures
        r == (match journal {
            Some(d) => Some(UsnMark { journal_id: d.journal_id, next_usn: d.next_usn }),
            None => None,
        }),
{
    match journal {
        Some(d) => Some(UsnMark { journal_id: d.journal_id, next_usn: d.next_usn }),
        None => None,
    }
}

/// A journal that reaches back to the mark: the same one, not wrapped past it.
pub open spec fn covers(d: JournalData, mark: UsnMark) -> bool {
    mark.marks() && d.journal_id == mark.journal_id && d.first_usn <= mark.next_usn
}

/// What a volume's answer says of a scan taken at `mark`.
pub open spec fn freshness_spec(journal: Option<JournalData>, mark: UsnMark) -> Freshness {
    match journal {
        Some(d) => if !covers(d, mark) {
            Freshness::Unknown
        } else if d.next_usn > mark.next_usn {
            Freshness::Stale
        } else if d.next_usn == mark.next_usn {
            Freshness::Current
        } else {
            Freshness::Unknown
        },
        None => Freshness::Unknown,
    }
}

/// Is a scan taken at `mark` still current for a volume that answered so?
pub fn freshness(journal: Option<JournalData>, mark: &UsnMark) -> (r: Freshness)
    ensures
        r == freshness_spec(journal, *mark),
{
    if !mark.is_some() {
        return Freshness::Unknown;
    }
    let d = match journal {
        Some(d) => d,
        None => {
            return Freshness::Unknown;
        },
    };
    if d.journal_id != mark.journal_id || d.first_usn > mark.next_usn {
        return Freshness::Unknown;
    }
    if d.next_usn > mark.next_usn {
        Freshness::Stale
    } else if d.next_usn == mark.next_usn {
        Freshness::Current
    } else {
        Freshness::Unknown
    }
}

/// A scan is never called current on a volume without a journal, against another
/// journal, or once anything was written to it.
pub proof fn law_current_means_unchanged(journal: Option<JournalData>, mark: UsnMark)
    requires
        freshness_spec(journal, mark) == Freshness::Current,
    ensures
        mark.marks(),
        journal matches Some(d) && d.journal_id == mark.journal_id && d.next_usn == mark.next_usn,
{
}

/// A mark taken from a journal is current against that same journal.
pub proof fn law_fresh_mark_is_current(d: JournalData)
    requires
        d.journal_id != 0,
        d.first_usn <= d.next_usn,
    ensures
        freshness_spec(Some(d), UsnMark { journal_id: d.journal_id, next_usn: d.next_usn }) == Freshness::Current,
{
}

/// The two names of a drive's volume: its root and its device. `None` for a path
/// that is not on a drive letter, which has no journal of its own.
pub fn volume_names(path: &str) -> (r: Option<(String, String)>)
    ensures
        r is Some <==> paths::drive_spec(PathStyle::Windows, path@) is Some,
        r matches Some((root, device)) ==> {
            let c = paths::drive_spec(PathStyle::Windows, path@)->0;
            root@ == seq![c, ':', '\\'] && device@ == seq!['\\', '\\', '.', '\\', c, ':']
        },
{
    match drive_of(PathStyle::Windows, path) {
        None => None,
        Some(c) => {
            let mut root = String::new();
            root.push(c);
            root.push(':');
            root.push('\\');
            let mut device = String::new();
            device.push('\\');
            device.push('\\');
            device.push('.');
            device.push('\\');
            device.push(c);
            device.push(':');
            assert(root@ =~= seq![c, ':', '\\']);
            assert(device@ =~= seq!['\\', '\\', '.', '\\', c, ':']);
            Some((root, device))
        },
    }
}

/// A scan is called stale exactly where the same journal still reaches back to
/// the mark and has gone on since; what is neither this nor unchanged cannot be
/// told.
pub proof fn law_stale_means_written_since(journal: Option<JournalData>, mark: UsnMark)
    ensures
        freshness_spec(journal, mark) == Freshness::Stale <==> (journal matches Some(d) && mark.journal_id != 0
            && d.journal_id == mark.journal_id && d.first_usn <= mark.next_usn && mark.next_usn < d.next_usn),
        freshness_spec(journal, mark) == Freshness::Current <==> (journal matches Some(d) && mark.journal_id != 0
            && d.journal_id == mark.journal_id && d.first_usn <= mark.next_usn && mark.next_usn == d.next_usn),
{
}

} // verus!
