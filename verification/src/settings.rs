//! What is remembered from one run to the next.
use vstd::prelude::*;
use crate::explorer::Explorer;
use crate::listing::{self, SortKey};
use crate::location::{self, canonical_drive_case};
use crate::pane::Pane;
use crate::sidebar::Sidebar;
use crate::city::City;
use crate::text::{self, copy_texts};

verus! {

/// How many threads walk a tree where nothing else was chosen.
pub const DEFAULT_THREADS: usize = 48;

/// What is remembered.
pub struct Settings {
    pub threads: usize,
    /// The city is built up the way it was scanned.
    pub replay_mode: bool,
    pub current_dir: String,
    pub show_hidden: bool,
    /// The name of the column that the list is ordered by.
    pub sort_key: String,
    pub sort_asc: bool,
    pub auto_scan_local: bool,
    pub pins: Vec<String>,
}

/// The number of threads, kept between 1 and 256.
pub open spec fn threads_in_range(n: usize) -> usize {
    if n < 1 {
        1
    } else if n > 256 {
        256
    } else {
        n
    }
}

/// The explorer starts where it was left.
pub open spec fn restored(x: Explorer, y: Explorer, s: Settings) -> bool {
    &&& y == (Explorer {
        pane: Pane {
            current_dir: y.pane.current_dir,
            addr_edit: y.pane.current_dir,
            sort_key: listing::sort_key_from(s.sort_key@),
            sort_asc: s.sort_asc,
            ..x.pane
        },
        sidebar: Sidebar { pins: y.sidebar.pins, ..x.sidebar },
        city: City { auto_scan: s.auto_scan_local, ..x.city },
        show_hidden: s.show_hidden,
        ..x
    })
    &&& y.pane.current_dir@ == location::upper_drive(s.current_dir@)
    &&& text::texts(y.sidebar.pins@) == text::texts(s.pins@)
}

/// What is remembered of the explorer.
pub open spec fn remembers(s: Settings, x: Explorer, threads: usize, replay_mode: bool) -> bool {
    &&& s.threads == threads
    &&& s.replay_mode == replay_mode
    &&& s.current_dir == x.pane.current_dir
    &&& s.show_hidden == x.show_hidden
    &&& s.sort_key@ == listing::sort_key_name(x.pane.sort_key)
    &&& s.sort_asc == x.pane.sort_asc
    &&& s.auto_scan_local == x.city.auto_scan
    &&& text::texts(s.pins@) == text::texts(x.sidebar.pins@)
}

impl Settings {
    /// What holds where nothing is remembered.
    pub fn new() -> (r: Settings)
        ensures
            r.threads == DEFAULT_THREADS,
            !r.replay_mode,
            r.current_dir@ == "C:\\"@,
            !r.show_hidden,
            r.sort_key@ == "name"@,
            r.sort_asc,
            r.auto_scan_local,
            r.pins@.len() == 0,
    {
        Settings {
            threads: DEFAULT_THREADS,
            replay_mode: false,
            current_dir: "C:\\".to_owned(),
            show_hidden: false,
            sort_key: "name".to_owned(),
            sort_asc: true,
            auto_scan_local: true,
            pins: Vec::new(),
        }
    }

    /// The number of threads, kept in its range.
    pub fn threads_to_use(&self) -> (r: usize)
        ensures
            r == threads_in_range(self.threads),
            1 <= r <= 256,
    {
        if self.threads < 1 {
            1
        } else if self.threads > 256 {
            256
        } else {
            self.threads
        }
    }
}

impl Explorer {
    /// Starts where the explorer was left.
    pub fn restore(&mut self, s: &Settings)
        ensures
            restored(*old(self), *final(self), *s),
            old(self).wf() ==> final(self).wf(),
    {
        self.pane.current_dir = canonical_drive_case(s.current_dir.as_str());
        self.pane.sync_addr();
        self.show_hidden = s.show_hidden;
        self.pane.sort_key = SortKey::from_name(s.sort_key.as_str());
        self.pane.sort_asc = s.sort_asc;
        self.city.auto_scan = s.auto_scan_local;
        self.sidebar.pins = copy_texts(&s.pins);
    }

    /// What is to be remembered.
    pub fn settings(&self, threads: usize, replay_mode: bool) -> (r: Settings)
        ensures
            remembers(r, *self, threads, replay_mode),
    {
        Settings {
            threads,
            replay_mode,
            current_dir: self.pane.current_dir.clone(),
            show_hidden: self.show_hidden,
            sort_key: self.pane.sort_key.name().to_owned(),
            sort_asc: self.pane.sort_asc,
            auto_scan_local: self.city.auto_scan,
            pins: copy_texts(&self.sidebar.pins),
        }
    }
}

/// What was remembered comes back: the folder, how it is ordered, what is shown
/// and what is pinned.
pub proof fn law_settings_come_back(x: Explorer, s: Settings, threads: usize, replay: bool, y: Explorer, z: Explorer)
    requires
        remembers(s, x, threads, replay),
        restored(y, z, s),
    ensures
        z.pane.current_dir@ == location::upper_drive(x.pane.current_dir@),
        z.pane.sort_key == x.pane.sort_key,
        z.pane.sort_asc == x.pane.sort_asc,
        z.show_hidden == x.show_hidden,
        z.city.auto_scan == x.city.auto_scan,
        text::texts(z.sidebar.pins@) == text::texts(x.sidebar.pins@),
{
    listing::law_sort_key_round_trip(x.pane.sort_key);
}

/// A number of threads from 1 to 256 is taken as it is, and any other the nearest
/// that is.
pub proof fn law_threads_are_kept_in_range(n: usize, m: usize)
    requires
        1 <= m <= 256,
    ensures
        1 <= threads_in_range(n) <= 256,
        threads_in_range(m) == m,
        n <= m ==> threads_in_range(n) <= m,
        n >= m ==> threads_in_range(n) >= m,
{
}

} // verus!
