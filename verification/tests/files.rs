use sector::copying::{CopyAction, CopyEvent, FileFacts, TreeCopy};
use sector::names::unique_dest;
use sector::paths::{file_name, parent, starts_with, PathStyle};
use sector::transfer::{
    check_transfer, copy_kind, may_copy, pick_from_bin, BinItem, Candidate, CopyKind, CopyStop, Deletion, Failure,
    FileAction, FileEvent, Moved, Paste, PasteOutcome, TransferCheck,
};
use sector::undo::{History, Undo, UndoDone, UndoEntry, UndoOp, UNDO_CAP};
use std::collections::BTreeMap;

const UNIX: PathStyle = PathStyle::Unix;

#[derive(Clone, Debug, PartialEq)]
enum Item {
    File(Vec<u8>),
    Dir,
    /// A link to another path.
    Link(String),
}

/// A disk in memory that carries out file actions.
#[derive(Default)]
struct Disk {
    items: BTreeMap<String, Item>,
    bin: Vec<(String, Vec<(String, Item)>, i64)>,
    /// Paths that count as being on a network drive.
    network: Vec<String>,
    /// Renames fail, as they do across volumes.
    no_rename: bool,
    log: Vec<String>,
}

fn failed(message: &str) -> Failure {
    Failure { message: message.to_string(), already_exists: false }
}

impl Disk {
    fn file(&mut self, p: &str, data: &[u8]) {
        self.items.insert(p.to_string(), Item::File(data.to_vec()));
    }

    fn dir(&mut self, p: &str) {
        self.items.insert(p.to_string(), Item::Dir);
    }

    fn has(&self, p: &str) -> bool {
        self.items.contains_key(p)
    }

    /// The path with the links on its way followed.
    fn resolved(&self, p: &str) -> String {
        for (k, item) in &self.items {
            if let Item::Link(target) = item {
                if starts_with(UNIX, p, k) {
                    return self.resolved(&format!("{target}{}", &p[k.len()..]));
                }
            }
        }
        p.to_string()
    }

    fn read(&self, p: &str) -> Vec<u8> {
        match self.items.get(&self.resolved(p)) {
            Some(Item::File(d)) => d.clone(),
            other => panic!("{p} is {other:?}"),
        }
    }

    fn under(&self, p: &str) -> Vec<String> {
        self.items.keys().filter(|k| starts_with(UNIX, k, p)).cloned().collect()
    }

    fn take(&mut self, p: &str) -> Result<Vec<(String, Item)>, Failure> {
        if !self.has(p) {
            return Err(failed("not found"));
        }
        let keys = self.under(p);
        Ok(keys.into_iter().map(|k| (k[p.len()..].to_string(), self.items.remove(&k).unwrap())).collect())
    }

    fn put(&mut self, p: &str, tree: Vec<(String, Item)>) {
        for (rest, item) in tree {
            self.items.insert(format!("{p}{rest}"), item);
        }
    }

    fn rename(&mut self, from: &str, to: &str) -> Result<(), Failure> {
        if self.no_rename {
            return Err(failed("cross-device link"));
        }
        let tree = self.take(from)?;
        self.put(to, tree);
        Ok(())
    }

    fn copy(&mut self, from: &str, to: &str) -> Result<(), Failure> {
        let mut m = TreeCopy::new(UNIX, from, to);
        let mut act = m.next(CopyEvent::Begin, false);
        loop {
            let event = match act {
                CopyAction::Stat { path } => CopyEvent::Stat(match self.items.get(&path) {
                    Some(i) => {
                        Ok(FileFacts { is_link: matches!(i, Item::Link(_)), attributes: None, is_dir: *i == Item::Dir })
                    }
                    None => Err(failed("not found")),
                }),
                CopyAction::CreateDir { path } => CopyEvent::Did(if self.has(&path) {
                    Err(Failure { message: "exists".to_string(), already_exists: true })
                } else {
                    self.dir(&path);
                    Ok(())
                }),
                CopyAction::List { path } => {
                    let path = self.resolved(&path);
                    CopyEvent::Listed(Ok(self
                        .under(&path)
                        .iter()
                        .filter(|k| parent(UNIX, k).as_deref() == Some(&path))
                        .map(|k| Ok(file_name(UNIX, k).unwrap()))
                        .collect()))
                }
                CopyAction::CopyFile { from, to } => {
                    let data = self.read(&from);
                    self.file(&to, &data);
                    CopyEvent::Did(Ok(()))
                }
                CopyAction::Finished => return m.outcome().unwrap(),
            };
            act = m.next(event, false);
        }
    }

    fn perform(&mut self, act: FileAction) -> FileEvent {
        match act {
            FileAction::IsLink { path } => FileEvent::Answer(matches!(self.items.get(&path), Some(Item::Link(_)))),
            FileAction::IsTaken { path } => FileEvent::Answer(self.has(&path)),
            FileAction::IsNetwork { path } => FileEvent::Answer(self.network.contains(&path)),
            FileAction::FindDest { dir, name } => {
                FileEvent::Place(unique_dest(UNIX, &dir, &name, |p: &str| self.items.contains_key(p)))
            }
            FileAction::Rename { from, to } => FileEvent::Did(self.rename(&from, &to)),
            FileAction::Copy { from, to } => {
                self.log.push(format!("copy {from} {to}"));
                FileEvent::Did(self.copy(&from, &to))
            }
            FileAction::Remove { path } => {
                self.log.push(format!("remove {path}"));
                FileEvent::Did(self.take(&path).map(|_| ()))
            }
            FileAction::RemoveEmptyDir { path } => {
                if self.under(&path).len() > 1 {
                    return FileEvent::Did(Err(failed("not empty")));
                }
                FileEvent::Did(self.take(&path).map(|_| ()))
            }
            FileAction::CreateDir { path } => {
                self.dir(&path);
                FileEvent::Did(Ok(()))
            }
            FileAction::Recycle { path } => match self.take(&path) {
                Ok(tree) => {
                    let at = self.bin.len() as i64;
                    self.bin.push((path, tree, at));
                    FileEvent::Did(Ok(()))
                }
                Err(f) => FileEvent::Did(Err(f)),
            },
            FileAction::ListBin => FileEvent::Bin(Ok(self
                .bin
                .iter()
                .map(|(p, _, t)| BinItem { original_path: p.clone(), time_deleted: *t })
                .collect())),
            FileAction::Restore { items } => {
                let mut order = items;
                order.sort();
                for i in order.into_iter().rev() {
                    let (p, tree, _) = self.bin.remove(i);
                    self.put(&p, tree);
                }
                FileEvent::Did(Ok(()))
            }
            FileAction::Finished => unreachable!(),
        }
    }

    fn run_paste(&mut self, sources: &[&str], dest: &str, cut: bool) -> PasteOutcome {
        let mut m = Paste::new(UNIX, sources.iter().map(|s| s.to_string()).collect(), dest, cut);
        let mut act = m.next(FileEvent::Begin);
        while !matches!(act, FileAction::Finished) {
            let event = self.perform(act);
            act = m.next(event);
        }
        m.outcome()
    }

    fn run_undo(&mut self, op: UndoOp) -> Result<UndoDone, String> {
        let mut m = Undo::new(UNIX, op);
        let mut act = m.next(FileEvent::Begin);
        while !matches!(act, FileAction::Finished) {
            let event = self.perform(act);
            act = m.next(event);
        }
        m.outcome().unwrap()
    }

    fn run_delete(&mut self, paths: &[&str]) -> (Vec<String>, Option<String>) {
        let mut m = Deletion::new(UNIX, paths.iter().map(|s| s.to_string()).collect());
        let mut act = m.next(FileEvent::Begin);
        while !matches!(act, FileAction::Finished) {
            let event = self.perform(act);
            act = m.next(event);
        }
        let out = m.outcome();
        (out.recycled, out.error)
    }
}

fn moved(from: &str, to: &str) -> Moved {
    Moved { from: from.to_string(), to: to.to_string() }
}

fn pairs_of(op: &UndoOp) -> Vec<(String, String)> {
    match op {
        UndoOp::MoveBack { pairs } => pairs.iter().map(|m| (m.from.clone(), m.to.clone())).collect(),
        _ => panic!("not a move"),
    }
}

fn rename_of(op: &UndoOp) -> (&str, &str) {
    match op {
        UndoOp::Rename { from, to } => (from, to),
        _ => panic!("not a rename"),
    }
}

#[test]
fn unique_dest_never_clashes() {
    let mut d = Disk::default();
    let dest = |d: &Disk, name: &str| unique_dest(UNIX, "/uniq", name, |p: &str| d.items.contains_key(p));
    assert_eq!(dest(&d, "a.txt"), "/uniq/a.txt"); // free
    d.file("/uniq/a.txt", b"x");
    assert_eq!(dest(&d, "a.txt"), "/uniq/a - Copy.txt"); // clash → suffix before ext
    d.file("/uniq/a - Copy.txt", b"x");
    assert_eq!(dest(&d, "a.txt"), "/uniq/a - Copy (2).txt");
    // No-extension (folder) name.
    d.dir("/uniq/dir");
    assert_eq!(dest(&d, "dir"), "/uniq/dir - Copy");
}

#[test]
fn unique_dest_treats_dangling_symlink_as_taken() {
    // A link whose target is missing still has its name.
    let mut d = Disk::default();
    d.items.insert("/dangling/a.txt".to_string(), Item::Link("/nonexistent/sector-target".to_string()));
    let dest = unique_dest(UNIX, "/dangling", "a.txt", |p: &str| d.items.contains_key(p));
    assert_ne!(dest, "/dangling/a.txt");
    assert_eq!(dest, "/dangling/a - Copy.txt");
}

#[test]
fn paste_copy_preserves_source_and_never_overwrites() {
    let mut d = Disk::default();
    d.dir("/copy/src");
    d.file("/copy/src/f.txt", b"hello");
    d.dir("/copy/src/sub");
    d.file("/copy/src/sub/g.bin", &[7u8; 10]);
    d.dir("/copy/dest");

    let out = d.run_paste(&["/copy/src"], "/copy/dest", false);
    assert!(out.error.is_none());
    assert_eq!(out.last_name(UNIX).as_deref(), Some("src"));
    assert!(d.has("/copy/src/f.txt")); // source preserved (copy)
    assert_eq!(d.read("/copy/dest/src/f.txt"), b"hello");
    assert!(d.has("/copy/dest/src/sub/g.bin"));

    // Paste again → must NOT overwrite; lands as "src - Copy".
    let out2 = d.run_paste(&["/copy/src"], "/copy/dest", false);
    assert_eq!(out2.last_name(UNIX).as_deref(), Some("src - Copy"));
    assert!(d.has("/copy/dest/src/f.txt")); // first copy untouched
    assert!(d.has("/copy/dest/src - Copy/f.txt"));
    assert!(!d.log.iter().any(|l| l.starts_with("remove")));
}

#[test]
fn paste_skips_and_refuses_symlinks() {
    let mut d = Disk::default();
    // A source folder containing a symlink to an OUTSIDE directory.
    d.dir("/link/outside");
    d.file("/link/outside/secret.txt", b"do not copy me");
    d.dir("/link/src");
    d.file("/link/src/real.txt", b"ok");
    d.items.insert("/link/src/link".to_string(), Item::Link("/link/outside".to_string()));
    assert_eq!(d.read("/link/src/link/secret.txt"), b"do not copy me"); // the trap is real
    d.dir("/link/dest");

    // Copying the folder skips the symlink (never follows into `outside`).
    assert!(d.run_paste(&["/link/src"], "/link/dest", false).error.is_none());
    assert!(d.has("/link/dest/src/real.txt"));
    assert!(!d.has("/link/dest/src/link")); // link skipped
    assert!(!d.has("/link/dest/src/link/secret.txt")); // target NOT copied
    assert!(!d.items.iter().any(|(k, i)| starts_with(UNIX, k, "/link/dest") && *i == Item::File(b"do not copy me".to_vec())));

    // A symlink AS the source is refused outright.
    let err = d.run_paste(&["/link/src/link"], "/link/dest", false).error.unwrap();
    assert!(err.contains("link/junction"));
}

#[test]
fn paste_cut_moves_and_removes_source() {
    let mut d = Disk::default();
    d.file("/cut/m.txt", b"data");
    d.dir("/cut/dest");
    let out = d.run_paste(&["/cut/m.txt"], "/cut/dest", true);
    assert_eq!(out.last_name(UNIX).as_deref(), Some("m.txt"));
    assert!(!d.has("/cut/m.txt")); // source gone (moved)
    assert_eq!(d.read("/cut/dest/m.txt"), b"data");
    assert!(d.log.is_empty()); // by a rename alone

    // Across volumes the copy comes first and then the source goes.
    d.no_rename = true;
    let out = d.run_paste(&["/cut/dest/m.txt"], "/cut", true);
    assert!(out.error.is_none());
    assert_eq!(d.log, vec!["copy /cut/dest/m.txt /cut/m.txt", "remove /cut/dest/m.txt"]);
}

#[test]
fn paste_reports_completed_items_on_partial_failure() {
    let mut d = Disk::default();
    d.file("/partial/ok.txt", b"1");
    d.dir("/partial/dest");
    // Second source doesn't exist → the paste fails there, but the first
    // item really was copied and must be reported (Undo reverses it).
    let out = d.run_paste(&["/partial/ok.txt", "/partial/missing.txt"], "/partial/dest", false);
    assert!(out.error.is_some());
    assert_eq!(out.done.len(), 1);
    assert_eq!(out.done[0].to, "/partial/dest/ok.txt");
}

#[test]
fn undo_move_restores_original_name() {
    let mut d = Disk::default();
    d.file("/u/m.txt", b"mine");
    d.dir("/u/dest");
    d.file("/u/dest/m.txt", b"theirs"); // name taken at the destination
    let out = d.run_paste(&["/u/m.txt"], "/u/dest", true);
    assert_eq!(out.done[0].to, "/u/dest/m - Copy.txt"); // auto-renamed on paste

    // Undo puts it back under its ORIGINAL name, leaving "theirs" untouched.
    let done = d.run_undo(UndoOp::MoveBack { pairs: out.done }).ok().unwrap();
    assert_eq!(done.select.as_deref(), Some("/u/m.txt"));
    assert_eq!(d.read("/u/m.txt"), b"mine");
    assert_eq!(d.read("/u/dest/m.txt"), b"theirs");
    assert!(!d.has("/u/dest/m - Copy.txt"));

    // Redo (the inverse) moves it into dest again — back to "m - Copy.txt",
    // since "m.txt" there is still taken — and yields the undo for THAT.
    let inv = done.inverse.unwrap();
    assert_eq!(pairs_of(&inv), vec![("/u/dest/m - Copy.txt".to_string(), "/u/m.txt".to_string())]);
    let redone = d.run_undo(inv).ok().unwrap();
    assert_eq!(d.read("/u/dest/m - Copy.txt"), b"mine");
    assert!(!d.has("/u/m.txt"));
    assert_eq!(
        pairs_of(&redone.inverse.unwrap()),
        vec![("/u/m.txt".to_string(), "/u/dest/m - Copy.txt".to_string())]
    );
}

#[test]
fn undo_rename_and_new_folder() {
    let mut d = Disk::default();
    // Rename a → b, undo → a again; and refuse to undo over a newcomer.
    d.file("/m/b.txt", b"x");
    let op = UndoOp::Rename { from: "/m/b.txt".to_string(), to: "/m/a.txt".to_string() };
    let done = d.run_undo(op.copy()).ok().unwrap();
    assert_eq!(done.select.as_deref(), Some("/m/a.txt"));
    assert!(d.has("/m/a.txt") && !d.has("/m/b.txt"));
    // Redo is the mirror image, and its own inverse is the original undo.
    let inv = done.inverse.unwrap();
    assert_eq!(rename_of(&inv), ("/m/a.txt", "/m/b.txt"));
    let back = d.run_undo(inv).ok().unwrap().inverse.unwrap();
    assert_eq!(rename_of(&back), ("/m/b.txt", "/m/a.txt"));
    assert!(d.has("/m/b.txt") && !d.has("/m/a.txt"));
    d.file("/m/a.txt", b"newcomer");
    assert!(d.run_undo(op).err().unwrap().contains("something is now named"));
    assert_eq!(d.read("/m/a.txt"), b"newcomer"); // untouched

    // New folder: undo removes it while empty, refuses once it has content;
    // redo re-creates it.
    d.dir("/m/nf");
    let done = d.run_undo(UndoOp::RemoveDir { path: "/m/nf".to_string() }).ok().unwrap();
    assert!(!d.has("/m/nf"));
    let inv = done.inverse.unwrap();
    assert!(matches!(&inv, UndoOp::MakeDir { path } if path == "/m/nf"));
    let redone = d.run_undo(inv).ok().unwrap();
    assert!(d.has("/m/nf"));
    assert_eq!(redone.select.as_deref(), Some("/m/nf"));
    assert!(matches!(redone.inverse, Some(UndoOp::RemoveDir { path }) if path == "/m/nf"));
    d.dir("/m/nf2");
    d.file("/m/nf2/keep.txt", b"!");
    let err = d.run_undo(UndoOp::RemoveDir { path: "/m/nf2".to_string() }).err().unwrap();
    assert_eq!(err, "Couldn't remove “nf2” — it may no longer be empty (not empty).");
    assert!(d.has("/m/nf2/keep.txt"));
}

#[test]
fn a_case_only_rename_is_undone_without_asking() {
    let mut m = Undo::new(UNIX, UndoOp::Rename { from: "/m/FOO".to_string(), to: "/m/foo".to_string() });
    assert!(matches!(m.next(FileEvent::Begin), FileAction::Rename { .. }));
    assert!(matches!(m.next(FileEvent::Did(Err(failed("denied")))), FileAction::Finished));
    assert_eq!(m.outcome().unwrap().err().unwrap(), "Couldn't undo the rename: denied");
}

#[test]
fn undo_delete_restores_from_trash() {
    let mut d = Disk::default();
    d.file("/t/gone.txt", b"bring me back");
    assert_eq!(d.run_delete(&["/t/gone.txt"]), (vec!["/t/gone.txt".to_string()], None));
    assert!(!d.has("/t/gone.txt"));
    let restore = || UndoOp::Restore { paths: vec!["/t/gone.txt".to_string()] };
    let done = d.run_undo(restore()).ok().unwrap();
    assert_eq!(done.select.as_deref(), Some("/t/gone.txt"));
    assert_eq!(d.read("/t/gone.txt"), b"bring me back");
    // A second undo of the same delete finds nothing to restore.
    assert!(d.run_undo(restore()).err().unwrap().contains("isn't in"));
    // Redo (the inverse) trashes it again, and THAT yields a restore.
    let inv = done.inverse.unwrap();
    assert!(matches!(&inv, UndoOp::Trash { paths } if paths == &["/t/gone.txt"]));
    let redone = d.run_undo(inv).ok().unwrap();
    assert!(!d.has("/t/gone.txt"));
    assert!(matches!(redone.inverse, Some(UndoOp::Restore { paths }) if paths == ["/t/gone.txt"]));
}

#[test]
fn a_bin_that_cannot_be_read_or_restored_from_is_reported() {
    let op = || UndoOp::Restore { paths: vec!["/t/a".to_string()] };
    let mut m = Undo::new(UNIX, op());
    assert!(matches!(m.next(FileEvent::Begin), FileAction::ListBin));
    m.next(FileEvent::Bin(Err("locked".to_string())));
    assert_eq!(m.outcome().unwrap().err().unwrap(), "Couldn't read the Recycle Bin: locked");
    let mut m = Undo::new(UNIX, op());
    m.next(FileEvent::Begin);
    let item = BinItem { original_path: "/T/A".to_string(), time_deleted: 1 };
    assert!(matches!(m.next(FileEvent::Bin(Ok(vec![item]))), FileAction::Restore { items } if items == [0]));
    m.next(FileEvent::Did(Err(failed("no"))));
    assert_eq!(m.outcome().unwrap().err().unwrap(), "Couldn't restore from the Recycle Bin: no");
}

#[test]
fn the_latest_deletion_is_restored() {
    let item = |p: &str, t: i64| BinItem { original_path: p.to_string(), time_deleted: t };
    let items = vec![item("/a", 5), item("/A", 9), item("/b", 99), item("/a", 9), item("/a", 2)];
    assert_eq!(pick_from_bin(UNIX, &items, &vec!["/a".to_string()]), Ok(vec![3]));
    assert_eq!(
        pick_from_bin(UNIX, &items, &vec!["/b".to_string(), "/x/c".to_string()]),
        Err("“c” isn't in the Recycle Bin any more.".to_string())
    );
}

#[test]
fn network_paths_are_removed_for_good() {
    let mut d = Disk::default();
    d.file("/n/a", b"1");
    d.file("/l/b", b"2");
    d.network.push("/n/a".to_string());
    let (recycled, error) = d.run_delete(&["/n/a", "/l/b", "/l/c"]);
    assert_eq!(recycled, vec!["/l/b".to_string()]);
    assert_eq!(error.as_deref(), Some("Couldn't delete: c: not found"));
    assert_eq!(d.log, vec!["remove /n/a"]);
    // The reversal of a copy reports in its own words.
    let err = d.run_undo(UndoOp::Trash { paths: vec!["/l/c".to_string()] }).err().unwrap();
    assert_eq!(err, "Couldn't remove some items: c: not found");
}

#[test]
fn files_are_moved_back_last_first() {
    let mut d = Disk::default();
    d.file("/to/a", b"1");
    d.file("/to/b", b"2");
    d.dir("/from");
    let op = UndoOp::MoveBack { pairs: vec![moved("/from/a", "/to/a"), moved("/from/b", "/to/b")] };
    d.no_rename = true;
    let done = d.run_undo(op).ok().unwrap();
    assert_eq!(
        d.log,
        vec!["copy /to/b /from/b", "remove /to/b", "copy /to/a /from/a", "remove /to/a"]
    );
    assert_eq!(done.select.as_deref(), Some("/from/a"));
    let inverse = pairs_of(&done.inverse.unwrap());
    assert_eq!(inverse[0], ("/to/a".to_string(), "/from/a".to_string()));
    assert_eq!(inverse[1], ("/to/b".to_string(), "/from/b".to_string()));
    // A file that is gone stops it.
    let err = d.run_undo(UndoOp::MoveBack { pairs: vec![moved("/from/z", "/to/z")] }).err().unwrap();
    assert_eq!(err, "Couldn't move “z” back: not found");
    let err = d.run_undo(UndoOp::MoveBack { pairs: vec![moved("/", "/to/z")] }).err().unwrap();
    assert_eq!(err, "Couldn't move “z” back: Invalid original path.");
    assert_eq!(parent(UNIX, "/"), None);
}

#[test]
fn a_failed_copy_is_cleaned_up_unless_something_was_there() {
    let mut m = Paste::new(UNIX, vec!["/s/a".to_string()], "/d", false);
    assert!(matches!(m.next(FileEvent::Begin), FileAction::IsLink { .. }));
    assert!(matches!(m.next(FileEvent::Answer(false)), FileAction::FindDest { .. }));
    assert!(matches!(m.next(FileEvent::Place("/d/a".to_string())), FileAction::Copy { .. }));
    let act = m.next(FileEvent::Did(Err(failed("disk full"))));
    assert!(matches!(act, FileAction::Remove { path } if path == "/d/a"));
    assert!(matches!(m.next(FileEvent::Did(Ok(()))), FileAction::Finished));
    assert!(m.outcome().error.unwrap().contains("disk full"));

    let mut m = Paste::new(UNIX, vec!["/s/a".to_string()], "/d", false);
    m.next(FileEvent::Begin);
    m.next(FileEvent::Answer(false));
    m.next(FileEvent::Place("/d/a".to_string()));
    let there = Failure { message: "exists".to_string(), already_exists: true };
    assert!(matches!(m.next(FileEvent::Did(Err(there))), FileAction::Finished));
}

fn candidate(path: &str, is_dir: bool) -> Candidate {
    Candidate { path: path.to_string(), canonical: path.to_string(), is_dir }
}

fn word(c: TransferCheck) -> String {
    match c {
        TransferCheck::Busy(m) | TransferCheck::Refused(m) | TransferCheck::Go(m) => m,
        TransferCheck::Nothing => "nothing".to_string(),
    }
}

#[test]
fn transfers_are_checked_before_they_start() {
    let dir = vec![candidate("/a/d", true)];
    let two = vec![candidate("/a/x", false), candidate("/b/y", false)];
    assert_eq!(word(check_transfer(UNIX, true, &dir, "/z", false)), "Wait for the current file operation to finish.");
    assert_eq!(word(check_transfer(UNIX, false, &Vec::new(), "/z", false)), "nothing");
    assert_eq!(word(check_transfer(UNIX, false, &dir, "/a/d/e", false)), "Can't paste a folder into itself.");
    assert_eq!(word(check_transfer(UNIX, false, &two, "/b", true)), "It's already in this folder.");
    assert_eq!(word(check_transfer(UNIX, false, &two, "/b", false)), "Copying 2 items…");
    assert_eq!(word(check_transfer(UNIX, false, &dir, "/z", true)), "Moving “d”…");
}

const PLAIN: FileFacts = FileFacts { is_link: false, attributes: None, is_dir: false };

fn ended(m: TreeCopy) -> String {
    m.outcome().unwrap().err().unwrap().message
}

#[test]
fn a_copy_goes_through_a_tree_in_order() {
    let mut m = TreeCopy::new(UNIX, "/s", "/d");
    assert!(matches!(m.next(CopyEvent::Begin, false), CopyAction::Stat { path } if path == "/s"));
    let dir = FileFacts { is_dir: true, ..PLAIN };
    assert!(matches!(m.next(CopyEvent::Stat(Ok(dir)), false), CopyAction::CreateDir { path } if path == "/d"));
    assert!(matches!(m.next(CopyEvent::Did(Ok(())), false), CopyAction::List { path } if path == "/s"));
    let names = vec![Ok("a".to_string()), Ok("link".to_string()), Err(failed("unreadable"))];
    assert!(matches!(m.next(CopyEvent::Listed(Ok(names)), false), CopyAction::Stat { path } if path == "/s/a"));
    let copies = m.next(CopyEvent::Stat(Ok(PLAIN)), false);
    assert!(matches!(copies, CopyAction::CopyFile { from, to } if from == "/s/a" && to == "/d/a"));
    assert!(matches!(m.next(CopyEvent::Did(Ok(())), false), CopyAction::Stat { path } if path == "/s/link"));
    // A junction is passed over; an entry that could not be read ends the copy.
    let junction = FileFacts { attributes: Some(0x410), is_dir: true, ..PLAIN };
    assert!(matches!(m.next(CopyEvent::Stat(Ok(junction)), false), CopyAction::Finished));
    assert_eq!(ended(m), "unreadable");
}

#[test]
fn a_copy_stops_at_the_first_failure() {
    let begun = || {
        let mut m = TreeCopy::new(UNIX, "/s", "/d");
        m.next(CopyEvent::Begin, false);
        m
    };
    let mut m = begun();
    assert!(matches!(m.next(CopyEvent::Stat(Err(failed("gone"))), false), CopyAction::Finished));
    assert_eq!(ended(m), "gone");
    let mut m = begun();
    m.next(CopyEvent::Stat(Ok(PLAIN)), false);
    m.next(CopyEvent::Did(Err(failed("disk full"))), false);
    assert_eq!(ended(m), "disk full");
    let mut m = begun();
    m.next(CopyEvent::Stat(Ok(FileFacts { is_dir: true, ..PLAIN })), false);
    m.next(CopyEvent::Did(Ok(())), false);
    m.next(CopyEvent::Listed(Err(failed("locked"))), false);
    assert_eq!(ended(m), "locked");
    let mut m = TreeCopy::new(UNIX, "/s", "/d");
    assert!(matches!(m.next(CopyEvent::Begin, true), CopyAction::Finished));
    assert_eq!(ended(m), "cancelled");
    // 513 folders down is one too many.
    let mut m = begun();
    let mut looks = 1;
    loop {
        m.next(CopyEvent::Stat(Ok(FileFacts { is_dir: true, ..PLAIN })), false);
        m.next(CopyEvent::Did(Ok(())), false);
        match m.next(CopyEvent::Listed(Ok(vec![Ok("x".to_string())])), false) {
            CopyAction::Stat { .. } => looks += 1,
            _ => break,
        }
    }
    assert_eq!(looks, 513);
    assert_eq!(ended(m), "directory tree too deep to copy");
}

#[test]
fn copies_stop_when_cancelled_or_too_deep() {
    assert_eq!(may_copy(false, 512), None);
    assert_eq!(may_copy(false, 513), Some(CopyStop::TooDeep));
    assert_eq!(may_copy(true, 513), Some(CopyStop::Cancelled));
    assert_eq!(copy_kind(false, Some(0x410), true), CopyKind::Skip);
    assert_eq!(copy_kind(true, None, false), CopyKind::Skip);
    assert_eq!(copy_kind(false, Some(0x10), true), CopyKind::Dir);
    assert_eq!(copy_kind(false, None, false), CopyKind::File);
}

fn entry(n: usize) -> UndoEntry {
    UndoEntry::new(UndoOp::MakeDir { path: n.to_string() }, "new folder")
}

#[test]
fn the_history_forgets_its_oldest() {
    let mut h = History::new();
    for n in 0..60 {
        h.push_undo(entry(n));
    }
    assert_eq!(h.undo.len(), UNDO_CAP);
    assert!(matches!(&h.undo[0].op, UndoOp::MakeDir { path } if path == "10"));
    // Undoing moves entries to the other stack under their label.
    assert!(h.start_reversal(false, true).is_none());
    let e = h.start_reversal(false, false).unwrap();
    assert!(matches!(&e.op, UndoOp::MakeDir { path } if path == "59"));
    h.record_inverse(Some(UndoOp::RemoveDir { path: "59".to_string() }), e.label, false);
    assert_eq!((h.undo.len(), h.redo.len()), (49, 1));
    let r = h.start_reversal(true, false).unwrap();
    assert_eq!(r.label, "new folder");
    h.record_inverse(None, r.label, true);
    assert_eq!((h.undo.len(), h.redo.len()), (49, 0));
    // A new operation ends what could be redone.
    h.record_inverse(Some(UndoOp::RemoveDir { path: "x".to_string() }), "new folder", false);
    h.push_undo(entry(99));
    assert!(h.redo.is_empty());
    assert!(h.start_reversal(true, false).is_none());
}

#[test]
fn undoing_twice_leaves_everything_as_it_was() {
    let mut d = Disk::default();
    d.dir("/m");
    d.dir("/m/b");
    d.file("/m/b/x.txt", b"x");
    d.dir("/m/empty");
    let before = d.items.clone();
    let ops = [
        UndoOp::Rename { from: "/m/b".to_string(), to: "/m/a".to_string() },
        UndoOp::RemoveDir { path: "/m/empty".to_string() },
        UndoOp::MakeDir { path: "/m/n".to_string() },
    ];
    for op in ops {
        let inverse = d.run_undo(op).ok().unwrap().inverse.unwrap();
        assert!(d.items != before);
        assert!(d.run_undo(inverse).is_ok());
        assert!(d.items == before);
    }
}

#[test]
fn moves_are_undone_and_redone() {
    let mut d = Disk::default();
    for p in ["/s", "/s/dir", "/t"] {
        d.dir(p);
    }
    d.file("/s/a.txt", b"a");
    d.file("/s/dir/in.txt", b"in");
    d.file("/t/a.txt", b"theirs");
    let before = d.items.clone();
    let out = d.run_paste(&["/s/a.txt", "/s/dir"], "/t", true);
    assert!(out.error.is_none() && out.done.len() == 2);
    let after = d.items.clone();
    assert_eq!(d.read("/t/a - Copy.txt"), b"a");
    assert_eq!(d.read("/t/dir/in.txt"), b"in");
    // Undone, everything is as it was; redone, everything is as it was moved.
    let mut op = UndoOp::MoveBack { pairs: out.done };
    for want in [&before, &after, &before, &after] {
        op = d.run_undo(op).ok().unwrap().inverse.unwrap();
        assert!(d.items == *want);
    }
    assert_eq!(
        pairs_of(&op),
        [("/s/a.txt".to_string(), "/t/a - Copy.txt".to_string()), ("/s/dir".to_string(), "/t/dir".to_string())]
    );
}
