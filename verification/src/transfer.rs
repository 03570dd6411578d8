//! Copying and moving files, one decision at a time.
//!
//! A machine here says which file operation comes next; whoever runs it does the
//! operation and reports how it went. A move is a rename where the volume
//! allows it and a copy that removes its source otherwise, and a source is
//! removed only once its copy is complete.
use vstd::prelude::*;
use crate::location::{self, name_of};
use crate::paths::{self, file_name, parent, same_path, starts_with, PathStyle};
use crate::text::{self, cat3};

verus! {

/// A file operation or a question about a file.
pub enum FileAction {
    /// Is this a link or junction? Answered with [`FileEvent::Answer`].
    IsLink { path: String },
    /// Is anything at this path? Answered with [`FileEvent::Answer`].
    IsTaken { path: String },
    /// Is this on a network drive? Answered with [`FileEvent::Answer`].
    IsNetwork { path: String },
    /// Which path in `dir` is free for `name`? Answered with
    /// [`FileEvent::Place`].
    FindDest { dir: String, name: String },
    Rename { from: String, to: String },
    /// Copies a file or a tree.
    Copy { from: String, to: String },
    /// Removes a file or a tree for good.
    Remove { path: String },
    /// Removes a folder that is empty.
    RemoveEmptyDir { path: String },
    CreateDir { path: String },
    /// Sends a file or a tree to the recycle bin.
    Recycle { path: String },
    /// What is in the recycle bin? Answered with [`FileEvent::Bin`].
    ListBin,
    /// Restores these items of the recycle bin, by their places in the list.
    Restore { items: Vec<usize> },
    /// Nothing is left to do.
    Finished,
}

/// Why an operation failed.
pub struct Failure {
    pub message: String,
    /// Something was at the destination already.
    pub already_exists: bool,
}

/// An item of the recycle bin.
pub struct BinItem {
    pub original_path: String,
    /// When it was deleted.
    pub time_deleted: i64,
}

/// How the last action went.
pub enum FileEvent {
    /// Nothing was done yet.
    Begin,
    Answer(bool),
    Place(String),
    Did(Result<(), Failure>),
    Bin(Result<Vec<BinItem>, String>),
}

/// A file that got from one path to another.
pub struct Moved {
    pub from: String,
    pub to: String,
}

/// What a transfer accomplished: everything it completed, in order, and the
/// error that stopped it.
pub struct PasteOutcome {
    pub done: Vec<Moved>,
    pub error: Option<String>,
}

impl PasteOutcome {
    /// The name that the last completed item got.
    pub fn last_name(&self, style: PathStyle) -> (r: Option<String>)
        ensures
            text::opt_text(r) == (if self.done@.len() > 0 {
                paths::file_name_spec(style, self.done@.last().to@)
            } else {
                None
            }),
    {
        let n: usize = self.done.len();
        if n == 0 {
            return None;
        }
        file_name(style, self.done[n - 1].to.as_str())
    }
}

/// Where a transfer stands with its current source.
pub enum PasteStep {
    Ready,
    /// Asked whether the source is a link.
    Inspecting { name: String },
    /// Asked for a destination.
    Placing { name: String },
    Renaming { name: String, dst: String },
    Copying { name: String, dst: String },
    /// The copy is complete; removing the source.
    Removing { name: String, dst: String },
    /// The copy failed; removing what it left.
    Cleaning { why: String },
    Ended { error: Option<String> },
}

/// A transfer of files into a folder.
pub struct Paste {
    pub style: PathStyle,
    pub sources: Vec<String>,
    pub dest_dir: String,
    /// Move rather than copy.
    pub cut: bool,
    pub done: Vec<Moved>,
    pub step: PasteStep,
}

/// The event is one that the step waits for.
pub open spec fn awaits(step: PasteStep, ev: FileEvent) -> bool {
    match step {
        PasteStep::Ready => ev is Begin,
        PasteStep::Inspecting { .. } => ev is Answer,
        PasteStep::Placing { .. } => ev is Place,
        PasteStep::Renaming { .. } => ev is Did,
        PasteStep::Copying { .. } => ev is Did,
        PasteStep::Removing { .. } => ev is Did,
        PasteStep::Cleaning { .. } => ev is Did,
        PasteStep::Ended { .. } => false,
    }
}

/// The transfer ends with that error or without one.
pub open spec fn ends(p: Paste, q: Paste, act: FileAction, error: Option<Seq<char>>) -> bool {
    &&& q == (Paste { step: q.step, done: q.done, ..p })
    &&& q.done@ == p.done@
    &&& q.step matches PasteStep::Ended { error: e } && text::opt_text(e) == error
    &&& act is Finished
}

/// The transfer turns to the first source that is not done, or ends.
pub open spec fn turns_to_next(p: Paste, q: Paste, act: FileAction) -> bool {
    if p.done@.len() >= p.sources@.len() {
        ends(p, q, act, None)
    } else {
        let src = p.sources@[p.done@.len() as int]@;
        match paths::file_name_spec(p.style, src) {
            None => ends(p, q, act, Some("Invalid source path."@)),
            Some(n) => {
                &&& q == (Paste { step: q.step, done: q.done, ..p })
                &&& q.done@ == p.done@
                &&& q.step matches PasteStep::Inspecting { name } && name@ == n
                &&& act matches FileAction::IsLink { path } && path@ == src
            },
        }
    }
}

/// The current source is done, at `dst`, and the transfer goes on.
pub open spec fn completes(p: Paste, q: Paste, act: FileAction, dst: Seq<char>) -> bool {
    exists|m: Paste|
        m == (Paste { step: m.step, done: m.done, ..p }) && m.done@.len() == p.done@.len() + 1 && m.done@.drop_last()
            == p.done@ && m.done@.last().from@ == p.sources@[p.done@.len() as int]@ && m.done@.last().to@ == dst
            && #[trigger] turns_to_next(m, q, act)
}

/// The source that a transfer is at.
pub open spec fn current_source(p: Paste) -> Seq<char> {
    p.sources@[p.done@.len() as int]@
}

/// One step of a transfer.
pub open spec fn paste_step(p: Paste, ev: FileEvent, q: Paste, act: FileAction) -> bool {
    let src = current_source(p);
    match (p.step, ev) {
        (PasteStep::Ready, FileEvent::Begin) => turns_to_next(p, q, act),
        (PasteStep::Inspecting { name }, FileEvent::Answer(link)) => if link {
            ends(p, q, act, Some("“"@ + name@ + "” is a link/junction — not copied."@))
        } else {
            &&& q == (Paste { step: PasteStep::Placing { name }, ..p })
            &&& act matches FileAction::FindDest { dir, name: n } && dir == p.dest_dir && n == name
        },
        (PasteStep::Placing { name }, FileEvent::Place(dst)) => if p.cut {
            &&& q == (Paste { step: PasteStep::Renaming { name, dst }, ..p })
            &&& act matches FileAction::Rename { from, to } && from@ == src && to == dst
        } else {
            &&& q == (Paste { step: PasteStep::Copying { name, dst }, ..p })
            &&& act matches FileAction::Copy { from, to } && from@ == src && to == dst
        },
        (PasteStep::Renaming { name, dst }, FileEvent::Did(r)) => if r is Ok {
            completes(p, q, act, dst@)
        } else {
            &&& q == (Paste { step: PasteStep::Copying { name, dst }, ..p })
            &&& act matches FileAction::Copy { from, to } && from@ == src && to == dst
        },
        (PasteStep::Copying { name, dst }, FileEvent::Did(r)) => match r {
            Ok(_) => if p.cut {
                &&& q == (Paste { step: PasteStep::Removing { name, dst }, ..p })
                &&& act matches FileAction::Remove { path } && path@ == src
            } else {
                completes(p, q, act, dst@)
            },
            Err(f) => {
                let error = (if p.cut {
                    "Move failed: "@
                } else {
                    "Copy failed: "@
                }) + f.message@;
                if f.already_exists {
                    ends(p, q, act, Some(error))
                } else {
                    &&& q == (Paste { step: q.step, ..p })
                    &&& q.step matches PasteStep::Cleaning { why } && why@ == error
                    &&& act matches FileAction::Remove { path } && path == dst
                }
            },
        },
        (PasteStep::Removing { name, dst }, FileEvent::Did(r)) => match r {
            Ok(_) => completes(p, q, act, dst@),
            Err(f) => ends(
                p,
                q,
                act,
                Some(
                    "Copied “"@ + name@ + "”, but couldn't remove the original ("@ + f.message@
                        + ") — both remain."@,
                ),
            ),
        },
        (PasteStep::Cleaning { why }, FileEvent::Did(_)) => ends(p, q, act, Some(why@)),
        _ => false,
    }
}

/// What is done are the first sources, in order, and the transfer is at one of
/// the rest while it runs.
pub open spec fn paste_ok(p: Paste) -> bool {
    &&& p.done@.len() <= p.sources@.len()
    &&& forall|i: int| 0 <= i < p.done@.len() ==> (#[trigger] p.done@[i]).from@ == p.sources@[i]@
    &&& !(p.step is Ready) && !(p.step is Ended) ==> p.done@.len() < p.sources@.len()
}

impl Paste {
    /// A transfer of `sources` into `dest_dir`.
    pub fn new(style: PathStyle, sources: Vec<String>, dest_dir: &str, cut: bool) -> (r: Paste)
        ensures
            r.style == style,
            r.sources == sources,
            r.dest_dir@ == dest_dir@,
            r.cut == cut,
            r.done@.len() == 0,
            r.step is Ready,
            paste_ok(r),
    {
        Paste { style, sources, dest_dir: dest_dir.to_owned(), cut, done: Vec::new(), step: PasteStep::Ready }
    }

    fn end(&mut self, error: Option<String>) -> (r: FileAction)
        ensures
            ends(*old(self), *final(self), r, text::opt_text(error)),
    {
        self.step = PasteStep::Ended { error };
        FileAction::Finished
    }

    fn turn_to_next(&mut self) -> (r: FileAction)
        requires
            old(self).done@.len() <= old(self).sources@.len(),
        ensures
            turns_to_next(*old(self), *final(self), r),
    {
        let k: usize = self.done.len();
        if k >= self.sources.len() {
            return self.end(None);
        }
        match file_name(self.style, self.sources[k].as_str()) {
            None => self.end(Some("Invalid source path.".to_owned())),
            Some(name) => {
                self.step = PasteStep::Inspecting { name };
                FileAction::IsLink { path: self.sources[k].clone() }
            },
        }
    }

    fn complete(&mut self, dst: String) -> (r: FileAction)
        requires
            old(self).done@.len() < old(self).sources@.len(),
        ensures
            completes(*old(self), *final(self), r, dst@),
    {
        let k: usize = self.done.len();
        let src = self.sources[k].clone();
        self.done.push(Moved { from: src, to: dst });
        proof {
            assert(self.done@.drop_last() =~= old(self).done@);
        }
        self.turn_to_next()
    }

    /// Takes how the last action went and says what comes next.
    pub fn next(&mut self, event: FileEvent) -> (r: FileAction)
        requires
            paste_ok(*old(self)),
            awaits(old(self).step, event),
        ensures
            paste_step(*old(self), event, *final(self), r),
            paste_ok(*final(self)),
            final(self).step is Ended <==> r is Finished,
    {
        let mut step = PasteStep::Ready;
        std::mem::swap(&mut step, &mut self.step);
        let k: usize = self.done.len();
        let act = match (step, event) {
            (PasteStep::Ready, FileEvent::Begin) => self.turn_to_next(),
            (PasteStep::Inspecting { name }, FileEvent::Answer(link)) => {
                if link {
                    self.end(Some(cat3("“", name.as_str(), "” is a link/junction — not copied.")))
                } else {
                    let n = name.clone();
                    self.step = PasteStep::Placing { name };
                    FileAction::FindDest { dir: self.dest_dir.clone(), name: n }
                }
            },
            (PasteStep::Placing { name }, FileEvent::Place(dst)) => {
                let from = self.sources[k].clone();
                let to = dst.clone();
                if self.cut {
                    self.step = PasteStep::Renaming { name, dst };
                    FileAction::Rename { from, to }
                } else {
                    self.step = PasteStep::Copying { name, dst };
                    FileAction::Copy { from, to }
                }
            },
            (PasteStep::Renaming { name, dst }, FileEvent::Did(r)) => {
                match r {
                    Ok(_) => self.complete(dst),
                    Err(_) => {
                        let from = self.sources[k].clone();
                        let to = dst.clone();
                        self.step = PasteStep::Copying { name, dst };
                        FileAction::Copy { from, to }
                    },
                }
            },
            (PasteStep::Copying { name, dst }, FileEvent::Did(r)) => {
                match r {
                    Ok(_) => {
                        if self.cut {
                            let path = self.sources[k].clone();
                            self.step = PasteStep::Removing { name, dst };
                            FileAction::Remove { path }
                        } else {
                            self.complete(dst)
                        }
                    },
                    Err(f) => {
                        let lead = if self.cut {
                            "Move failed: "
                        } else {
                            "Copy failed: "
                        };
                        let error = text::cat(lead, f.message.as_str());
                        if f.already_exists {
                            self.end(Some(error))
                        } else {
                            self.step = PasteStep::Cleaning { why: error };
                            FileAction::Remove { path: dst }
                        }
                    },
                }
            },
            (PasteStep::Removing { name, dst }, FileEvent::Did(r)) => {
                match r {
                    Ok(_) => self.complete(dst),
                    Err(f) => {
                        let mut error = cat3("Copied “", name.as_str(), "”, but couldn't remove the original (");
                        error.append(f.message.as_str());
                        error.append(") — both remain.");
                        self.end(Some(error))
                    },
                }
            },
            (PasteStep::Cleaning { why }, FileEvent::Did(_)) => self.end(Some(why)),
            _ => FileAction::Finished,
        };
        proof {
            law_done_in_order(*old(self), event, *self, act);
        }
        act
    }

    /// What the transfer accomplished.
    pub fn outcome(self) -> (r: PasteOutcome)
        ensures
            r.done == self.done,
            r.error == (match self.step {
                PasteStep::Ended { error } => error,
                _ => None,
            }),
    {
        let Paste { done, step, .. } = self;
        let error = match step {
            PasteStep::Ended { error } => error,
            _ => None,
        };
        PasteOutcome { done, error }
    }
}

proof fn lemma_turn_keeps_order(p: Paste, q: Paste, act: FileAction)
    requires
        p.done@.len() <= p.sources@.len(),
        forall|i: int| 0 <= i < p.done@.len() ==> (#[trigger] p.done@[i]).from@ == p.sources@[i]@,
        turns_to_next(p, q, act),
    ensures
        paste_ok(q),
        q.done@ == p.done@,
        q.sources == p.sources,
{
}

/// What a transfer reports as done are its first sources in order: completed
/// items are reported whatever happens to later ones, and none is skipped.
pub proof fn law_done_in_order(p: Paste, ev: FileEvent, q: Paste, act: FileAction)
    requires
        paste_ok(p),
        paste_step(p, ev, q, act),
    ensures
        paste_ok(q),
        q.sources == p.sources,
        p.done@.is_prefix_of(q.done@),
{
    assert(p.done@ =~= p.done@.subrange(0, p.done@.len() as int));
    if turns_to_next(p, q, act) {
        lemma_turn_keeps_order(p, q, act);
    }
    assert forall|dst: Seq<char>| #[trigger] completes(p, q, act, dst) && p.done@.len() < p.sources@.len() implies paste_ok(
        q,
    ) && q.sources == p.sources && p.done@.is_prefix_of(q.done@) by {
        let m = choose|m: Paste|
            m == (Paste { step: m.step, done: m.done, ..p }) && m.done@.len() == p.done@.len() + 1
                && m.done@.drop_last() == p.done@ && m.done@.last().from@ == p.sources@[p.done@.len() as int]@
                && m.done@.last().to@ == dst && #[trigger] turns_to_next(m, q, act);
        assert forall|i: int| 0 <= i < m.done@.len() implies (#[trigger] m.done@[i]).from@ == m.sources@[i]@ by {
            if i < p.done@.len() {
                assert(m.done@[i] == m.done@.drop_last()[i]);
            }
        }
        lemma_turn_keeps_order(m, q, act);
        assert(p.done@ =~= q.done@.subrange(0, p.done@.len() as int));
    }
}

/// Whatever a transfer removes is either a source whose copy was just completed,
/// in a move, or what its own failed copy left at a destination that was free.
pub proof fn law_nothing_else_is_removed(p: Paste, ev: FileEvent, q: Paste, act: FileAction)
    requires
        paste_ok(p),
        paste_step(p, ev, q, act),
    ensures
        act matches FileAction::Remove { path } ==> (p.step matches PasteStep::Copying { dst, .. } && (ev matches FileEvent::Did(
            r,
        ) && (match r {
            Ok(_) => p.cut && path@ == current_source(p),
            Err(f) => !f.already_exists && path == dst,
        }))),
{
}

/// A copy never renames, and never removes a source: it touches no source at
/// all.
pub proof fn law_copy_leaves_sources_alone(p: Paste, ev: FileEvent, q: Paste, act: FileAction)
    requires
        paste_ok(p),
        !p.cut,
        paste_step(p, ev, q, act),
    ensures
        !(act is Rename),
        !(q.step is Renaming) && !(q.step is Removing),
        act matches FileAction::Remove { path } ==> (p.step matches PasteStep::Copying { dst, .. } && path == dst),
{
}

/// The destination that is written to is the one that was found free.
pub proof fn law_destination_is_the_free_one(p: Paste, ev: FileEvent, q: Paste, act: FileAction)
    requires
        paste_ok(p),
        paste_step(p, ev, q, act),
    ensures
        act matches FileAction::Rename { to, .. } ==> ev == FileEvent::Place(to),
        act matches FileAction::Copy { to, .. } ==> (ev == FileEvent::Place(to) || (p.step matches PasteStep::Renaming {
            dst,
            ..
        } && dst == to)),
        q.step matches PasteStep::Renaming { dst, .. } ==> ev == FileEvent::Place(dst),
{
}

/// Where a deletion stands with its current path.
pub enum DeleteStep {
    Ready,
    /// Asked whether the path is on a network drive.
    Asking,
    /// Removing it for good: a network drive has no recycle bin.
    Removing,
    Recycling,
    Ended,
}

/// A deletion of several paths. One that fails does not stop the others.
pub struct Deletion {
    pub style: PathStyle,
    pub paths: Vec<String>,
    /// How many paths have been dealt with.
    pub at: usize,
    /// What went to the recycle bin.
    pub recycled: Vec<String>,
    pub errors: Vec<String>,
    pub step: DeleteStep,
}

/// The event is one that the step waits for.
pub open spec fn delete_awaits(step: DeleteStep, ev: FileEvent) -> bool {
    match step {
        DeleteStep::Ready => ev is Begin,
        DeleteStep::Asking => ev is Answer,
        DeleteStep::Removing => ev is Did,
        DeleteStep::Recycling => ev is Did,
        DeleteStep::Ended => false,
    }
}

/// The deletion turns to path `k`, or ends behind the last.
pub open spec fn deletes_next(p: Deletion, q: Deletion, act: FileAction, k: int) -> bool {
    &&& q == (Deletion { at: q.at, recycled: q.recycled, errors: q.errors, step: q.step, ..p })
    &&& q.at == k
    &&& if k < p.paths@.len() {
        q.step is Asking && (act matches FileAction::IsNetwork { path } && path == p.paths@[k])
    } else {
        q.step is Ended && act is Finished
    }
}

/// One step of a deletion.
pub open spec fn delete_step(p: Deletion, ev: FileEvent, q: Deletion, act: FileAction) -> bool {
    let path = p.paths@[p.at as int];
    match (p.step, ev) {
        (DeleteStep::Ready, FileEvent::Begin) => {
            &&& deletes_next(p, q, act, p.at as int)
            &&& q.recycled == p.recycled
            &&& q.errors == p.errors
        },
        (DeleteStep::Asking, FileEvent::Answer(network)) => {
            &&& q == (Deletion {
                step: if network {
                    DeleteStep::Removing
                } else {
                    DeleteStep::Recycling
                },
                ..p
            })
            &&& if network {
                act matches FileAction::Remove { path: x } && x == path
            } else {
                act matches FileAction::Recycle { path: x } && x == path
            }
        },
        (DeleteStep::Removing, FileEvent::Did(r)) => {
            &&& deletes_next(p, q, act, p.at + 1)
            &&& q.recycled == p.recycled
            &&& text::texts(q.errors@) == text::texts(p.errors@) + failure_line(p.style, path@, r)
        },
        (DeleteStep::Recycling, FileEvent::Did(r)) => {
            &&& deletes_next(p, q, act, p.at + 1)
            &&& q.recycled@ == (if r is Ok {
                p.recycled@.push(path)
            } else {
                p.recycled@
            })
            &&& text::texts(q.errors@) == text::texts(p.errors@) + failure_line(p.style, path@, r)
        },
        _ => false,
    }
}

/// What is reported of a path: its name and why it failed, or nothing.
pub open spec fn failure_line(style: PathStyle, path: Seq<char>, r: Result<(), Failure>) -> Seq<Seq<char>> {
    match r {
        Ok(_) => Seq::empty(),
        Err(f) => seq![location::name_spec(style, path) + ": "@ + f.message@],
    }
}

/// While it runs, a deletion is at one of its paths.
pub open spec fn delete_ok(p: Deletion) -> bool {
    &&& p.at <= p.paths@.len()
    &&& !(p.step is Ready) && !(p.step is Ended) ==> p.at < p.paths@.len()
}

impl Deletion {
    /// A deletion of `paths`.
    pub fn new(style: PathStyle, paths: Vec<String>) -> (r: Deletion)
        ensures
            r.style == style,
            r.paths == paths,
            r.at == 0,
            r.recycled@.len() == 0,
            r.errors@.len() == 0,
            r.step is Ready,
            delete_ok(r),
    {
        Deletion { style, paths, at: 0, recycled: Vec::new(), errors: Vec::new(), step: DeleteStep::Ready }
    }

    fn turn(&mut self) -> (r: FileAction)
        requires
            old(self).at <= old(self).paths@.len(),
        ensures
            deletes_next(*old(self), *final(self), r, old(self).at as int),
            final(self).recycled == old(self).recycled,
            final(self).errors == old(self).errors,
    {
        if self.at < self.paths.len() {
            self.step = DeleteStep::Asking;
            FileAction::IsNetwork { path: self.paths[self.at].clone() }
        } else {
            self.step = DeleteStep::Ended;
            FileAction::Finished
        }
    }

    /// Takes how the last action went and says what comes next.
    pub fn next(&mut self, event: FileEvent) -> (r: FileAction)
        requires
            delete_ok(*old(self)),
            delete_awaits(old(self).step, event),
        ensures
            delete_step(*old(self), event, *final(self), r),
            delete_ok(*final(self)),
            final(self).step is Ended <==> r is Finished,
    {
        match event {
            FileEvent::Answer(network) => {
                let path = self.paths[self.at].clone();
                if network {
                    self.step = DeleteStep::Removing;
                    FileAction::Remove { path }
                } else {
                    self.step = DeleteStep::Recycling;
                    FileAction::Recycle { path }
                }
            },
            FileEvent::Did(r) => {
                let n: usize = self.paths.len();
                assert(self.at < n);
                let path = self.paths[self.at].clone();
                let ghost before = text::texts(self.errors@);
                match r {
                    Ok(_) => {
                        if matches!(self.step, DeleteStep::Recycling) {
                            self.recycled.push(path);
                        }
                        assert(text::texts(self.errors@) =~= before + Seq::<Seq<char>>::empty());
                    },
                    Err(f) => {
                        let line = cat3(name_of(self.style, path.as_str()).as_str(), ": ", f.message.as_str());
                        self.errors.push(line);
                        assert(text::texts(self.errors@) =~= before + seq![line@]);
                    },
                }
                self.at = self.at + 1;
                self.turn()
            },
            _ => self.turn(),
        }
    }
}

/// What a deletion made: the paths that went to the recycle bin, and what
/// failed.
pub struct DeleteOutcome {
    pub recycled: Vec<String>,
    pub error: Option<String>,
}

/// The errors of a deletion in one line, if there are any.
pub open spec fn errors_line(lead: Seq<char>, errors: Seq<Seq<char>>) -> Option<Seq<char>> {
    if errors.len() == 0 {
        None
    } else {
        Some(lead + text::join(errors, "; "@))
    }
}

impl Deletion {
    /// The errors in one line behind `lead`, if there are any.
    pub fn errors_after(&self, lead: &str) -> (r: Option<String>)
        ensures
            text::opt_text(r) == errors_line(lead@, text::texts(self.errors@)),
    {
        if self.errors.len() == 0 {
            None
        } else {
            Some(text::cat(lead, text::joined(&self.errors, "; ").as_str()))
        }
    }

    /// What the deletion made.
    pub fn outcome(self) -> (r: DeleteOutcome)
        ensures
            r.recycled == self.recycled,
            text::opt_text(r.error) == errors_line("Couldn't delete: "@, text::texts(self.errors@)),
    {
        let error = self.errors_after("Couldn't delete: ");
        DeleteOutcome { recycled: self.recycled, error }
    }
}

/// A path is removed for good only where it is on a network drive, and everything
/// else goes to the recycle bin.
pub proof fn law_only_network_paths_are_removed_for_good(p: Deletion, ev: FileEvent, q: Deletion, act: FileAction)
    requires
        delete_ok(p),
        delete_step(p, ev, q, act),
    ensures
        act is Remove ==> ev == FileEvent::Answer(true) && p.step is Asking,
        act is Recycle ==> ev == FileEvent::Answer(false) && p.step is Asking,
        q.recycled@ != p.recycled@ ==> p.step is Recycling && (ev matches FileEvent::Did(r) && r is Ok),
{
}

/// A file to be transferred, with what the system knows of it.
pub struct Candidate {
    pub path: String,
    /// The path with links and aliases resolved, or the path itself.
    pub canonical: String,
    pub is_dir: bool,
}

/// Whether a transfer can start.
pub enum TransferCheck {
    /// Another file operation is running.
    Busy(String),
    /// There is nothing to transfer.
    Nothing,
    Refused(String),
    /// It can, and this is what it is called.
    Go(String),
}

/// What stands against transferring one file into `dest`, if anything.
pub open spec fn candidate_error(style: PathStyle, c: Candidate, dest: Seq<char>, cut: bool) -> Option<Seq<char>> {
    if c.is_dir && paths::under(style, dest, c.canonical@) {
        Some("Can't paste a folder into itself."@)
    } else if cut && location::is_child_of(style, c.canonical@, dest) {
        Some("It's already in this folder."@)
    } else {
        None
    }
}

/// What stands against transferring the first of the files that cannot be, from
/// `i` on.
pub open spec fn first_error(style: PathStyle, cs: Seq<Candidate>, dest: Seq<char>, cut: bool, i: int) -> Option<
    Seq<char>,
>
    decreases cs.len() - i,
{
    if i < 0 || i >= cs.len() {
        None
    } else {
        match candidate_error(style, cs[i], dest, cut) {
            Some(e) => Some(e),
            None => first_error(style, cs, dest, cut, i + 1),
        }
    }
}

/// What a transfer is called: `Moving “a.txt”…` or `Copying 3 items…`.
pub open spec fn transfer_label(style: PathStyle, first: Seq<char>, n: nat, cut: bool) -> Seq<char> {
    (if cut {
        "Moving "@
    } else {
        "Copying "@
    }) + (if n > 1 {
        crate::labels::dec(n) + " items"@
    } else {
        "“"@ + (match paths::file_name_spec(style, first) {
            Some(name) => name,
            None => Seq::empty(),
        }) + "”"@
    }) + "…"@
}

/// Whether a transfer of the candidates into `dest` (resolved likewise) can
/// start: one file operation at a time, never a folder into itself, and no move
/// to where a file is already.
pub fn check_transfer(style: PathStyle, busy: bool, cs: &Vec<Candidate>, dest: &str, cut: bool) -> (r: TransferCheck)
    ensures
        r is Busy <==> busy,
        r is Nothing <==> !busy && cs@.len() == 0,
        r is Refused <==> !busy && cs@.len() > 0 && first_error(style, cs@, dest@, cut, 0) is Some,
        r matches TransferCheck::Busy(m) ==> m@ == "Wait for the current file operation to finish."@,
        r matches TransferCheck::Refused(m) ==> first_error(style, cs@, dest@, cut, 0) == Some(m@),
        r matches TransferCheck::Go(m) ==> m@ == transfer_label(style, cs@[0].path@, cs@.len(), cut),
{
    if busy {
        return TransferCheck::Busy("Wait for the current file operation to finish.".to_owned());
    }
    let n: usize = cs.len();
    if n == 0 {
        return TransferCheck::Nothing;
    }
    let mut i: usize = 0;
    while i < n
        invariant
            n == cs@.len(),
            i <= n,
            !busy,
            n > 0,
            first_error(style, cs@, dest@, cut, 0) == first_error(style, cs@, dest@, cut, i as int),
        decreases n - i,
    {
        let c = &cs[i];
        if c.is_dir && starts_with(style, dest, c.canonical.as_str()) {
            return TransferCheck::Refused("Can't paste a folder into itself.".to_owned());
        }
        let inside = match parent(style, c.canonical.as_str()) {
            Some(d) => same_path(style, d.as_str(), dest),
            None => false,
        };
        if cut && inside {
            return TransferCheck::Refused("It's already in this folder.".to_owned());
        }
        i += 1;
    }
    let mut out = if cut {
        "Moving ".to_owned()
    } else {
        "Copying ".to_owned()
    };
    if n > 1 {
        let what = text::cat(crate::labels::decimal(n as u64).as_str(), " items");
        out.append(what.as_str());
    } else {
        let name = match file_name(style, cs[0].path.as_str()) {
            Some(s) => s,
            None => String::new(),
        };
        let what = cat3("“", name.as_str(), "”");
        assert(paths::file_name_spec(style, cs@[0].path@) is None ==> name@ =~= Seq::empty());
        out.append(what.as_str());
    }
    out.append("…");
    TransferCheck::Go(out)
}

/// A transfer that may start never puts a folder into itself.
pub proof fn law_no_folder_into_itself(style: PathStyle, cs: Seq<Candidate>, dest: Seq<char>, cut: bool, i: int, k: int)
    requires
        0 <= i <= k < cs.len(),
        first_error(style, cs, dest, cut, i) is None,
    ensures
        cs[k].is_dir ==> !paths::under(style, dest, cs[k].canonical@),
    decreases k - i,
{
    if i < k {
        law_no_folder_into_itself(style, cs, dest, cut, i + 1, k);
    }
}

/// How a copy goes on with one file or folder.
#[derive(Clone, Copy, Debug, PartialEq, Eq, Structural)]
pub enum CopyKind {
    /// A link or junction: left out, never followed.
    Skip,
    Dir,
    File,
}

/// Why a copy stops.
#[derive(Clone, Copy, Debug, PartialEq, Eq, Structural)]
pub enum CopyStop {
    Cancelled,
    TooDeep,
}

/// Whether a copy may go on at a depth: not when it was cancelled, and no deeper
/// than 512 folders.
pub fn may_copy(cancelled: bool, depth: u32) -> (r: Option<CopyStop>)
    ensures
        r == (if cancelled {
            Some(CopyStop::Cancelled)
        } else if depth > 512 {
            Some(CopyStop::TooDeep)
        } else {
            None
        }),
{
    if cancelled {
        Some(CopyStop::Cancelled)
    } else if depth > 512 {
        Some(CopyStop::TooDeep)
    } else {
        None
    }
}

/// How a copy goes on with what the system says of a file: a link or a reparse
/// point is left out.
pub open spec fn copied_as(is_link: bool, attributes: Option<u32>, is_dir: bool) -> CopyKind {
    if is_link || crate::browse::is_reparse(attributes) {
        CopyKind::Skip
    } else if is_dir {
        CopyKind::Dir
    } else {
        CopyKind::File
    }
}

/// A copy leaves out links and what has bit 10 of its attribute word set, and
/// nothing else: whatever other bits are set, a folder is copied as a folder and a
/// file as a file.
pub proof fn law_only_links_are_left_out(is_link: bool, attributes: Option<u32>, is_dir: bool)
    ensures
        copied_as(is_link, attributes, is_dir) == CopyKind::Skip <==> is_link || (attributes matches Some(a) && a & 0x400
            != 0),
        !is_link && (attributes matches Some(a) ==> a & 0x400 == 0) ==> copied_as(is_link, attributes, is_dir) == (
        if is_dir {
            CopyKind::Dir
        } else {
            CopyKind::File
        }),
{
    if let Some(a) = attributes {
        crate::browse::law_attribute_bits(a);
    }
}

/// How a copy goes on with what the system says of a file.
pub fn copy_kind(is_link: bool, attributes: Option<u32>, is_dir: bool) -> (r: CopyKind)
    ensures
        r == copied_as(is_link, attributes, is_dir),
        r == CopyKind::Skip <==> is_link || (attributes matches Some(a) && a & 0x400 != 0),
        r == CopyKind::Dir ==> is_dir,
        r == CopyKind::File ==> !is_dir,
{
    proof {
        law_only_links_are_left_out(is_link, attributes, is_dir);
    }
    let reparse = match attributes {
        Some(a) => a / 0x400 % 2 == 1,
        None => false,
    };
    if is_link || reparse {
        CopyKind::Skip
    } else if is_dir {
        CopyKind::Dir
    } else {
        CopyKind::File
    }
}

/// Where a move back stands with its current pair.
pub enum BackStep {
    Ready,
    /// Asked for a place at the original folder.
    Placing,
    Renaming { target: String },
    Copying { target: String },
    /// The copy is complete; removing what was copied back.
    Removing { target: String },
    /// The copy failed; removing what it left.
    Cleaning { why: String },
    Ended { error: Option<String> },
}

/// Moves files back to where they came from: the last one first, each to its
/// original name in its original folder or beside it.
pub struct MoveBack {
    pub style: PathStyle,
    /// From where to where each file had been moved.
    pub pairs: Vec<Moved>,
    /// The files that are back, in the order they were moved back: from where
    /// they had been to where they landed.
    pub landed: Vec<Moved>,
    pub step: BackStep,
}

/// The pair that a move back is at.
pub open spec fn current_pair(p: MoveBack) -> Moved {
    p.pairs@[p.pairs@.len() - 1 - p.landed@.len()]
}

/// The event is one that the step waits for.
pub open spec fn back_awaits(step: BackStep, ev: FileEvent) -> bool {
    match step {
        BackStep::Ready => ev is Begin,
        BackStep::Placing => ev is Place,
        BackStep::Renaming { .. } => ev is Did,
        BackStep::Copying { .. } => ev is Did,
        BackStep::Removing { .. } => ev is Did,
        BackStep::Cleaning { .. } => ev is Did,
        BackStep::Ended { .. } => false,
    }
}

/// The move back ends with that error or without one.
pub open spec fn back_ends(p: MoveBack, q: MoveBack, act: FileAction, error: Option<Seq<char>>) -> bool {
    &&& q == (MoveBack { step: q.step, landed: q.landed, ..p })
    &&& q.landed@ == p.landed@
    &&& q.step matches BackStep::Ended { error: e } && text::opt_text(e) == error
    &&& act is Finished
}

/// What is said of the current file when it cannot be moved back.
pub open spec fn back_error(p: MoveBack, why: Seq<char>) -> Seq<char> {
    "Couldn't move “"@ + location::name_spec(p.style, current_pair(p).to@) + "” back: "@ + why
}

/// The move back turns to the last pair that is not back yet, or ends.
pub open spec fn back_turns(p: MoveBack, q: MoveBack, act: FileAction) -> bool {
    if p.landed@.len() >= p.pairs@.len() {
        back_ends(p, q, act, None)
    } else {
        let from = current_pair(p).from@;
        match paths::parent_spec(p.style, from) {
            None => back_ends(p, q, act, Some(back_error(p, "Invalid original path."@))),
            Some(d) => {
                &&& q == (MoveBack { step: BackStep::Placing, landed: q.landed, ..p })
                &&& q.landed@ == p.landed@
                &&& act matches FileAction::FindDest { dir, name } && dir@ == d && name@ == location::name_spec(
                    p.style,
                    from,
                )
            },
        }
    }
}

/// The current file is back at `target`, and the next one follows.
pub open spec fn back_lands(p: MoveBack, q: MoveBack, act: FileAction, target: Seq<char>) -> bool {
    exists|m: MoveBack|
        m == (MoveBack { step: m.step, landed: m.landed, ..p }) && m.landed@.len() == p.landed@.len() + 1
            && m.landed@.drop_last() == p.landed@ && m.landed@.last().from@ == current_pair(p).to@
            && m.landed@.last().to@ == target && #[trigger] back_turns(m, q, act)
}

/// One step of a move back.
pub open spec fn back_step(p: MoveBack, ev: FileEvent, q: MoveBack, act: FileAction) -> bool {
    let at = current_pair(p).to@;
    match (p.step, ev) {
        (BackStep::Ready, FileEvent::Begin) => back_turns(p, q, act),
        (BackStep::Placing, FileEvent::Place(target)) => {
            &&& q == (MoveBack { step: BackStep::Renaming { target }, ..p })
            &&& act matches FileAction::Rename { from, to } && from@ == at && to == target
        },
        (BackStep::Renaming { target }, FileEvent::Did(r)) => if r is Ok {
            back_lands(p, q, act, target@)
        } else {
            &&& q == (MoveBack { step: BackStep::Copying { target }, ..p })
            &&& act matches FileAction::Copy { from, to } && from@ == at && to == target
        },
        (BackStep::Copying { target }, FileEvent::Did(r)) => match r {
            Ok(_) => {
                &&& q == (MoveBack { step: BackStep::Removing { target }, ..p })
                &&& act matches FileAction::Remove { path } && path@ == at
            },
            Err(f) => if f.already_exists {
                back_ends(p, q, act, Some(back_error(p, f.message@)))
            } else {
                &&& q == (MoveBack { step: q.step, ..p })
                &&& q.step matches BackStep::Cleaning { why } && why@ == back_error(p, f.message@)
                &&& act matches FileAction::Remove { path } && path == target
            },
        },
        (BackStep::Removing { target }, FileEvent::Did(r)) => match r {
            Ok(_) => back_lands(p, q, act, target@),
            Err(f) => back_ends(
                p,
                q,
                act,
                Some(
                    back_error(
                        p,
                        "copied back, but couldn't remove “"@ + location::name_spec(p.style, at) + "”: "@ + f.message@,
                    ),
                ),
            ),
        },
        (BackStep::Cleaning { why }, FileEvent::Did(_)) => back_ends(p, q, act, Some(why@)),
        _ => false,
    }
}

/// What is back are the last files, the last first, and the move back is at one
/// of the rest while it runs.
pub open spec fn back_ok(p: MoveBack) -> bool {
    &&& p.landed@.len() <= p.pairs@.len()
    &&& forall|i: int|
        0 <= i < p.landed@.len() ==> (#[trigger] p.landed@[i]).from@ == p.pairs@[p.pairs@.len() - 1 - i].to@
    &&& !(p.step is Ready) && !(p.step is Ended) ==> p.landed@.len() < p.pairs@.len()
}

impl MoveBack {
    /// A move back of `pairs`.
    pub fn new(style: PathStyle, pairs: Vec<Moved>) -> (r: MoveBack)
        ensures
            r.style == style,
            r.pairs == pairs,
            r.landed@.len() == 0,
            r.step is Ready,
            back_ok(r),
    {
        MoveBack { style, pairs, landed: Vec::new(), step: BackStep::Ready }
    }

    fn end(&mut self, error: Option<String>) -> (r: FileAction)
        ensures
            back_ends(*old(self), *final(self), r, text::opt_text(error)),
    {
        self.step = BackStep::Ended { error };
        FileAction::Finished
    }

    fn error(&self, why: &str) -> (r: String)
        requires
            self.landed@.len() < self.pairs@.len(),
        ensures
            r@ == back_error(*self, why@),
    {
        let i: usize = self.pairs.len() - 1 - self.landed.len();
        let name = name_of(self.style, self.pairs[i].to.as_str());
        let mut out = cat3("Couldn't move “", name.as_str(), "” back: ");
        out.append(why);
        out
    }

    fn turn(&mut self) -> (r: FileAction)
        requires
            old(self).landed@.len() <= old(self).pairs@.len(),
        ensures
            back_turns(*old(self), *final(self), r),
    {
        if self.landed.len() >= self.pairs.len() {
            return self.end(None);
        }
        let i: usize = self.pairs.len() - 1 - self.landed.len();
        match parent(self.style, self.pairs[i].from.as_str()) {
            None => {
                let e = self.error("Invalid original path.");
                self.end(Some(e))
            },
            Some(dir) => {
                let name = name_of(self.style, self.pairs[i].from.as_str());
                self.step = BackStep::Placing;
                FileAction::FindDest { dir, name }
            },
        }
    }

    fn land(&mut self, target: String) -> (r: FileAction)
        requires
            old(self).landed@.len() < old(self).pairs@.len(),
        ensures
            back_lands(*old(self), *final(self), r, target@),
    {
        let i: usize = self.pairs.len() - 1 - self.landed.len();
        let from = self.pairs[i].to.clone();
        self.landed.push(Moved { from, to: target });
        assert(self.landed@.drop_last() =~= old(self).landed@);
        self.turn()
    }

    /// Takes how the last action went and says what comes next.
    pub fn next(&mut self, event: FileEvent) -> (r: FileAction)
        requires
            back_ok(*old(self)),
            back_awaits(old(self).step, event),
        ensures
            back_step(*old(self), event, *final(self), r),
            back_ok(*final(self)),
            final(self).step is Ended <==> r is Finished,
            final(self).style == old(self).style,
    {
        let mut step = BackStep::Ready;
        std::mem::swap(&mut step, &mut self.step);
        let act = match (step, event) {
            (BackStep::Ready, FileEvent::Begin) => self.turn(),
            (BackStep::Placing, FileEvent::Place(target)) => {
                let i: usize = self.pairs.len() - 1 - self.landed.len();
                let from = self.pairs[i].to.clone();
                let to = target.clone();
                self.step = BackStep::Renaming { target };
                FileAction::Rename { from, to }
            },
            (BackStep::Renaming { target }, FileEvent::Did(r)) => {
                match r {
                    Ok(_) => self.land(target),
                    Err(_) => {
                        let i: usize = self.pairs.len() - 1 - self.landed.len();
                        let from = self.pairs[i].to.clone();
                        let to = target.clone();
                        self.step = BackStep::Copying { target };
                        FileAction::Copy { from, to }
                    },
                }
            },
            (BackStep::Copying { target }, FileEvent::Did(r)) => {
                match r {
                    Ok(_) => {
                        let i: usize = self.pairs.len() - 1 - self.landed.len();
                        let path = self.pairs[i].to.clone();
                        self.step = BackStep::Removing { target };
                        FileAction::Remove { path }
                    },
                    Err(f) => {
                        let e = self.error(f.message.as_str());
                        if f.already_exists {
                            self.end(Some(e))
                        } else {
                            self.step = BackStep::Cleaning { why: e };
                            FileAction::Remove { path: target }
                        }
                    },
                }
            },
            (BackStep::Removing { target }, FileEvent::Did(r)) => {
                match r {
                    Ok(_) => self.land(target),
                    Err(f) => {
                        let i: usize = self.pairs.len() - 1 - self.landed.len();
                        let name = name_of(self.style, self.pairs[i].to.as_str());
                        let mut why = cat3("copied back, but couldn't remove “", name.as_str(), "”: ");
                        why.append(f.message.as_str());
                        let e = self.error(why.as_str());
                        self.end(Some(e))
                    },
                }
            },
            (BackStep::Cleaning { why }, FileEvent::Did(_)) => self.end(Some(why)),
            _ => FileAction::Finished,
        };
        proof {
            law_back_last_first(*old(self), event, *self, act);
        }
        act
    }
}

proof fn lemma_back_turn_keeps_order(p: MoveBack, q: MoveBack, act: FileAction)
    requires
        p.landed@.len() <= p.pairs@.len(),
        forall|i: int|
            0 <= i < p.landed@.len() ==> (#[trigger] p.landed@[i]).from@ == p.pairs@[p.pairs@.len() - 1 - i].to@,
        back_turns(p, q, act),
    ensures
        back_ok(q),
        q.pairs == p.pairs,
        q.style == p.style,
{
}

/// Files are moved back in the reverse of the order they had been moved in, each
/// from where it actually is, and none is skipped.
pub proof fn law_back_last_first(p: MoveBack, ev: FileEvent, q: MoveBack, act: FileAction)
    requires
        back_ok(p),
        back_step(p, ev, q, act),
    ensures
        back_ok(q),
        q.pairs == p.pairs,
        q.style == p.style,
{
    if back_turns(p, q, act) {
        lemma_back_turn_keeps_order(p, q, act);
    }
    assert forall|target: Seq<char>| #[trigger] back_lands(p, q, act, target) && p.landed@.len() < p.pairs@.len() implies back_ok(
        q,
    ) && q.pairs == p.pairs && q.style == p.style by {
        let m = choose|m: MoveBack|
            m == (MoveBack { step: m.step, landed: m.landed, ..p }) && m.landed@.len() == p.landed@.len() + 1
                && m.landed@.drop_last() == p.landed@ && m.landed@.last().from@ == current_pair(p).to@
                && m.landed@.last().to@ == target && #[trigger] back_turns(m, q, act);
        assert forall|i: int| 0 <= i < m.landed@.len() implies (#[trigger] m.landed@[i]).from@
            == m.pairs@[m.pairs@.len() - 1 - i].to@ by {
            if i < p.landed@.len() {
                assert(m.landed@[i] == m.landed@.drop_last()[i]);
            }
        }
        lemma_back_turn_keeps_order(m, q, act);
    }
}

/// A file goes back only to the place that was found free for it, and a file is
/// removed from where it is only once it has been copied back.
pub proof fn law_back_replaces_nothing(p: MoveBack, ev: FileEvent, q: MoveBack, act: FileAction)
    requires
        back_ok(p),
        back_step(p, ev, q, act),
    ensures
        act matches FileAction::Rename { to, .. } ==> ev == FileEvent::Place(to),
        act matches FileAction::Copy { to, .. } ==> (p.step matches BackStep::Renaming { target } && target == to),
        q.step matches BackStep::Renaming { target } ==> ev == FileEvent::Place(target),
        act matches FileAction::Remove { path } ==> (p.step matches BackStep::Copying { target } && (ev matches FileEvent::Did(
            r,
        ) && (match r {
            Ok(_) => path@ == current_pair(p).to@,
            Err(f) => !f.already_exists && path == target,
        }))),
{
}

/// An item of the bin came from that path, without regard to case.
pub open spec fn came_from(item: BinItem, path: Seq<char>) -> bool {
    text::lower_text(item.original_path@) == text::lower_text(path)
}

/// The most recently deleted of the first `k` items that came from the path; the
/// last of those deleted at one time.
pub open spec fn latest_from(items: Seq<BinItem>, path: Seq<char>, k: int) -> Option<int>
    decreases k,
{
    if k <= 0 {
        None
    } else {
        let best = latest_from(items, path, k - 1);
        if came_from(items[k - 1], path) && (best is None || items[best->0].time_deleted <= items[k - 1].time_deleted) {
            Some(k - 1)
        } else {
            best
        }
    }
}

pub proof fn lemma_latest_in_range(items: Seq<BinItem>, path: Seq<char>, k: int)
    requires
        k <= items.len(),
    ensures
        latest_from(items, path, k) matches Some(b) ==> 0 <= b < k && came_from(items[b], path),
        latest_from(items, path, k) is None ==> forall|j: int| 0 <= j < k ==> !came_from(#[trigger] items[j], path),
        latest_from(items, path, k) matches Some(b) ==> forall|j: int|
            0 <= j < k && came_from(#[trigger] items[j], path) ==> items[j].time_deleted <= items[b].time_deleted,
    decreases k,
{
    if k > 0 {
        lemma_latest_in_range(items, path, k - 1);
    }
}

fn find_latest(items: &Vec<BinItem>, path: &str) -> (r: Option<usize>)
    ensures
        match r {
            Some(b) => b < items@.len() && latest_from(items@, path@, items@.len() as int) == Some(b as int),
            None => latest_from(items@, path@, items@.len() as int) is None,
        },
{
    let want = text::to_lower_text(path);
    let mut best: Option<usize> = None;
    let mut k: usize = 0;
    while k < items.len()
        invariant
            k <= items@.len(),
            want@ == text::lower_text(path@),
            match best {
                Some(b) => b < k && latest_from(items@, path@, k as int) == Some(b as int),
                None => latest_from(items@, path@, k as int) is None,
            },
        decreases items@.len() - k,
    {
        let low = text::to_lower_text(items[k].original_path.as_str());
        if text::same_text(low.as_str(), want.as_str()) {
            best = match best {
                Some(b) => {
                    if items[b].time_deleted <= items[k].time_deleted {
                        Some(k)
                    } else {
                        Some(b)
                    }
                },
                None => Some(k),
            };
        }
        k += 1;
    }
    best
}

/// For each path the item of the bin that it is restored from; the error where
/// one is not there any more.
pub fn pick_from_bin(style: PathStyle, items: &Vec<BinItem>, wanted: &Vec<String>) -> (r: Result<Vec<usize>, String>)
    ensures
        match r {
            Ok(v) => {
                &&& v@.len() == wanted@.len()
                &&& forall|i: int|
                    0 <= i < v@.len() ==> (#[trigger] v@[i]) < items@.len() && latest_from(
                        items@,
                        wanted@[i]@,
                        items@.len() as int,
                    ) == Some(v@[i] as int)
            },
            Err(e) => exists|i: int|
                0 <= i < wanted@.len() && #[trigger] latest_from(items@, wanted@[i]@, items@.len() as int) is None
                    && e@ == "“"@ + location::name_spec(style, wanted@[i]@) + "” isn't in the Recycle Bin any more."@
                    && forall|j: int|
                    0 <= j < i ==> #[trigger] latest_from(items@, wanted@[j]@, items@.len() as int) is Some,
        },
{
    let mut out: Vec<usize> = Vec::new();
    let mut i: usize = 0;
    while i < wanted.len()
        invariant
            i <= wanted@.len(),
            out@.len() == i,
            forall|j: int|
                0 <= j < i ==> (#[trigger] out@[j]) < items@.len() && latest_from(
                    items@,
                    wanted@[j]@,
                    items@.len() as int,
                ) == Some(out@[j] as int),
        decreases wanted@.len() - i,
    {
        match find_latest(items, wanted[i].as_str()) {
            Some(b) => {
                out.push(b);
            },
            None => {
                let name = name_of(style, wanted[i].as_str());
                proof {
                    assert forall|j: int| 0 <= j < i implies #[trigger] latest_from(
                        items@,
                        wanted@[j]@,
                        items@.len() as int,
                    ) is Some by {
                        assert(out@[j] < items@.len());
                    }
                }
                return Err(cat3("“", name.as_str(), "” isn't in the Recycle Bin any more."));
            },
        }
        i += 1;
    }
    Ok(out)
}

/// What is restored for a path came from that path, and nothing that came from
/// it was deleted later.
pub proof fn law_latest_deletion_is_restored(items: Seq<BinItem>, path: Seq<char>, b: int, j: int)
    requires
        latest_from(items, path, items.len() as int) == Some(b),
        0 <= j < items.len(),
    ensures
        0 <= b < items.len(),
        came_from(items[b], path),
        came_from(items[j], path) ==> items[j].time_deleted <= items[b].time_deleted,
{
    lemma_latest_in_range(items, path, items.len() as int);
}

/// What stands against a transfer: a folder that would go into itself, and in a
/// move a file that is in the destination already; nothing else does.
pub proof fn law_transfers_are_refused_for_these_alone(
    style: PathStyle,
    cs: Seq<Candidate>,
    dest: Seq<char>,
    cut: bool,
    i: int,
)
    requires
        0 <= i <= cs.len(),
    ensures
        first_error(style, cs, dest, cut, i) is None <==> forall|k: int|
            i <= k < cs.len() ==> {
                &&& (#[trigger] cs[k]).is_dir ==> !paths::under(style, dest, cs[k].canonical@)
                &&& cut ==> !location::is_child_of(style, cs[k].canonical@, dest)
            },
    decreases cs.len() - i,
{
    if i < cs.len() {
        law_transfers_are_refused_for_these_alone(style, cs, dest, cut, i + 1);
        if candidate_error(style, cs[i], dest, cut) is None && first_error(style, cs, dest, cut, i + 1) is None {
            assert forall|k: int| i <= k < cs.len() implies {
                &&& (#[trigger] cs[k]).is_dir ==> !paths::under(style, dest, cs[k].canonical@)
                &&& cut ==> !location::is_child_of(style, cs[k].canonical@, dest)
            } by {}
        }
    }
}

/// A file is reported as done only once it is at its destination: its rename or its
/// copy succeeded there, and in a move by copying its source was removed behind
/// that; what is reported is that source and that destination.
pub proof fn law_done_means_arrived(p: Paste, ev: FileEvent, q: Paste, act: FileAction)
    requires
        paste_ok(p),
        paste_step(p, ev, q, act),
        q.done@.len() != p.done@.len(),
    ensures
        ev matches FileEvent::Did(r) && r is Ok,
        q.done@.len() == p.done@.len() + 1,
        q.done@.last().from@ == p.sources@[p.done@.len() as int]@,
        match p.step {
            PasteStep::Renaming { dst, .. } => q.done@.last().to@ == dst@,
            PasteStep::Copying { dst, .. } => !p.cut && q.done@.last().to@ == dst@,
            PasteStep::Removing { dst, .. } => q.done@.last().to@ == dst@,
            _ => false,
        },
{
}

/// A transfer that ends without an error has done everything it was asked for.
pub proof fn law_transfer_without_error_is_complete(p: Paste, ev: FileEvent, q: Paste, act: FileAction)
    requires
        paste_ok(p),
        paste_step(p, ev, q, act),
        q.step matches PasteStep::Ended { error } && error is None,
    ensures
        q.done@.len() == q.sources@.len(),
        forall|i: int| 0 <= i < q.done@.len() ==> (#[trigger] q.done@[i]).from@ == q.sources@[i]@,
{
    law_done_in_order(p, ev, q, act);
}

/// A link is not transferred: it ends the transfer with an error, and nothing is
/// done about it.
pub proof fn law_links_are_not_transferred(p: Paste, q: Paste, act: FileAction)
    requires
        paste_ok(p),
        p.step is Inspecting,
        paste_step(p, FileEvent::Answer(true), q, act),
    ensures
        act is Finished,
        q.done@ == p.done@,
        q.step matches PasteStep::Ended { error } && error is Some,
{
}

/// A deletion deals with every path in its order, and reports exactly those that
/// failed: each is removed or recycled once, and a failure stops none of the others.
pub proof fn law_deletion_goes_through_all(p: Deletion, ev: FileEvent, q: Deletion, act: FileAction)
    requires
        delete_ok(p),
        delete_step(p, ev, q, act),
    ensures
        q.paths == p.paths,
        act matches FileAction::Remove { path } ==> path@ == p.paths@[p.at as int]@ && q.at == p.at,
        act matches FileAction::Recycle { path } ==> path@ == p.paths@[p.at as int]@ && q.at == p.at,
        act is Finished ==> q.at >= p.paths@.len(),
        ev matches FileEvent::Did(r) ==> q.at == p.at + 1 && (r is Ok ==> q.errors@.len() == p.errors@.len()) && (r is Err
            ==> q.errors@.len() == p.errors@.len() + 1),
        ev matches FileEvent::Did(r) ==> (p.step is Recycling && r is Ok ==> q.recycled@.len() == p.recycled@.len() + 1
            && q.recycled@.last()@ == p.paths@[p.at as int]@) && (p.step is Recycling && r is Err ==> q.recycled@
            == p.recycled@) && (p.step is Removing ==> q.recycled@ == p.recycled@),
{
    assert(text::texts(q.errors@).len() == q.errors@.len());
    assert(text::texts(p.errors@).len() == p.errors@.len());
}

/// A deletion ends with an error exactly where something failed.
pub proof fn law_deletion_reports_failures(lead: Seq<char>, errors: Seq<Seq<char>>)
    ensures
        errors_line(lead, errors) is None <==> errors.len() == 0,
        errors.len() == 1 ==> errors_line(lead, errors) == Some(lead + errors[0]),
{
}

/// Of items that came from one path and were deleted at one time the last one of
/// the bin is restored.
pub proof fn law_last_of_one_time_is_restored(items: Seq<BinItem>, path: Seq<char>, k: int, j: int)
    requires
        0 <= j < k <= items.len(),
        latest_from(items, path, k) is Some,
        text::lower_text(items[j].original_path@) == text::lower_text(path),
    ensures
        0 <= latest_from(items, path, k)->0 < k,
        items[j].time_deleted <= items[latest_from(items, path, k)->0].time_deleted,
        items[j].time_deleted == items[latest_from(items, path, k)->0].time_deleted ==> j <= latest_from(items, path, k)->0,
    decreases k,
{
    lemma_latest_in_range(items, path, k);
    assert(came_from(items[j], path));
    let b = latest_from(items, path, k)->0;
    if j < k - 1 {
        lemma_latest_in_range(items, path, k - 1);
        if latest_from(items, path, k - 1) is Some {
            law_last_of_one_time_is_restored(items, path, k - 1, j);
        }
    }
}

/// A file that cannot be renamed to its new place, such as one on another volume, is
/// copied there, and only once that was done the original is removed; a copy leaves
/// it alone.
pub proof fn law_move_falls_back_to_copying(p: Paste, q: Paste, act: FileAction, dst: String, r: Result<(), Failure>)
    requires
        p.step is Renaming && p.step->Renaming_dst == dst || p.step is Copying && p.step->Copying_dst == dst,
        paste_step(p, FileEvent::Did(r), q, act),
    ensures
        p.step is Renaming && r is Err ==> (act matches FileAction::Copy { from, to } && from@ == current_source(p) && to
            == dst) && q.step is Copying && q.done@ == p.done@,
        p.step is Copying && r is Ok && p.cut ==> (act matches FileAction::Remove { path } && path@ == current_source(p))
            && q.done@ == p.done@,
        p.step is Copying && r is Ok && !p.cut ==> q.done@.len() == p.done@.len() + 1 && q.done@.last().to@ == dst@,
        p.step is Renaming && r is Ok ==> q.done@.len() == p.done@.len() + 1 && q.done@.last().to@ == dst@,
{
    if (p.step is Copying && r is Ok && !p.cut) || (p.step is Renaming && r is Ok) {
        let m = choose|m: Paste|
            m == (Paste { step: m.step, done: m.done, ..p }) && m.done@.len() == p.done@.len() + 1 && m.done@.drop_last()
                == p.done@ && m.done@.last().from@ == p.sources@[p.done@.len() as int]@ && m.done@.last().to@ == dst@
                && #[trigger] turns_to_next(m, q, act);
        assert(q.done@ == m.done@);
    }
}

} // verus!
