//! Undo and redo: what reverses an operation, how a reversal runs, and the two
//! stacks.
//!
//! A reversal that has run yields its own inverse, which is what makes redo
//! possible.
use vstd::prelude::*;
use crate::location::{self, name_of};
use crate::paths::PathStyle;
use crate::text::{self, cat3, copy_texts, same_text, to_lower_text};
use crate::transfer::{
    self, pick_from_bin, Deletion, Failure, FileAction, FileEvent, MoveBack, Moved, BackStep, BinItem,
};

verus! {

/// A reversal.
pub enum UndoOp {
    /// Rename `from`, the current name, to `to`.
    Rename { from: String, to: String },
    /// Remove a folder, only while it is empty.
    RemoveDir { path: String },
    /// Make an empty folder again.
    MakeDir { path: String },
    /// Send these to the recycle bin (for good on network drives).
    Trash { paths: Vec<String> },
    /// Move each file back from where it was moved to.
    MoveBack { pairs: Vec<Moved> },
    /// Restore these original paths from the recycle bin.
    Restore { paths: Vec<String> },
}

/// An entry of a stack: the reversal, and the user's action that it reverses.
pub struct UndoEntry {
    pub op: UndoOp,
    pub label: &'static str,
}

impl UndoEntry {
    /// An entry.
    pub fn new(op: UndoOp, label: &'static str) -> (r: UndoEntry)
        ensures
            r == (UndoEntry { op, label }),
    {
        UndoEntry { op, label }
    }
}

fn copy_moved(v: &Vec<Moved>) -> (r: Vec<Moved>)
    ensures
        r@ == v@,
{
    let mut out: Vec<Moved> = Vec::new();
    let mut i: usize = 0;
    while i < v.len()
        invariant
            i <= v@.len(),
            out@ == v@.take(i as int),
        decreases v@.len() - i,
    {
        out.push(Moved { from: v[i].from.clone(), to: v[i].to.clone() });
        i += 1;
        assert(out@ =~= v@.take(i as int));
    }
    assert(out@ =~= v@);
    out
}

/// The two reversals are the same.
pub open spec fn same_op(a: UndoOp, b: UndoOp) -> bool {
    match (a, b) {
        (UndoOp::Rename { from, to }, UndoOp::Rename { from: f, to: t }) => from == f && to == t,
        (UndoOp::RemoveDir { path }, UndoOp::RemoveDir { path: p }) => path == p,
        (UndoOp::MakeDir { path }, UndoOp::MakeDir { path: p }) => path == p,
        (UndoOp::Trash { paths }, UndoOp::Trash { paths: p }) => paths@ == p@,
        (UndoOp::MoveBack { pairs }, UndoOp::MoveBack { pairs: p }) => pairs@ == p@,
        (UndoOp::Restore { paths }, UndoOp::Restore { paths: p }) => paths@ == p@,
        _ => false,
    }
}

impl UndoOp {
    /// A copy.
    pub fn copy(&self) -> (r: UndoOp)
        ensures
            same_op(r, *self),
    {
        match self {
            UndoOp::Rename { from, to } => UndoOp::Rename { from: from.clone(), to: to.clone() },
            UndoOp::RemoveDir { path } => UndoOp::RemoveDir { path: path.clone() },
            UndoOp::MakeDir { path } => UndoOp::MakeDir { path: path.clone() },
            UndoOp::Trash { paths } => UndoOp::Trash { paths: copy_texts(paths) },
            UndoOp::MoveBack { pairs } => UndoOp::MoveBack { pairs: copy_moved(pairs) },
            UndoOp::Restore { paths } => UndoOp::Restore { paths: copy_texts(paths) },
        }
    }
}

/// How many operations are remembered.
pub const UNDO_CAP: usize = 50;

/// What can be undone and redone, newest last.
pub struct History {
    pub undo: Vec<UndoEntry>,
    pub redo: Vec<UndoEntry>,
}

/// `k` is `h` with a new operation recorded: the oldest is forgotten beyond the
/// cap, and what had been undone can no longer be redone.
pub open spec fn records_new(h: History, entry: UndoEntry, k: History) -> bool {
    &&& k.redo@.len() == 0
    &&& k.undo@ == (if h.undo@.len() < UNDO_CAP {
        h.undo@.push(entry)
    } else {
        h.undo@.push(entry).drop_first()
    })
}

/// `k` is `h` with the newest entry of a stack taken off to be run.
pub open spec fn takes_newest(h: History, redo: bool, k: History, entry: UndoEntry) -> bool {
    if redo {
        h.redo@.len() > 0 && k.undo == h.undo && entry == h.redo@.last() && k.redo@ == h.redo@.drop_last()
    } else {
        h.undo@.len() > 0 && k.redo == h.redo && entry == h.undo@.last() && k.undo@ == h.undo@.drop_last()
    }
}

/// `k` is `h` with the inverse of what was run on the other stack, under the
/// label of what was run.
pub open spec fn records_inverse(h: History, inverse: Option<UndoOp>, label: &'static str, was_redo: bool, k: History) -> bool {
    match inverse {
        None => k == h,
        Some(op) => if was_redo {
            k.undo@ == h.undo@.push(UndoEntry { op, label }) && k.redo == h.redo
        } else {
            k.redo@ == h.redo@.push(UndoEntry { op, label }) && k.undo == h.undo
        },
    }
}

impl History {
    /// Nothing to undo.
    pub fn new() -> (r: History)
        ensures
            r.undo@.len() == 0,
            r.redo@.len() == 0,
    {
        History { undo: Vec::new(), redo: Vec::new() }
    }

    /// Records a new operation.
    pub fn push_undo(&mut self, entry: UndoEntry)
        ensures
            records_new(*old(self), entry, *final(self)),
    {
        self.undo.push(entry);
        if self.undo.len() > UNDO_CAP {
            self.undo.remove(0);
            assert(self.undo@ =~= old(self).undo@.push(entry).drop_first());
        }
        self.redo.clear();
    }

    /// Takes the newest entry off a stack to be run; nothing while a file
    /// operation is running.
    pub fn start_reversal(&mut self, redo: bool, busy: bool) -> (r: Option<UndoEntry>)
        ensures
            match r {
                Some(e) => !busy && takes_newest(*old(self), redo, *final(self), e),
                None => *final(self) == *old(self) && (busy || (if redo {
                    old(self).redo@.len() == 0
                } else {
                    old(self).undo@.len() == 0
                })),
            },
    {
        if busy {
            return None;
        }
        if redo {
            if self.redo.len() == 0 {
                return None;
            }
            self.redo.pop()
        } else {
            if self.undo.len() == 0 {
                return None;
            }
            self.undo.pop()
        }
    }

    /// Records the inverse of what was run. Nothing is forgotten.
    pub fn record_inverse(&mut self, inverse: Option<UndoOp>, label: &'static str, was_redo: bool)
        ensures
            records_inverse(*old(self), inverse, label, was_redo, *final(self)),
    {
        match inverse {
            Some(op) => {
                let e = UndoEntry { op, label };
                if was_redo {
                    self.undo.push(e);
                } else {
                    self.redo.push(e);
                }
            },
            None => {},
        }
    }
}

/// A new operation is remembered last, nothing can be redone after it, and no
/// more than the cap is remembered.
pub proof fn law_new_operation_ends_redo(h: History, entry: UndoEntry, k: History)
    requires
        h.undo@.len() <= UNDO_CAP,
        records_new(h, entry, k),
    ensures
        k.undo@.last() == entry,
        k.redo@.len() == 0,
        k.undo@.len() <= UNDO_CAP,
        k.undo@.len() == h.undo@.len() + 1 || h.undo@.len() == UNDO_CAP,
{
}

/// Undoing and redoing move entries between the stacks and never add to what is
/// remembered in all.
pub proof fn law_reversals_keep_the_count(
    h: History,
    redo: bool,
    m: History,
    entry: UndoEntry,
    inverse: Option<UndoOp>,
    k: History,
)
    requires
        takes_newest(h, redo, m, entry),
        records_inverse(m, inverse, entry.label, redo, k),
    ensures
        k.undo@.len() + k.redo@.len() == h.undo@.len() + h.redo@.len() - (if inverse is None {
            1int
        } else {
            0
        }),
{
}

/// What is redone next is what was just undone, under its own label, and then
/// what can be undone is as before.
pub proof fn law_redo_takes_what_was_undone(
    h: History,
    m: History,
    entry: UndoEntry,
    inverse: UndoOp,
    k: History,
    n: History,
    again: UndoEntry,
)
    requires
        takes_newest(h, false, m, entry),
        records_inverse(m, Some(inverse), entry.label, false, k),
        takes_newest(k, true, n, again),
    ensures
        again == (UndoEntry { op: inverse, label: entry.label }),
        n.redo@ == h.redo@,
        n.undo@ == h.undo@.drop_last(),
{
    assert(k.redo@.drop_last() =~= h.redo@);
}

/// What a reversal achieved: the item to select, and its own inverse, built from
/// where things actually landed.
pub struct UndoDone {
    pub select: Option<String>,
    pub inverse: Option<UndoOp>,
}

/// Where a reversal stands.
pub enum UndoStep {
    Ready,
    /// Asked whether the name to rename to is taken.
    Checking,
    Renaming,
    RemovingDir,
    MakingDir,
    Deleting(Deletion),
    MovingBack(MoveBack),
    /// Asked what is in the recycle bin.
    Listing,
    Restoring { paths: Vec<String> },
    Ended(Result<UndoDone, String>),
}

/// A reversal that is being run.
pub struct Undo {
    pub style: PathStyle,
    pub op: UndoOp,
    pub step: UndoStep,
}

/// The event is one that the step waits for.
pub open spec fn undo_awaits(step: UndoStep, ev: FileEvent) -> bool {
    match step {
        UndoStep::Ready => ev is Begin,
        UndoStep::Checking => ev is Answer,
        UndoStep::Renaming => ev is Did,
        UndoStep::RemovingDir => ev is Did,
        UndoStep::MakingDir => ev is Did,
        UndoStep::Deleting(d) => transfer::delete_awaits(d.step, ev),
        UndoStep::MovingBack(b) => transfer::back_awaits(b.step, ev),
        UndoStep::Listing => ev is Bin,
        UndoStep::Restoring { .. } => ev is Did,
        UndoStep::Ended(_) => false,
    }
}

/// The step fits the operation.
pub open spec fn undo_ok(u: Undo) -> bool {
    match u.step {
        UndoStep::Checking => u.op is Rename,
        UndoStep::Renaming => u.op is Rename,
        UndoStep::RemovingDir => u.op is RemoveDir,
        UndoStep::MakingDir => u.op is MakeDir,
        UndoStep::Deleting(d) => u.op is Trash && transfer::delete_ok(d) && d.style == u.style,
        UndoStep::MovingBack(b) => u.op is MoveBack && transfer::back_ok(b) && b.style == u.style,
        UndoStep::Listing => u.op is Restore,
        UndoStep::Restoring { .. } => u.op is Restore,
        _ => true,
    }
}

/// The reversal failed with that message.
pub open spec fn undo_fails(u: Undo, v: Undo, act: FileAction, message: Seq<char>) -> bool {
    &&& v == (Undo { step: v.step, ..u })
    &&& v.step matches UndoStep::Ended(r) && (r matches Err(e) && e@ == message)
    &&& act is Finished
}

/// The reversal succeeded.
pub open spec fn undo_succeeds(u: Undo, v: Undo, act: FileAction) -> bool {
    &&& v == (Undo { step: v.step, ..u })
    &&& v.step matches UndoStep::Ended(r) && r is Ok
    &&& act is Finished
}

/// What a succeeded reversal achieved.
pub open spec fn achieved(v: Undo) -> UndoDone {
    v.step->Ended_0->Ok_0
}

/// The names differ in case at most: on a file system without case the new name
/// is the old file.
pub open spec fn case_only(style: PathStyle, from: Seq<char>, to: Seq<char>) -> bool {
    text::lower_text(location::name_spec(style, from)) == text::lower_text(location::name_spec(style, to))
}

/// A deletion turned into the end of a reversal: what reached the recycle bin
/// can be restored, and one failure is reported for all.
pub open spec fn trash_ends(u: Undo, v: Undo, act: FileAction, d: Deletion) -> bool {
    match transfer::errors_line("Couldn't remove some items: "@, text::texts(d.errors@)) {
        Some(e) => undo_fails(u, v, act, e),
        None => {
            &&& undo_succeeds(u, v, act)
            &&& achieved(v).select is None
            &&& d.recycled@.len() == 0 ==> achieved(v).inverse is None
            &&& d.recycled@.len() > 0 ==> (achieved(v).inverse matches Some(op) && (op matches UndoOp::Restore {
                paths,
            } && paths == d.recycled))
        },
    }
}

/// A move back turned into the end of a reversal: its inverse moves the files
/// from where they landed.
pub open spec fn back_finishes(u: Undo, v: Undo, act: FileAction, b: MoveBack) -> bool {
    match b.step {
        BackStep::Ended { error: Some(e) } => undo_fails(u, v, act, e@),
        _ => {
            &&& undo_succeeds(u, v, act)
            &&& achieved(v).select == (if b.landed@.len() > 0 {
                Some(b.landed@.last().to)
            } else {
                None
            })
            &&& achieved(v).inverse matches Some(op) && (op matches UndoOp::MoveBack { pairs } && pairs@
                == b.landed@.reverse())
        },
    }
}

/// The original paths of the picked items.
pub open spec fn origins(items: Seq<BinItem>, picked: Seq<usize>) -> Seq<String> {
    picked.map_values(|i: usize| items[i as int].original_path)
}

/// One step of a reversal.
pub open spec fn undo_step(u: Undo, ev: FileEvent, v: Undo, act: FileAction) -> bool {
    match (u.step, ev) {
        (UndoStep::Ready, FileEvent::Begin) => match u.op {
            UndoOp::Rename { from, to } => {
                &&& v == (Undo { step: v.step, ..u })
                &&& if case_only(u.style, from@, to@) {
                    v.step is Renaming && (act matches FileAction::Rename { from: f, to: t } && f == from && t == to)
                } else {
                    v.step is Checking && (act matches FileAction::IsTaken { path } && path == to)
                }
            },
            UndoOp::RemoveDir { path } => {
                &&& v == (Undo { step: UndoStep::RemovingDir, ..u })
                &&& act matches FileAction::RemoveEmptyDir { path: p } && p == path
            },
            UndoOp::MakeDir { path } => {
                &&& v == (Undo { step: UndoStep::MakingDir, ..u })
                &&& act matches FileAction::CreateDir { path: p } && p == path
            },
            UndoOp::Trash { paths } => exists|d: Deletion|
                d.style == u.style && d.paths@ == paths@ && d.at == 0 && d.recycled@.len() == 0 && d.errors@.len() == 0
                    && d.step is Ready && #[trigger] deletion_step(u, d, ev, v, act),
            UndoOp::MoveBack { pairs } => exists|b: MoveBack|
                b.style == u.style && b.pairs@ == pairs@ && b.landed@.len() == 0 && b.step is Ready
                    && #[trigger] moving_step(u, b, ev, v, act),
            UndoOp::Restore { .. } => v == (Undo { step: UndoStep::Listing, ..u }) && act is ListBin,
        },
        (UndoStep::Checking, FileEvent::Answer(taken)) => {
            let to = u.op->Rename_to;
            if taken {
                undo_fails(
                    u,
                    v,
                    act,
                    "Can't undo the rename: something is now named “"@ + location::name_spec(u.style, to@) + "”."@,
                )
            } else {
                &&& v == (Undo { step: UndoStep::Renaming, ..u })
                &&& act matches FileAction::Rename { from: f, to: t } && f == u.op->Rename_from && t == to
            }
        },
        (UndoStep::Renaming, FileEvent::Did(r)) => match r {
            Ok(_) => {
                &&& undo_succeeds(u, v, act)
                &&& achieved(v).select == Some(u.op->Rename_to)
                &&& achieved(v).inverse == Some(UndoOp::Rename { from: u.op->Rename_to, to: u.op->Rename_from })
            },
            Err(f) => undo_fails(u, v, act, "Couldn't undo the rename: "@ + f.message@),
        },
        (UndoStep::RemovingDir, FileEvent::Did(r)) => {
            let path = u.op->RemoveDir_path;
            match r {
                Ok(_) => {
                    &&& undo_succeeds(u, v, act)
                    &&& achieved(v).select is None
                    &&& achieved(v).inverse == Some(UndoOp::MakeDir { path })
                },
                Err(f) => undo_fails(
                    u,
                    v,
                    act,
                    "Couldn't remove “"@ + location::name_spec(u.style, path@) + "” — it may no longer be empty ("@
                        + f.message@ + ")."@,
                ),
            }
        },
        (UndoStep::MakingDir, FileEvent::Did(r)) => {
            let path = u.op->MakeDir_path;
            match r {
                Ok(_) => {
                    &&& undo_succeeds(u, v, act)
                    &&& achieved(v).select == Some(path)
                    &&& achieved(v).inverse == Some(UndoOp::RemoveDir { path })
                },
                Err(f) => undo_fails(
                    u,
                    v,
                    act,
                    "Couldn't re-create “"@ + location::name_spec(u.style, path@) + "”: "@ + f.message@,
                ),
            }
        },
        (UndoStep::Deleting(d), _) => deletion_step(u, d, ev, v, act),
        (UndoStep::MovingBack(b), _) => moving_step(u, b, ev, v, act),
        (UndoStep::Listing, FileEvent::Bin(listed)) => match listed {
            Err(e) => undo_fails(u, v, act, "Couldn't read the Recycle Bin: "@ + e@),
            Ok(items) => listing_step(u, items, v, act),
        },
        (UndoStep::Restoring { paths }, FileEvent::Did(r)) => match r {
            Ok(_) => {
                &&& undo_succeeds(u, v, act)
                &&& achieved(v).select == (if paths@.len() > 0 {
                    Some(paths@.last())
                } else {
                    None
                })
                &&& paths@.len() == 0 ==> achieved(v).inverse is None
                &&& paths@.len() > 0 ==> (achieved(v).inverse matches Some(op) && (op matches UndoOp::Trash {
                    paths: p,
                } && p == paths))
            },
            Err(f) => undo_fails(u, v, act, "Couldn't restore from the Recycle Bin: "@ + f.message@),
        },
        _ => false,
    }
}

/// A step of the deletion inside a reversal.
pub open spec fn deletion_step(u: Undo, d: Deletion, ev: FileEvent, v: Undo, act: FileAction) -> bool {
    exists|e: Deletion, a: FileAction|
        #[trigger] transfer::delete_step(d, ev, e, a) && (if a is Finished {
            trash_ends(u, v, act, e)
        } else {
            v == (Undo { step: UndoStep::Deleting(e), ..u }) && act == a
        })
}

/// A step of the move back inside a reversal.
pub open spec fn moving_step(u: Undo, b: MoveBack, ev: FileEvent, v: Undo, act: FileAction) -> bool {
    exists|c: MoveBack, a: FileAction|
        #[trigger] transfer::back_step(b, ev, c, a) && (if a is Finished {
            back_finishes(u, v, act, c)
        } else {
            v == (Undo { step: UndoStep::MovingBack(c), ..u }) && act == a
        })
}

/// What follows from the contents of the recycle bin: every path is looked up,
/// and all are restored or none.
pub open spec fn listing_step(u: Undo, items: Vec<BinItem>, v: Undo, act: FileAction) -> bool {
    let wanted = u.op->Restore_paths@;
    let n = items@.len() as int;
    if forall|i: int| 0 <= i < wanted.len() ==> #[trigger] transfer::latest_from(items@, wanted[i]@, n) is Some {
        &&& v == (Undo { step: v.step, ..u })
        &&& act matches FileAction::Restore { items: picked } && {
            &&& picked@.len() == wanted.len()
            &&& forall|i: int|
                0 <= i < wanted.len() ==> transfer::latest_from(items@, #[trigger] wanted[i]@, n) == Some(
                    picked@[i] as int,
                )
            &&& v.step matches UndoStep::Restoring { paths } && paths@ == origins(items@, picked@)
        }
    } else {
        exists|i: int|
            0 <= i < wanted.len() && #[trigger] transfer::latest_from(items@, wanted[i]@, n) is None && undo_fails(
                u,
                v,
                act,
                "“"@ + location::name_spec(u.style, wanted[i]@) + "” isn't in the Recycle Bin any more."@,
            ) && forall|j: int| 0 <= j < i ==> #[trigger] transfer::latest_from(items@, wanted[j]@, n) is Some
    }
}

impl Undo {
    /// The reversal `op`, about to begin.
    pub fn new(style: PathStyle, op: UndoOp) -> (r: Undo)
        ensures
            r == (Undo { style, op, step: UndoStep::Ready }),
            undo_ok(r),
    {
        Undo { style, op, step: UndoStep::Ready }
    }

    fn fail(&mut self, message: String) -> (r: FileAction)
        ensures
            undo_fails(*old(self), *final(self), r, message@),
    {
        self.step = UndoStep::Ended(Err(message));
        FileAction::Finished
    }

    fn succeed(&mut self, select: Option<String>, inverse: Option<UndoOp>) -> (r: FileAction)
        ensures
            undo_succeeds(*old(self), *final(self), r),
            achieved(*final(self)) == (UndoDone { select, inverse }),
    {
        self.step = UndoStep::Ended(Ok(UndoDone { select, inverse }));
        FileAction::Finished
    }

    fn step_deletion(&mut self, deletion: Deletion, event: FileEvent) -> (r: FileAction)
        requires
            transfer::delete_ok(deletion),
            transfer::delete_awaits(deletion.step, event),
            old(self).op is Trash,
            deletion.style == old(self).style,
        ensures
            deletion_step(*old(self), deletion, event, *final(self), r),
            undo_ok(*final(self)),
            final(self).step is Ended <==> r is Finished,
    {
        let mut d = deletion;
        let act = d.next(event);
        assert(transfer::delete_step(deletion, event, d, act));
        match act {
            FileAction::Finished => {
                match d.errors_after("Couldn't remove some items: ") {
                    Some(e) => self.fail(e),
                    None => {
                        let Deletion { recycled, .. } = d;
                        let inverse = if recycled.len() == 0 {
                            None
                        } else {
                            Some(UndoOp::Restore { paths: recycled })
                        };
                        self.succeed(None, inverse)
                    },
                }
            },
            _ => {
                self.step = UndoStep::Deleting(d);
                act
            },
        }
    }

    fn step_back(&mut self, back: MoveBack, event: FileEvent) -> (r: FileAction)
        requires
            transfer::back_ok(back),
            transfer::back_awaits(back.step, event),
            old(self).op is MoveBack,
            back.style == old(self).style,
        ensures
            moving_step(*old(self), back, event, *final(self), r),
            undo_ok(*final(self)),
            final(self).step is Ended <==> r is Finished,
    {
        let mut b = back;
        let act = b.next(event);
        assert(transfer::back_step(back, event, b, act));
        match act {
            FileAction::Finished => {
                let MoveBack { landed, step, .. } = b;
                match step {
                    BackStep::Ended { error: Some(e) } => self.fail(e),
                    _ => {
                        let n: usize = landed.len();
                        let select = if n > 0 {
                            Some(landed[n - 1].to.clone())
                        } else {
                            None
                        };
                        let pairs = reversed(&landed);
                        self.succeed(select, Some(UndoOp::MoveBack { pairs }))
                    },
                }
            },
            _ => {
                self.step = UndoStep::MovingBack(b);
                act
            },
        }
    }

    fn begin(&mut self) -> (r: FileAction)
        requires
            old(self).step is Ready,
        ensures
            undo_step(*old(self), FileEvent::Begin, *final(self), r),
            undo_ok(*final(self)),
            final(self).step is Ended <==> r is Finished,
    {
        match &self.op {
            UndoOp::Rename { from, to } => {
                let a = to_lower_text(name_of(self.style, from.as_str()).as_str());
                let b = to_lower_text(name_of(self.style, to.as_str()).as_str());
                if same_text(a.as_str(), b.as_str()) {
                    let act = FileAction::Rename { from: from.clone(), to: to.clone() };
                    self.step = UndoStep::Renaming;
                    act
                } else {
                    let act = FileAction::IsTaken { path: to.clone() };
                    self.step = UndoStep::Checking;
                    act
                }
            },
            UndoOp::RemoveDir { path } => {
                let act = FileAction::RemoveEmptyDir { path: path.clone() };
                self.step = UndoStep::RemovingDir;
                act
            },
            UndoOp::MakeDir { path } => {
                let act = FileAction::CreateDir { path: path.clone() };
                self.step = UndoStep::MakingDir;
                act
            },
            UndoOp::Trash { paths } => {
                let d = Deletion::new(self.style, copy_texts(paths));
                self.step_deletion(d, FileEvent::Begin)
            },
            UndoOp::MoveBack { pairs } => {
                let b = MoveBack::new(self.style, copy_moved(pairs));
                self.step_back(b, FileEvent::Begin)
            },
            UndoOp::Restore { .. } => {
                self.step = UndoStep::Listing;
                FileAction::ListBin
            },
        }
    }

    fn renamed(&mut self, r: Result<(), Failure>) -> (act: FileAction)
        requires
            old(self).op is Rename,
        ensures
            undo_step(Undo { step: UndoStep::Renaming, ..*old(self) }, FileEvent::Did(r), *final(self), act),
            final(self).step is Ended && act is Finished,
    {
        match r {
            Ok(_) => {
                match &self.op {
                    UndoOp::Rename { from, to } => {
                        let inverse = UndoOp::Rename { from: to.clone(), to: from.clone() };
                        let select = to.clone();
                        self.succeed(Some(select), Some(inverse))
                    },
                    _ => FileAction::Finished,
                }
            },
            Err(f) => self.fail(text::cat("Couldn't undo the rename: ", f.message.as_str())),
        }
    }

    fn dir_removed(&mut self, r: Result<(), Failure>) -> (act: FileAction)
        requires
            old(self).op is RemoveDir,
        ensures
            undo_step(Undo { step: UndoStep::RemovingDir, ..*old(self) }, FileEvent::Did(r), *final(self), act),
            final(self).step is Ended && act is Finished,
    {
        let path = match &self.op {
            UndoOp::RemoveDir { path } => path.clone(),
            _ => String::new(),
        };
        match r {
            Ok(_) => self.succeed(None, Some(UndoOp::MakeDir { path })),
            Err(f) => {
                let name = name_of(self.style, path.as_str());
                let mut message = cat3("Couldn't remove “", name.as_str(), "” — it may no longer be empty (");
                message.append(f.message.as_str());
                message.append(").");
                self.fail(message)
            },
        }
    }

    fn dir_made(&mut self, r: Result<(), Failure>) -> (act: FileAction)
        requires
            old(self).op is MakeDir,
        ensures
            undo_step(Undo { step: UndoStep::MakingDir, ..*old(self) }, FileEvent::Did(r), *final(self), act),
            final(self).step is Ended && act is Finished,
    {
        let path = match &self.op {
            UndoOp::MakeDir { path } => path.clone(),
            _ => String::new(),
        };
        match r {
            Ok(_) => {
                let select = path.clone();
                self.succeed(Some(select), Some(UndoOp::RemoveDir { path }))
            },
            Err(f) => {
                let name = name_of(self.style, path.as_str());
                let mut message = cat3("Couldn't re-create “", name.as_str(), "”: ");
                message.append(f.message.as_str());
                self.fail(message)
            },
        }
    }

    fn listed(&mut self, r: Result<Vec<BinItem>, String>) -> (act: FileAction)
        requires
            old(self).op is Restore,
        ensures
            undo_step(Undo { step: UndoStep::Listing, ..*old(self) }, FileEvent::Bin(r), *final(self), act),
            undo_ok(*final(self)),
            final(self).step is Ended <==> act is Finished,
    {
        let items = match r {
            Ok(items) => items,
            Err(e) => {
                return self.fail(text::cat("Couldn't read the Recycle Bin: ", e.as_str()));
            },
        };
        let wanted = match &self.op {
            UndoOp::Restore { paths } => copy_texts(paths),
            _ => Vec::new(),
        };
        match pick_from_bin(self.style, &items, &wanted) {
            Ok(picked) => {
                let paths = original_paths(&items, &picked);
                self.step = UndoStep::Restoring { paths };
                proof {
                    assert forall|i: int| 0 <= i < wanted@.len() implies #[trigger] transfer::latest_from(
                        items@,
                        wanted@[i]@,
                        items@.len() as int,
                    ) == Some(picked@[i] as int) by {
                        assert(picked@[i] < items@.len());
                    }
                }
                FileAction::Restore { items: picked }
            },
            Err(e) => self.fail(e),
        }
    }

    fn restored(&mut self, paths: Vec<String>, r: Result<(), Failure>) -> (act: FileAction)
        ensures
            undo_step(Undo { step: UndoStep::Restoring { paths }, ..*old(self) }, FileEvent::Did(r), *final(self), act),
            final(self).step is Ended && act is Finished,
    {
        match r {
            Ok(_) => {
                let n: usize = paths.len();
                if n == 0 {
                    self.succeed(None, None)
                } else {
                    let select = paths[n - 1].clone();
                    self.succeed(Some(select), Some(UndoOp::Trash { paths }))
                }
            },
            Err(f) => self.fail(text::cat("Couldn't restore from the Recycle Bin: ", f.message.as_str())),
        }
    }

    fn checked(&mut self, taken: bool) -> (act: FileAction)
        requires
            old(self).op is Rename,
        ensures
            undo_step(Undo { step: UndoStep::Checking, ..*old(self) }, FileEvent::Answer(taken), *final(self), act),
            undo_ok(*final(self)),
            final(self).step is Ended <==> act is Finished,
    {
        match &self.op {
            UndoOp::Rename { from, to } => {
                if taken {
                    let name = name_of(self.style, to.as_str());
                    self.fail(cat3("Can't undo the rename: something is now named “", name.as_str(), "”."))
                } else {
                    let act = FileAction::Rename { from: from.clone(), to: to.clone() };
                    self.step = UndoStep::Renaming;
                    act
                }
            },
            _ => FileAction::Finished,
        }
    }

    /// Takes how the last action went and says what comes next.
    pub fn next(&mut self, event: FileEvent) -> (r: FileAction)
        requires
            undo_ok(*old(self)),
            undo_awaits(old(self).step, event),
        ensures
            undo_step(*old(self), event, *final(self), r),
            undo_ok(*final(self)),
            final(self).step is Ended <==> r is Finished,
    {
        let mut step = UndoStep::Ready;
        std::mem::swap(&mut step, &mut self.step);
        match (step, event) {
            (UndoStep::Ready, FileEvent::Begin) => self.begin(),
            (UndoStep::Checking, FileEvent::Answer(taken)) => self.checked(taken),
            (UndoStep::Renaming, FileEvent::Did(r)) => self.renamed(r),
            (UndoStep::RemovingDir, FileEvent::Did(r)) => self.dir_removed(r),
            (UndoStep::MakingDir, FileEvent::Did(r)) => self.dir_made(r),
            (UndoStep::Deleting(d), e) => self.step_deletion(d, e),
            (UndoStep::MovingBack(b), e) => self.step_back(b, e),
            (UndoStep::Listing, FileEvent::Bin(r)) => self.listed(r),
            (UndoStep::Restoring { paths }, FileEvent::Did(r)) => self.restored(paths, r),
            _ => FileAction::Finished,
        }
    }

    /// What the reversal came to, once it has ended.
    pub fn outcome(self) -> (r: Option<Result<UndoDone, String>>)
        ensures
            r == (match self.step {
                UndoStep::Ended(o) => Some(o),
                _ => None,
            }),
    {
        match self.step {
            UndoStep::Ended(o) => Some(o),
            _ => None,
        }
    }
}

/// A reversal that succeeded undoes itself: where the inverse of a rename, of a
/// new folder or of its removal succeeds too, its own inverse is what was run
/// first.
pub proof fn law_inverse_of_inverse(u: Undo, v: Undo, act: FileAction, w: Undo, x: Undo, again: FileAction)
    requires
        u.op is Rename || u.op is RemoveDir || u.op is MakeDir,
        undo_ok(u),
        undo_step(u, FileEvent::Did(Ok(())), v, act),
        undo_ok(w),
        Some(w.op) == achieved(v).inverse,
        undo_step(w, FileEvent::Did(Ok(())), x, again),
    ensures
        achieved(x).inverse == Some(u.op),
{
}

/// Undoing a rename never replaces what has the old name by now: it is made only
/// where nothing was found there, or where the names differ in case only.
pub proof fn law_undone_rename_replaces_nothing(u: Undo, ev: FileEvent, v: Undo, act: FileAction)
    requires
        u.op is Rename,
        undo_ok(u),
        undo_step(u, ev, v, act),
        act is Rename,
    ensures
        act == (FileAction::Rename { from: u.op->Rename_from, to: u.op->Rename_to }),
        ev == FileEvent::Answer(false) || case_only(u.style, u.op->Rename_from@, u.op->Rename_to@),
{
}

/// A reversal run to its end on a volume that nothing else touches: each event
/// is what came of the action before it.
pub open spec fn runs(
    us: Seq<Undo>,
    acts: Seq<FileAction>,
    evs: Seq<FileEvent>,
    vs: Seq<crate::volume::Volume>,
) -> bool {
    let n = acts.len() as int;
    &&& n > 0 && us.len() == n + 1 && evs.len() == n && vs.len() == n
    &&& us[0].step is Ready
    &&& us[0].style == vs[0].style
    &&& evs[0] is Begin
    &&& forall|i: int| 0 <= i < n ==> undo_step(us[i], #[trigger] evs[i], us[i + 1], acts[i])
    &&& forall|i: int| 0 <= i < n - 1 ==> crate::volume::answers(vs[i], #[trigger] acts[i], evs[i + 1], vs[i + 1])
    &&& acts.last() is Finished
}

/// A reversal of a name or a single folder can be made.
pub open spec fn can_reverse(v: crate::volume::Volume, op: UndoOp) -> bool {
    match op {
        UndoOp::Rename { from, to } => crate::volume::can_rename(
            v,
            crate::volume::place(v, from@),
            crate::volume::place(v, to@),
        ),
        UndoOp::RemoveDir { path } => crate::volume::can_remove(v, crate::volume::place(v, path@)),
        UndoOp::MakeDir { path } => crate::volume::can_make(v, crate::volume::place(v, path@)),
        _ => false,
    }
}

/// The volume once it was made.
pub open spec fn volume_after(v: crate::volume::Volume, op: UndoOp) -> crate::volume::Volume {
    match op {
        UndoOp::Rename { from, to } => crate::volume::renamed(
            v,
            crate::volume::place(v, from@),
            crate::volume::place(v, to@),
        ),
        UndoOp::RemoveDir { path } => crate::volume::removed(v, crate::volume::place(v, path@)),
        UndoOp::MakeDir { path } => crate::volume::made(v, crate::volume::place(v, path@)),
        _ => v,
    }
}

/// What reverses it again.
pub open spec fn inverse_of(op: UndoOp) -> UndoOp {
    match op {
        UndoOp::Rename { from, to } => UndoOp::Rename { from: to, to: from },
        UndoOp::RemoveDir { path } => UndoOp::MakeDir { path },
        UndoOp::MakeDir { path } => UndoOp::RemoveDir { path },
        _ => op,
    }
}

/// A reversal of a name or a single folder succeeds exactly where it can be
/// made, does what it says to the volume and nothing else, and gives its inverse;
/// where it fails it leaves everything as it is.
pub proof fn law_reversal_does_what_it_says(
    us: Seq<Undo>,
    acts: Seq<FileAction>,
    evs: Seq<FileEvent>,
    vs: Seq<crate::volume::Volume>,
)
    requires
        runs(us, acts, evs, vs),
        us[0].op is Rename || us[0].op is RemoveDir || us[0].op is MakeDir,
    ensures
        us.last().step is Ended,
        us.last().step->Ended_0 is Ok <==> can_reverse(vs[0], us[0].op),
        can_reverse(vs[0], us[0].op) ==> vs.last() == volume_after(vs[0], us[0].op) && achieved(us.last()).inverse == Some(
            inverse_of(us[0].op),
        ),
        !can_reverse(vs[0], us[0].op) ==> vs.last() == vs[0],
{
    let n = acts.len() as int;
    let op = us[0].op;
    assert(undo_step(us[0], evs[0], us[1], acts[0]));
    assert(n > 1);
    assert(crate::volume::answers(vs[0], acts[0], evs[1], vs[1]));
    assert(undo_step(us[1], evs[1], us[2], acts[1]));
    match op {
        UndoOp::Rename { from, to } => {
            let b = crate::volume::place(vs[0], to@);
            assert(b.subrange(0, b.len() as int) =~= b);
            if n > 2 {
                assert(crate::volume::answers(vs[1], acts[1], evs[2], vs[2]));
                assert(undo_step(us[2], evs[2], us[3], acts[2]));
                if n > 3 {
                    assert(crate::volume::answers(vs[2], acts[2], evs[3], vs[3]));
                }
            }
        },
        _ => {
            if n > 2 {
                assert(crate::volume::answers(vs[1], acts[1], evs[2], vs[2]));
            }
        },
    }
}

/// Undoing a rename, the making or the removal of a folder, and then undoing
/// that, succeeds and leaves every file and folder as it was, with its contents;
/// and the inverse of the inverse is the operation itself.
pub proof fn law_undone_twice_is_as_before(
    us: Seq<Undo>,
    acts: Seq<FileAction>,
    evs: Seq<FileEvent>,
    vs: Seq<crate::volume::Volume>,
    us2: Seq<Undo>,
    acts2: Seq<FileAction>,
    evs2: Seq<FileEvent>,
    vs2: Seq<crate::volume::Volume>,
)
    requires
        us[0].op is Rename || us[0].op is RemoveDir || us[0].op is MakeDir,
        crate::volume::is_sound(vs[0]),
        runs(us, acts, evs, vs),
        us.last().step->Ended_0 is Ok,
        runs(us2, acts2, evs2, vs2),
        vs2[0] == vs.last(),
        Some(us2[0].op) == achieved(us.last()).inverse,
    ensures
        us2.last().step is Ended && us2.last().step->Ended_0 is Ok,
        achieved(us2.last()).inverse == Some(us[0].op),
        vs2.last() == vs[0],
{
    law_reversal_does_what_it_says(us, acts, evs, vs);
    law_reversal_does_what_it_says(us2, acts2, evs2, vs2);
    let v = vs[0];
    match us[0].op {
        UndoOp::Rename { from, to } => {
            crate::volume::law_rename_and_back(v, crate::volume::place(v, from@), crate::volume::place(v, to@));
        },
        UndoOp::RemoveDir { path } => {
            crate::volume::law_make_and_remove(v, crate::volume::place(v, path@));
        },
        UndoOp::MakeDir { path } => {
            crate::volume::law_make_and_remove(v, crate::volume::place(v, path@));
        },
        _ => {},
    }
}

/// One file moved back on a volume: from where it is, by a rename, to the first
/// free place for its original name in its original folder.
#[verifier::opaque]
pub open spec fn moves_one(v: crate::volume::Volume, pair: Moved, done: Moved) -> bool {
    &&& done.from@ == pair.to@
    &&& crate::paths::parent_spec(v.style, pair.from@) matches Some(dir) && crate::volume::is_first_free(
        v,
        dir,
        location::name_spec(v.style, pair.from@),
        done.to@,
    )
    &&& crate::volume::can_rename(v, crate::volume::place(v, done.from@), crate::volume::place(v, done.to@))
}

/// The volume once every file of a list was moved, the first one first.
pub open spec fn after_moves(v: crate::volume::Volume, done: Seq<Moved>) -> crate::volume::Volume
    decreases done.len(),
{
    if done.len() == 0 {
        v
    } else {
        crate::volume::renamed(
            after_moves(v, done.drop_last()),
            crate::volume::place(v, done.last().from@),
            crate::volume::place(v, done.last().to@),
        )
    }
}

/// The list holds the files that were moved back one after the other, the last
/// of the pairs first.
pub open spec fn moves_back(v: crate::volume::Volume, pairs: Seq<Moved>, done: Seq<Moved>) -> bool
    decreases done.len(),
{
    done.len() == 0 || {
        &&& done.len() <= pairs.len()
        &&& moves_back(v, pairs, done.drop_last())
        &&& moves_one(after_moves(v, done.drop_last()), pairs[pairs.len() - done.len()], done.last())
    }
}

proof fn lemma_style_stays(v: crate::volume::Volume, done: Seq<Moved>)
    ensures
        after_moves(v, done).style == v.style,
    decreases done.len(),
{
    if done.len() > 0 {
        lemma_style_stays(v, done.drop_last());
    }
}

/// What a move back has come to when it ended.
pub open spec fn back_came_to(end: Undo, pairs: Seq<Moved>, done: Seq<Moved>) -> bool {
    &&& end.step is Ended
    &&& if done.len() == pairs.len() {
        &&& end.step->Ended_0 is Ok
        &&& achieved(end).inverse matches Some(op) && (op matches UndoOp::MoveBack { pairs: p } && p@ == done.reverse())
    } else {
        &&& end.step->Ended_0 is Err
        &&& done.len() < pairs.len()
        &&& crate::paths::parent_spec(end.style, pairs[pairs.len() - 1 - done.len()].from@) is None
    }
}

/// The place that was found is where the file is renamed to.
proof fn lemma_step_to_place(u: Undo, q: MoveBack, ev: FileEvent, v: Undo, act: FileAction) -> (c: MoveBack)
    requires
        u.step == UndoStep::MovingBack(q),
        q.step is Placing,
        ev is Place,
        undo_step(u, ev, v, act),
    ensures
        c == (MoveBack { step: BackStep::Renaming { target: ev->Place_0 }, ..q }),
        v == (Undo { step: UndoStep::MovingBack(c), ..u }),
        act matches FileAction::Rename { from, to } && from@ == transfer::current_pair(q).to@ && to == ev->Place_0,
{
    assert(moving_step(u, q, ev, v, act));
    let (c, a) = choose|c: MoveBack, a: FileAction|
        #[trigger] transfer::back_step(q, ev, c, a) && (if a is Finished {
            back_finishes(u, v, act, c)
        } else {
            v == (Undo { step: UndoStep::MovingBack(c), ..u }) && act == a
        });
    c
}

/// A file that was renamed is back; one that was not is copied.
proof fn lemma_step_of_rename(u: Undo, c: MoveBack, ev: FileEvent, v: Undo, act: FileAction) -> (r: (
    MoveBack,
    MoveBack,
    FileAction,
))
    requires
        u.step == UndoStep::MovingBack(c),
        c.step is Renaming,
        ev is Did,
        undo_step(u, ev, v, act),
    ensures
        ev->Did_0 is Err ==> act is Copy,
        ev->Did_0 is Ok ==> {
            let (m, e, f) = r;
            &&& m.style == c.style && m.pairs == c.pairs
            &&& m.landed@.len() == c.landed@.len() + 1
            &&& m.landed@.drop_last() == c.landed@
            &&& m.landed@.last().from@ == transfer::current_pair(c).to@
            &&& m.landed@.last().to@ == c.step->Renaming_target@
            &&& transfer::back_turns(m, e, f)
            &&& turned(u, v, act, e, f)
        },
{
    assert(moving_step(u, c, ev, v, act));
    let (e, f) = choose|e: MoveBack, f: FileAction|
        #[trigger] transfer::back_step(c, ev, e, f) && (if f is Finished {
            back_finishes(u, v, act, e)
        } else {
            v == (Undo { step: UndoStep::MovingBack(e), ..u }) && act == f
        });
    let target = c.step->Renaming_target@;
    if ev->Did_0 is Ok {
        assert(transfer::back_lands(c, e, f, target));
    }
    let m = choose|m: MoveBack|
        m == (MoveBack { step: m.step, landed: m.landed, ..c }) && m.landed@.len() == c.landed@.len() + 1
            && m.landed@.drop_last() == c.landed@ && m.landed@.last().from@ == transfer::current_pair(c).to@
            && m.landed@.last().to@ == target && #[trigger] transfer::back_turns(m, e, f);
    (m, e, f)
}

/// The move back goes on as `q` with that action, or has ended as `q`.
spec fn turned(u: Undo, v: Undo, act: FileAction, q: MoveBack, a: FileAction) -> bool {
    if a is Finished {
        back_finishes(u, v, act, q)
    } else {
        v == (Undo { step: UndoStep::MovingBack(q), ..u }) && act == a
    }
}

/// Step `i` of a run, and what comes of its action.
#[verifier::opaque]
spec fn ran(us: Seq<Undo>, acts: Seq<FileAction>, evs: Seq<FileEvent>, vs: Seq<crate::volume::Volume>, i: int) -> bool {
    &&& undo_step(us[i], evs[i], us[i + 1], acts[i])
    &&& i < acts.len() - 1 ==> crate::volume::answers(vs[i], acts[i], evs[i + 1], vs[i + 1])
    &&& acts.last() is Finished
}

proof fn lemma_ran(us: Seq<Undo>, acts: Seq<FileAction>, evs: Seq<FileEvent>, vs: Seq<crate::volume::Volume>)
    requires
        runs(us, acts, evs, vs),
    ensures
        forall|i: int| 0 <= i < acts.len() ==> #[trigger] ran(us, acts, evs, vs, i),
{
    reveal(ran);
    assert forall|i: int| 0 <= i < acts.len() implies #[trigger] ran(us, acts, evs, vs, i) by {
        assert(undo_step(us[i], evs[i], us[i + 1], acts[i]));
        if i < acts.len() - 1 {
            assert(crate::volume::answers(vs[i], acts[i], evs[i + 1], vs[i + 1]));
        }
    }
}

/// A run goes on behind an action that a place is looked for or a file is
/// renamed with, and nowhere else that a move back comes to.
proof fn lemma_goes_on(us: Seq<Undo>, acts: Seq<FileAction>, evs: Seq<FileEvent>, vs: Seq<crate::volume::Volume>, i: int)
    requires
        0 <= i < acts.len(),
        ran(us, acts, evs, vs, i),
    ensures
        undo_step(us[i], evs[i], us[i + 1], acts[i]),
        acts[i] is FindDest || acts[i] is Rename ==> i < acts.len() - 1 && crate::volume::answers(
            vs[i],
            acts[i],
            evs[i + 1],
            vs[i + 1],
        ),
        acts[i] is Finished ==> i == acts.len() - 1,
        !(acts[i] is Copy),
{
    reveal(ran);
}

/// A pair that a move back turned to in step `i` is moved in the two steps behind
/// it.
#[verifier::spinoff_prover]
proof fn lemma_moves_one(
    us: Seq<Undo>,
    acts: Seq<FileAction>,
    evs: Seq<FileEvent>,
    vs: Seq<crate::volume::Volume>,
    i: int,
    m: MoveBack,
    q: MoveBack,
    a: FileAction,
) -> (r: (MoveBack, MoveBack, FileAction))
    requires
        forall|i: int| 0 <= i < acts.len() ==> #[trigger] ran(us, acts, evs, vs, i),
        0 <= i < acts.len(),
        m.style == us[i].style,
        us[i].style == vs[i].style,
        transfer::back_turns(m, q, a),
        !(a is Finished),
        turned(us[i], us[i + 1], acts[i], q, a),
    ensures
        ({
            let (m2, e, f) = r;
            let (x, y) = (m2.landed@.last().from@, m2.landed@.last().to@);
            &&& i + 2 < acts.len()
            &&& m2.style == m.style && m2.pairs == m.pairs
            &&& us[i + 2].style == us[i].style
            &&& m2.landed@.len() == m.landed@.len() + 1
            &&& m2.landed@.drop_last() == m.landed@
            &&& moves_one(vs[i], transfer::current_pair(m), m2.landed@.last())
            &&& vs[i + 2] == crate::volume::renamed(
                vs[i],
                crate::volume::place(vs[i], x),
                crate::volume::place(vs[i], y),
            )
            &&& transfer::back_turns(m2, e, f)
            &&& turned(us[i + 2], us[i + 3], acts[i + 2], e, f)
        }),
{
    reveal(moves_one);
    lemma_goes_on(us, acts, evs, vs, i);
    assert(ran(us, acts, evs, vs, i + 1));
    lemma_goes_on(us, acts, evs, vs, i + 1);
    let c = lemma_step_to_place(us[i + 1], q, evs[i + 1], us[i + 2], acts[i + 1]);
    assert(ran(us, acts, evs, vs, i + 2));
    lemma_goes_on(us, acts, evs, vs, i + 2);
    lemma_step_of_rename(us[i + 2], c, evs[i + 2], us[i + 3], acts[i + 2])
}

/// From where a move back turned to its next pair, in step `i`, to its end.
proof fn lemma_moves_on(
    us: Seq<Undo>,
    acts: Seq<FileAction>,
    evs: Seq<FileEvent>,
    vs: Seq<crate::volume::Volume>,
    i: int,
    m: MoveBack,
    q: MoveBack,
    a: FileAction,
) -> (done: Seq<Moved>)
    requires
        forall|i: int| 0 <= i < acts.len() ==> #[trigger] ran(us, acts, evs, vs, i),
        us.len() == acts.len() + 1,
        vs.len() == acts.len(),
        0 <= i < acts.len(),
        us[i].style == vs[0].style,
        m.style == us[i].style,
        m.landed@.len() <= m.pairs@.len(),
        transfer::back_turns(m, q, a),
        turned(us[i], us[i + 1], acts[i], q, a),
        vs[i] == after_moves(vs[0], m.landed@),
        moves_back(vs[0], m.pairs@, m.landed@),
    ensures
        moves_back(vs[0], m.pairs@, done),
        vs.last() == after_moves(vs[0], done),
        back_came_to(us.last(), m.pairs@, done),
        us.last().style == us[i].style,
    decreases acts.len() - i,
{
    if a is Finished {
        assert(ran(us, acts, evs, vs, i));
        lemma_goes_on(us, acts, evs, vs, i);
        m.landed@
    } else {
        lemma_style_stays(vs[0], m.landed@);
        let (m2, e, f) = lemma_moves_one(us, acts, evs, vs, i, m, q, a);
        assert(after_moves(vs[0], m2.landed@) == vs[i + 2]);
        assert(moves_back(vs[0], m.pairs@, m2.landed@));
        lemma_moves_on(us, acts, evs, vs, i + 2, m2, e, f)
    }
}

/// A move back by renames, run to its end on a volume that nothing else touches:
/// it takes the last file first, and moves each from where it is to the first
/// free place for its original name in its original folder. It ends with an
/// error exactly where a file's original path has no folder, and then the files
/// before that one stay where they are. Otherwise every file is back, and the
/// inverse names for each where it was and where it landed.
pub proof fn law_files_are_moved_back(
    us: Seq<Undo>,
    acts: Seq<FileAction>,
    evs: Seq<FileEvent>,
    vs: Seq<crate::volume::Volume>,
) -> (done: Seq<Moved>)
    requires
        runs(us, acts, evs, vs),
        us[0].op is MoveBack,
    ensures
        moves_back(vs[0], us[0].op->MoveBack_pairs@, done),
        vs.last() == after_moves(vs[0], done),
        back_came_to(us.last(), us[0].op->MoveBack_pairs@, done),
        us.last().style == us[0].style,
{
    let pairs = us[0].op->MoveBack_pairs@;
    assert(undo_step(us[0], evs[0], us[1], acts[0]));
    let b = choose|b: MoveBack|
        b.style == us[0].style && b.pairs@ == pairs && b.landed@.len() == 0 && b.step is Ready && #[trigger] moving_step(
            us[0],
            b,
            evs[0],
            us[1],
            acts[0],
        );
    let (c, a) = choose|c: MoveBack, a: FileAction|
        #[trigger] transfer::back_step(b, evs[0], c, a) && (if a is Finished {
            back_finishes(us[0], us[1], acts[0], c)
        } else {
            us[1] == (Undo { step: UndoStep::MovingBack(c), ..us[0] }) && acts[0] == a
        });
    lemma_ran(us, acts, evs, vs);
    lemma_moves_on(us, acts, evs, vs, 0, b, c, a)
}

/// The places that files were moved from and to are apart, but for the two of
/// one file.
pub open spec fn all_apart(v: crate::volume::Volume, l: Seq<Moved>) -> bool {
    forall|i: int, j: int|
        0 <= i < l.len() && 0 <= j < l.len() && i != j ==> moves_apart(v, #[trigger] l[i], #[trigger] l[j])
}

/// Neither place of one file is a place of the other, or holds it or is in it.
#[verifier::opaque]
pub open spec fn moves_apart(v: crate::volume::Volume, x: Moved, y: Moved) -> bool {
    let (a, b) = (crate::volume::place(v, x.from@), crate::volume::place(v, x.to@));
    let (c, d) = (crate::volume::place(v, y.from@), crate::volume::place(v, y.to@));
    crate::volume::apart(a, c) && crate::volume::apart(a, d) && crate::volume::apart(b, c) && crate::volume::apart(b, d)
}

/// A path's name joined to the folder of the path leads where the path does.
#[verifier::opaque]
pub open spec fn is_at_home(style: PathStyle, path: Seq<char>) -> bool {
    crate::paths::parent_spec(style, path) matches Some(dir) && crate::paths::components(
        style,
        crate::paths::join_spec(style, dir, location::name_spec(style, path)),
    ) == crate::paths::components(style, path)
}

/// Every rooted path that ends in a name is such a path, unless the name looks
/// like a drive.
pub proof fn law_rooted_path_is_at_home(style: PathStyle, path: Seq<char>)
    requires
        crate::paths::is_rooted(style, path),
        crate::paths::file_name_spec(style, path) is Some,
        !crate::paths::like_drive(style, crate::paths::components(style, path).last()),
    ensures
        is_at_home(style, path),
{
    reveal(is_at_home);
    crate::paths::law_name_in_its_parent(style, path);
}

proof fn lemma_fewer_apart(v: crate::volume::Volume, l: Seq<Moved>, i: int, j: int)
    requires
        all_apart(v, l),
        0 <= i <= j <= l.len(),
    ensures
        all_apart(v, l.subrange(i, j)),
{
    let s = l.subrange(i, j);
    assert forall|a: int, b: int| 0 <= a < s.len() && 0 <= b < s.len() && a != b implies moves_apart(
        v,
        #[trigger] s[a],
        #[trigger] s[b],
    ) by {
        assert(moves_apart(v, l[a + i], l[b + i]));
    }
}

proof fn lemma_apart_in_reverse(v: crate::volume::Volume, l: Seq<Moved>)
    requires
        all_apart(v, l.reverse()),
    ensures
        all_apart(v, l),
{
    let (inv, n) = (l.reverse(), l.len() as int);
    assert forall|i: int, j: int| 0 <= i < n && 0 <= j < n && i != j implies moves_apart(
        v,
        #[trigger] l[i],
        #[trigger] l[j],
    ) by {
        assert(inv[n - 1 - i] == l[i] && inv[n - 1 - j] == l[j]);
        assert(moves_apart(v, inv[n - 1 - i], inv[n - 1 - j]));
    }
}

/// A file whose original place nothing is at goes there, where its path's name in
/// the path's folder is that path.
proof fn lemma_home_is_found(v: crate::volume::Volume, pair: Moved, done: Moved)
    requires
        moves_one(v, pair, done),
        is_at_home(v.style, pair.from@),
        !v.items.contains_key(crate::volume::place(v, pair.from@)),
    ensures
        crate::volume::place(v, done.to@) == crate::volume::place(v, pair.from@),
{
    reveal(is_at_home);
    reveal(moves_one);
    let dir = crate::paths::parent_spec(v.style, pair.from@)->Some_0;
    let name = location::name_spec(v.style, pair.from@);
    let home = crate::names::dest_candidate(v.style, dir, name, 0);
    assert(home == crate::paths::join_spec(v.style, dir, name));
    assert(!v.items.contains_key(crate::volume::place(v, home)));
    assert(done.to@ == home);
}

/// What is in none of the places stays as it is.
proof fn lemma_elsewhere(v: crate::volume::Volume, l: Seq<Moved>, k: Seq<crate::paths::Meaning>)
    requires
        forall|j: int|
            0 <= j < l.len() ==> !crate::volume::place(v, (#[trigger] l[j]).from@).is_prefix_of(k) && !crate::volume::place(
                v,
                l[j].to@,
            ).is_prefix_of(k),
    ensures
        after_moves(v, l).items.contains_key(k) == v.items.contains_key(k),
    decreases l.len(),
{
    if l.len() > 0 {
        assert forall|j: int| 0 <= j < l.len() - 1 implies (#[trigger] l.drop_last()[j]) == l[j] by {}
        lemma_elsewhere(v, l.drop_last(), k);
        assert(l.last() == l[l.len() - 1]);
    }
}

/// Each move of a move back, as it was made.
proof fn lemma_each_move(v: crate::volume::Volume, pairs: Seq<Moved>, l: Seq<Moved>, j: int)
    requires
        moves_back(v, pairs, l),
        0 <= j < l.len(),
    ensures
        l.len() <= pairs.len(),
        moves_one(after_moves(v, l.take(j)), pairs[pairs.len() - 1 - j], l[j]),
    decreases l.len(),
{
    if j == l.len() - 1 {
        assert(l.take(j) =~= l.drop_last());
    } else {
        lemma_each_move(v, pairs, l.drop_last(), j);
        assert(l.drop_last().take(j) =~= l.take(j));
    }
}

/// Where the moves are apart, each went to a place that was free from the start.
proof fn lemma_free_from_the_start(v: crate::volume::Volume, pairs: Seq<Moved>, l: Seq<Moved>, j: int)
    requires
        moves_back(v, pairs, l),
        all_apart(v, l),
        0 <= j < l.len(),
    ensures
        crate::volume::is_free(v, crate::volume::place(v, l[j].to@)),
        crate::volume::apart(crate::volume::place(v, l[j].from@), crate::volume::place(v, l[j].to@)),
{
    reveal(moves_apart);
    reveal(moves_one);
    let w = after_moves(v, l.take(j));
    let (a, b) = (crate::volume::place(v, l[j].from@), crate::volume::place(v, l[j].to@));
    lemma_each_move(v, pairs, l, j);
    lemma_style_stays(v, l.take(j));
    assert(!b.is_prefix_of(a));
    assert forall|k: Seq<crate::paths::Meaning>| #[trigger] v.items.contains_key(k) implies !b.is_prefix_of(k) by {
        if b.is_prefix_of(k) {
            assert forall|i: int| 0 <= i < j implies !crate::volume::place(v, (#[trigger] l.take(j)[i]).from@).is_prefix_of(k)
                && !crate::volume::place(v, l.take(j)[i].to@).is_prefix_of(k) by {
                assert(l.take(j)[i] == l[i]);
                assert(moves_apart(v, l[i], l[j]));
                crate::volume::lemma_apart(crate::volume::place(v, l[i].from@), b);
                crate::volume::lemma_apart(crate::volume::place(v, l[i].to@), b);
            }
            lemma_elsewhere(v, l.take(j), k);
        }
    }
}

/// Where the moves are apart, nothing is where the first file was.
proof fn lemma_first_is_gone(v: crate::volume::Volume, l: Seq<Moved>)
    requires
        l.len() > 0,
        all_apart(v, l),
        crate::volume::apart(crate::volume::place(v, l[0].from@), crate::volume::place(v, l[0].to@)),
    ensures
        !after_moves(v, l).items.contains_key(crate::volume::place(v, l[0].from@)),
    decreases l.len(),
{
    reveal(moves_apart);
    let a = crate::volume::place(v, l[0].from@);
    let before = l.drop_last();
    assert(a.subrange(0, a.len() as int) =~= a);
    if l.len() > 1 {
        assert(before[0] == l[0]);
        lemma_fewer_apart(v, l, 0, l.len() - 1);
        assert(l.subrange(0, l.len() - 1) =~= before);
        lemma_first_is_gone(v, before);
        assert(moves_apart(v, l[0], l[l.len() - 1]));
    }
}

/// Where the moves are apart, taking the first one back leaves the others.
proof fn lemma_first_taken_back(v: crate::volume::Volume, l: Seq<Moved>)
    requires
        l.len() > 0,
        all_apart(v, l),
        crate::volume::is_free(v, crate::volume::place(v, l[0].to@)),
        crate::volume::apart(crate::volume::place(v, l[0].from@), crate::volume::place(v, l[0].to@)),
    ensures
        crate::volume::renamed(
            after_moves(v, l),
            crate::volume::place(v, l[0].to@),
            crate::volume::place(v, l[0].from@),
        ) == after_moves(v, l.drop_first()),
    decreases l.len(),
{
    reveal(moves_apart);
    let (a, b) = (crate::volume::place(v, l[0].from@), crate::volume::place(v, l[0].to@));
    let before = l.drop_last();
    let w = after_moves(v, before);
    if l.len() == 1 {
        assert(w == v);
        crate::volume::lemma_taken_back(v, a, b);
        assert(l.drop_first() =~= Seq::empty());
    } else {
        let last = l[l.len() - 1];
        assert(before[0] == l[0]);
        lemma_fewer_apart(v, l, 0, l.len() - 1);
        assert(l.subrange(0, l.len() - 1) =~= before);
        lemma_first_taken_back(v, before);
        assert(moves_apart(v, l[0], last));
        crate::volume::law_moves_apart_commute(
            w,
            crate::volume::place(v, last.from@),
            crate::volume::place(v, last.to@),
            b,
            a,
        );
        assert(l.drop_first().drop_last() =~= before.drop_first());
        assert(l.drop_first().last() == last);
    }
}

/// The first `j` files that are moved again are where they were, and the others
/// where they landed.
proof fn lemma_moved_again(v: crate::volume::Volume, pairs: Seq<Moved>, l: Seq<Moved>, again: Seq<Moved>, j: int)
    requires
        moves_back(v, pairs, l),
        l.len() == pairs.len(),
        all_apart(v, l),
        forall|i: int| 0 <= i < pairs.len() ==> is_at_home(v.style, (#[trigger] pairs[i]).to@),
        moves_back(after_moves(v, l), l.reverse(), again),
        0 <= j <= again.len() <= l.len(),
    ensures
        after_moves(after_moves(v, l), again.take(j)) == after_moves(v, l.skip(j)),
        j > 0 ==> again[j - 1].from@ == l[j - 1].to@ && crate::volume::place(v, again[j - 1].to@) == crate::volume::place(
            v,
            l[j - 1].from@,
        ),
    decreases j,
{
    let w = after_moves(v, l);
    if j == 0 {
        assert(again.take(0) =~= Seq::empty());
        assert(l.skip(0) =~= l);
    } else {
        lemma_moved_again(v, pairs, l, again, j - 1);
        lemma_free_from_the_start(v, pairs, l, j - 1);
        lemma_was_at_home(v, pairs, l, j - 1);
        lemma_each_move(w, l.reverse(), again, j - 1);
        assert(l.reverse()[l.len() - j] == l[j - 1]);
        lemma_one_again(v, l, again, j - 1);
        lemma_style_stays(v, l);
        assert(again.take(j).drop_last() =~= again.take(j - 1));
        assert(again.take(j).last() == again[j - 1]);
    }
}

/// Of moves that are apart, the first one made back.
proof fn lemma_first_again(v: crate::volume::Volume, rest: Seq<Moved>, done: Moved)
    requires
        rest.len() > 0,
        all_apart(v, rest),
        crate::volume::is_free(v, crate::volume::place(v, rest[0].to@)),
        crate::volume::apart(crate::volume::place(v, rest[0].from@), crate::volume::place(v, rest[0].to@)),
        is_at_home(v.style, rest[0].from@),
        moves_one(after_moves(v, rest), rest[0], done),
    ensures
        done.from@ == rest[0].to@,
        crate::volume::place(v, done.to@) == crate::volume::place(v, rest[0].from@),
        crate::volume::renamed(
            after_moves(v, rest),
            crate::volume::place(v, done.from@),
            crate::volume::place(v, done.to@),
        ) == after_moves(v, rest.drop_first()),
{
    reveal(moves_one);
    lemma_style_stays(v, rest);
    lemma_first_is_gone(v, rest);
    lemma_home_is_found(after_moves(v, rest), rest[0], done);
    lemma_first_taken_back(v, rest);
}

/// The next file moved again is where it was.
proof fn lemma_one_again(v: crate::volume::Volume, l: Seq<Moved>, again: Seq<Moved>, j: int)
    requires
        all_apart(v, l),
        0 <= j < again.len() <= l.len(),
        crate::volume::is_free(v, crate::volume::place(v, l[j].to@)),
        crate::volume::apart(crate::volume::place(v, l[j].from@), crate::volume::place(v, l[j].to@)),
        is_at_home(v.style, l[j].from@),
        moves_one(after_moves(v, l.skip(j)), l[j], again[j]),
    ensures
        again[j].from@ == l[j].to@,
        crate::volume::place(v, again[j].to@) == crate::volume::place(v, l[j].from@),
        crate::volume::renamed(
            after_moves(v, l.skip(j)),
            crate::volume::place(v, again[j].from@),
            crate::volume::place(v, again[j].to@),
        ) == after_moves(v, l.skip(j + 1)),
{
    let rest = l.skip(j);
    assert(rest[0] == l[j]);
    lemma_fewer_apart(v, l, j, l.len() as int);
    assert(l.subrange(j, l.len() as int) =~= rest);
    lemma_first_again(v, rest, again[j]);
    assert(rest.drop_first() =~= l.skip(j + 1));
}

proof fn lemma_was_at_home(v: crate::volume::Volume, pairs: Seq<Moved>, l: Seq<Moved>, j: int)
    requires
        moves_back(v, pairs, l),
        forall|i: int| 0 <= i < pairs.len() ==> is_at_home(v.style, (#[trigger] pairs[i]).to@),
        0 <= j < l.len(),
    ensures
        is_at_home(v.style, l[j].from@),
        l[j].from@ == pairs[pairs.len() - 1 - j].to@,
{
    reveal(moves_one);
    lemma_each_move(v, pairs, l, j);
    assert(is_at_home(v.style, pairs[pairs.len() - 1 - j].to@));
}

/// Files that were all moved back and all moved again.
proof fn lemma_all_again(v: crate::volume::Volume, pairs: Seq<Moved>, l: Seq<Moved>, again: Seq<Moved>)
    requires
        moves_back(v, pairs, l),
        l.len() == pairs.len(),
        all_apart(v, l.reverse()),
        forall|i: int| 0 <= i < pairs.len() ==> is_at_home(v.style, (#[trigger] pairs[i]).to@),
        moves_back(after_moves(v, l), l.reverse(), again),
    ensures
        again.len() <= l.len(),
        again.len() < l.len() ==> crate::paths::parent_spec(v.style, l.reverse()[l.len() - 1 - again.len()].from@) is Some,
        again.len() == l.len() ==> after_moves(after_moves(v, l), again) == v,
        again.len() == l.len() ==> forall|i: int|
            0 <= i < l.len() ==> (#[trigger] again.reverse()[i]).from@ == l.reverse()[i].to@ && crate::volume::place(
                v,
                again.reverse()[i].to@,
            ) == crate::volume::place(v, pairs[i].to@),
{
    reveal(is_at_home);
    let n = l.len() as int;
    lemma_apart_in_reverse(v, l);
    if again.len() > 0 {
        lemma_each_move(after_moves(v, l), l.reverse(), again, 0);
    }
    if again.len() < n {
        let k = again.len() as int;
        lemma_was_at_home(v, pairs, l, k);
        assert(l.reverse()[n - 1 - k] == l[k]);
    } else {
        lemma_moved_again(v, pairs, l, again, n);
        assert(again.take(n) =~= again);
        assert(l.skip(n) =~= Seq::empty());
        assert forall|i: int| 0 <= i < n implies (#[trigger] again.reverse()[i]).from@ == l.reverse()[i].to@
            && crate::volume::place(v, again.reverse()[i].to@) == crate::volume::place(v, pairs[i].to@) by {
            lemma_moved_again(v, pairs, l, again, n - i);
            lemma_was_at_home(v, pairs, l, n - 1 - i);
            assert(again.reverse()[i] == again[n - 1 - i]);
            assert(l.reverse()[i] == l[n - 1 - i]);
        }
    }
}

/// Undoing moves by renames, and then undoing that, leaves every file and folder
/// as it was, with its contents, and gives an inverse that moves the files again
/// from where they landed: where no place that a file was moved from or to is a
/// place of another file, holds it or is in it, and where each file was at a path
/// whose name in the path's folder is that path.
pub proof fn law_moved_twice_is_as_before(
    us: Seq<Undo>,
    acts: Seq<FileAction>,
    evs: Seq<FileEvent>,
    vs: Seq<crate::volume::Volume>,
    us2: Seq<Undo>,
    acts2: Seq<FileAction>,
    evs2: Seq<FileEvent>,
    vs2: Seq<crate::volume::Volume>,
)
    requires
        us[0].op is MoveBack,
        runs(us, acts, evs, vs),
        us.last().step->Ended_0 is Ok,
        runs(us2, acts2, evs2, vs2),
        vs2[0] == vs.last(),
        Some(us2[0].op) == achieved(us.last()).inverse,
        all_apart(vs[0], us2[0].op->MoveBack_pairs@),
        forall|i: int|
            0 <= i < us[0].op->MoveBack_pairs@.len() ==> is_at_home(
                us[0].style,
                (#[trigger] us[0].op->MoveBack_pairs@[i]).to@,
            ),
    ensures
        us2.last().step is Ended && us2.last().step->Ended_0 is Ok,
        vs2.last() == vs[0],
        achieved(us2.last()).inverse matches Some(op) && (op matches UndoOp::MoveBack { pairs: p } && p@.len()
            == us[0].op->MoveBack_pairs@.len() && forall|i: int|
            0 <= i < p@.len() ==> (#[trigger] p@[i]).from@ == us2[0].op->MoveBack_pairs@[i].to@ && crate::volume::place(
                vs[0],
                p@[i].to@,
            ) == crate::volume::place(vs[0], us[0].op->MoveBack_pairs@[i].to@)),
{
    let l = law_files_are_moved_back(us, acts, evs, vs);
    let again = law_files_are_moved_back(us2, acts2, evs2, vs2);
    lemma_style_stays(vs[0], l);
    lemma_all_again(vs[0], us[0].op->MoveBack_pairs@, l, again);
}

/// Each file of the list could be moved in its turn, the first one first.
pub open spec fn was_moved(v: crate::volume::Volume, l: Seq<Moved>) -> bool {
    forall|i: int| 0 <= i < l.len() ==> #[trigger] could_move(after_moves(v, l.take(i)), l[i])
}

/// The file can be moved by a rename, and its path's name in the path's folder is
/// that path.
#[verifier::opaque]
pub open spec fn could_move(v: crate::volume::Volume, x: Moved) -> bool {
    crate::volume::can_rename(v, crate::volume::place(v, x.from@), crate::volume::place(v, x.to@)) && is_at_home(
        v.style,
        x.from@,
    )
}

/// A file that was moved is moved back to where it was, and everything is as it
/// was before.
proof fn lemma_one_undone(v: crate::volume::Volume, x: Moved, done: Moved)
    requires
        could_move(v, x),
        moves_one(
            crate::volume::renamed(v, crate::volume::place(v, x.from@), crate::volume::place(v, x.to@)),
            x,
            done,
        ),
    ensures
        done.from@ == x.to@,
        crate::volume::place(v, done.to@) == crate::volume::place(v, x.from@),
        crate::volume::renamed(
            crate::volume::renamed(v, crate::volume::place(v, x.from@), crate::volume::place(v, x.to@)),
            crate::volume::place(v, done.from@),
            crate::volume::place(v, done.to@),
        ) == v,
{
    reveal(could_move);
    let (a, b) = (crate::volume::place(v, x.from@), crate::volume::place(v, x.to@));
    assert(a.subrange(0, a.len() as int) =~= a);
    assert(!b.is_prefix_of(a));
    let w = crate::volume::renamed(v, a, b);
    lemma_home_is_found(w, x, done);
    assert(done.from@ == x.to@) by {
        reveal(moves_one);
    }
    crate::volume::lemma_taken_back(v, a, b);
}

/// Of files that were moved one after the other, the last `j` moved back.
proof fn lemma_undone(v: crate::volume::Volume, l: Seq<Moved>, done: Seq<Moved>, j: int)
    requires
        was_moved(v, l),
        moves_back(after_moves(v, l), l, done),
        0 <= j <= done.len(),
    ensures
        done.len() <= l.len(),
        after_moves(after_moves(v, l), done.take(j)) == after_moves(v, l.take(l.len() - j)),
        j > 0 ==> done[j - 1].from@ == l[l.len() - j].to@ && crate::volume::place(v, done[j - 1].to@)
            == crate::volume::place(v, l[l.len() - j].from@),
    decreases j,
{
    let w = after_moves(v, l);
    let n = l.len() as int;
    if j == 0 {
        assert(done.take(0) =~= Seq::empty());
        assert(l.take(n) =~= l);
    } else {
        let k = n - j;
        lemma_undone(v, l, done, j - 1);
        lemma_each_move(w, l, done, j - 1);
        assert(could_move(after_moves(v, l.take(k)), l[k]));
        assert(l.take(k + 1).drop_last() =~= l.take(k));
        assert(l.take(k + 1).last() == l[k]);
        lemma_style_stays(v, l);
        lemma_style_stays(v, l.take(k));
        lemma_one_undone(after_moves(v, l.take(k)), l[k], done[j - 1]);
        assert(done.take(j).drop_last() =~= done.take(j - 1));
        assert(done.take(j).last() == done[j - 1]);
    }
}

proof fn lemma_all_undone(v: crate::volume::Volume, l: Seq<Moved>, done: Seq<Moved>)
    requires
        was_moved(v, l),
        moves_back(after_moves(v, l), l, done),
    ensures
        done.len() <= l.len(),
        done.len() < l.len() ==> crate::paths::parent_spec(v.style, l[l.len() - 1 - done.len()].from@) is Some,
        done.len() == l.len() ==> after_moves(after_moves(v, l), done) == v,
        done.len() == l.len() ==> forall|i: int|
            0 <= i < l.len() ==> (#[trigger] done.reverse()[i]).from@ == l[i].to@ && crate::volume::place(
                v,
                done.reverse()[i].to@,
            ) == crate::volume::place(v, l[i].from@),
{
    let n = l.len() as int;
    let m = done.len() as int;
    lemma_undone(v, l, done, m);
    assert(done.take(m) =~= done);
    if m < n {
        let k = n - 1 - m;
        assert(could_move(after_moves(v, l.take(k)), l[k]));
        lemma_style_stays(v, l.take(k));
        reveal(could_move);
        reveal(is_at_home);
    } else {
        assert(l.take(0) =~= Seq::empty());
        assert forall|i: int| 0 <= i < n implies (#[trigger] done.reverse()[i]).from@ == l[i].to@ && crate::volume::place(
            v,
            done.reverse()[i].to@,
        ) == crate::volume::place(v, l[i].from@) by {
            lemma_undone(v, l, done, n - i);
            assert(done.reverse()[i] == done[n - 1 - i]);
        }
    }
}

/// Undoing moves that were made by renames puts every file back where it was:
/// the reversal succeeds, leaves every file and folder as it was before the moves,
/// with its contents, and its inverse names for each file where it had been moved
/// to and where it is again.
pub proof fn law_moves_are_undone(
    before: crate::volume::Volume,
    us: Seq<Undo>,
    acts: Seq<FileAction>,
    evs: Seq<FileEvent>,
    vs: Seq<crate::volume::Volume>,
)
    requires
        us[0].op is MoveBack,
        was_moved(before, us[0].op->MoveBack_pairs@),
        runs(us, acts, evs, vs),
        vs[0] == after_moves(before, us[0].op->MoveBack_pairs@),
    ensures
        us.last().step is Ended && us.last().step->Ended_0 is Ok,
        vs.last() == before,
        achieved(us.last()).inverse matches Some(op) && (op matches UndoOp::MoveBack { pairs: p } && p@.len()
            == us[0].op->MoveBack_pairs@.len() && forall|i: int|
            0 <= i < p@.len() ==> (#[trigger] p@[i]).from@ == us[0].op->MoveBack_pairs@[i].to@ && crate::volume::place(
                before,
                p@[i].to@,
            ) == crate::volume::place(before, us[0].op->MoveBack_pairs@[i].from@)),
{
    let done = law_files_are_moved_back(us, acts, evs, vs);
    lemma_style_stays(before, us[0].op->MoveBack_pairs@);
    lemma_all_undone(before, us[0].op->MoveBack_pairs@, done);
}

/// The volume once every file of a list was copied, the first one first.
pub open spec fn after_copies(v: crate::volume::Volume, done: Seq<Moved>) -> crate::volume::Volume
    decreases done.len(),
{
    if done.len() == 0 {
        v
    } else {
        crate::volume::copied(
            after_copies(v, done.drop_last()),
            crate::volume::place(v, done.last().from@),
            crate::volume::place(v, done.last().to@),
        )
    }
}

/// Each file of the list could be copied in its turn to a place that was free,
/// the first one first.
pub open spec fn was_copied(v: crate::volume::Volume, done: Seq<Moved>) -> bool
    decreases done.len(),
{
    done.len() == 0 || (was_copied(v, done.drop_last()) && crate::volume::can_rename(
        after_copies(v, done.drop_last()),
        crate::volume::place(v, done.last().from@),
        crate::volume::place(v, done.last().to@),
    ))
}

/// The volume once what is at the first `k` paths was taken out.
pub open spec fn after_removals(v: crate::volume::Volume, paths: Seq<String>, k: int) -> crate::volume::Volume
    decreases k,
{
    if k <= 0 {
        v
    } else {
        let before = after_removals(v, paths, k - 1);
        let at = crate::volume::place(v, paths[k - 1]@);
        if before.items.contains_key(at) {
            crate::volume::without(before, at)
        } else {
            before
        }
    }
}

/// A deletion inside a reversal goes on as `d` with that action, or has ended as
/// `d`.
spec fn deletion_turned(u: Undo, v: Undo, act: FileAction, d: Deletion, a: FileAction) -> bool {
    if a is Finished {
        trash_ends(u, v, act, d)
    } else {
        v == (Undo { step: UndoStep::Deleting(d), ..u }) && act == a
    }
}

/// One step of a deletion inside a reversal.
proof fn lemma_deletion_step(u: Undo, d: Deletion, ev: FileEvent, v: Undo, act: FileAction) -> (r: (Deletion, FileAction))
    requires
        u.step == UndoStep::Deleting(d),
        undo_step(u, ev, v, act),
    ensures
        transfer::delete_step(d, ev, r.0, r.1),
        deletion_turned(u, v, act, r.0, r.1),
{
    assert(deletion_step(u, d, ev, v, act));
    let (e, a) = choose|e: Deletion, a: FileAction|
        #[trigger] transfer::delete_step(d, ev, e, a) && (if a is Finished {
            trash_ends(u, v, act, e)
        } else {
            v == (Undo { step: UndoStep::Deleting(e), ..u }) && act == a
        });
    (e, a)
}

proof fn lemma_removals_keep_style(v: crate::volume::Volume, paths: Seq<String>, k: int)
    ensures
        after_removals(v, paths, k).style == v.style,
    decreases k,
{
    if k > 0 {
        lemma_removals_keep_style(v, paths, k - 1);
    }
}

/// Behind an action of a deletion a run goes on.
proof fn lemma_deletes_on(us: Seq<Undo>, acts: Seq<FileAction>, evs: Seq<FileEvent>, vs: Seq<crate::volume::Volume>, i: int)
    requires
        0 <= i < acts.len(),
        ran(us, acts, evs, vs, i),
    ensures
        undo_step(us[i], evs[i], us[i + 1], acts[i]),
        acts[i] is IsNetwork || acts[i] is Recycle || acts[i] is Remove ==> i < acts.len() - 1 && crate::volume::answers(
            vs[i],
            acts[i],
            evs[i + 1],
            vs[i + 1],
        ),
        acts[i] is Finished ==> i == acts.len() - 1,
{
    reveal(ran);
}

/// From where a deletion turned to its next path, in step `i`, to its end.
#[verifier::spinoff_prover]
proof fn lemma_removes_on(
    us: Seq<Undo>,
    acts: Seq<FileAction>,
    evs: Seq<FileEvent>,
    vs: Seq<crate::volume::Volume>,
    i: int,
    p: Deletion,
    d: Deletion,
    a: FileAction,
)
    requires
        forall|i: int| 0 <= i < acts.len() ==> #[trigger] ran(us, acts, evs, vs, i),
        us.len() == acts.len() + 1,
        vs.len() == acts.len(),
        0 <= i < acts.len(),
        transfer::deletes_next(p, d, a, d.at as int),
        deletion_turned(us[i], us[i + 1], acts[i], d, a),
        d.at <= d.paths@.len(),
        vs[i] == after_removals(vs[0], d.paths@, d.at as int),
    ensures
        vs.last() == after_removals(vs[0], d.paths@, d.paths@.len() as int),
    decreases acts.len() - i,
{
    assert(ran(us, acts, evs, vs, i));
    lemma_deletes_on(us, acts, evs, vs, i);
    if d.at < d.paths@.len() {
        let path = d.paths@[d.at as int];
        assert(acts[i] is IsNetwork);
        assert(ran(us, acts, evs, vs, i + 1));
        lemma_deletes_on(us, acts, evs, vs, i + 1);
        let (e, b) = lemma_deletion_step(us[i + 1], d, evs[i + 1], us[i + 2], acts[i + 1]);
        assert(acts[i + 1] is Remove || acts[i + 1] is Recycle);
        assert(ran(us, acts, evs, vs, i + 2));
        lemma_deletes_on(us, acts, evs, vs, i + 2);
        let (f, c) = lemma_deletion_step(us[i + 2], e, evs[i + 2], us[i + 3], acts[i + 2]);
        lemma_removals_keep_style(vs[0], d.paths@, d.at as int);
        let at = crate::volume::place(vs[0], path@);
        assert(vs[i + 1] == vs[i]);
        assert(vs[i + 2] == after_removals(vs[0], d.paths@, d.at + 1));
        lemma_removes_on(us, acts, evs, vs, i + 2, e, f, c);
    }
}

/// Sending files to the recycle bin, run to its end on a volume that nothing else
/// touches: what is at each of the paths is taken out with all that is in it, and
/// nothing else.
pub proof fn law_trash_takes_out_its_paths(
    us: Seq<Undo>,
    acts: Seq<FileAction>,
    evs: Seq<FileEvent>,
    vs: Seq<crate::volume::Volume>,
)
    requires
        runs(us, acts, evs, vs),
        us[0].op is Trash,
    ensures
        vs.last() == after_removals(vs[0], us[0].op->Trash_paths@, us[0].op->Trash_paths@.len() as int),
{
    let paths = us[0].op->Trash_paths@;
    assert(undo_step(us[0], evs[0], us[1], acts[0]));
    let d = choose|d: Deletion|
        d.style == us[0].style && d.paths@ == paths && d.at == 0 && d.recycled@.len() == 0 && d.errors@.len() == 0
            && d.step is Ready && #[trigger] deletion_step(us[0], d, evs[0], us[1], acts[0]);
    let (e, a) = choose|e: Deletion, a: FileAction|
        #[trigger] transfer::delete_step(d, evs[0], e, a) && (if a is Finished {
            trash_ends(us[0], us[1], acts[0], e)
        } else {
            us[1] == (Undo { step: UndoStep::Deleting(e), ..us[0] }) && acts[0] == a
        });
    lemma_ran(us, acts, evs, vs);
    lemma_removes_on(us, acts, evs, vs, 0, d, e, a);
}

/// What copies to free places add lies in these places, and everything else is as
/// it was.
proof fn lemma_copies_add(v: crate::volume::Volume, done: Seq<Moved>)
    requires
        crate::volume::is_sound(v),
        was_copied(v, done),
    ensures
        crate::volume::is_sound(after_copies(v, done)),
        after_copies(v, done).style == v.style,
        forall|k: Seq<crate::paths::Meaning>| #[trigger]
            v.items.contains_key(k) ==> after_copies(v, done).items.contains_key(k) && after_copies(v, done).items[k]
                == v.items[k],
        forall|k: Seq<crate::paths::Meaning>| #[trigger]
            after_copies(v, done).items.contains_key(k) ==> v.items.contains_key(k) || exists|i: int|
                0 <= i < done.len() && crate::volume::place(v, (#[trigger] done[i]).to@).is_prefix_of(k),
        forall|i: int|
            0 <= i < done.len() ==> crate::volume::place(v, (#[trigger] done[i]).to@).len() > 0 && crate::volume::is_free(
                v,
                crate::volume::place(v, done[i].to@),
            ),
    decreases done.len(),
{
    if done.len() > 0 {
        let before = done.drop_last();
        let w = after_copies(v, before);
        let (a, b) = (crate::volume::place(v, done.last().from@), crate::volume::place(v, done.last().to@));
        lemma_copies_add(v, before);
        crate::volume::lemma_copied(w, a, b);
        let c = after_copies(v, done);
        assert forall|k: Seq<crate::paths::Meaning>| #[trigger] c.items.contains_key(k) implies v.items.contains_key(k) || exists|
            i: int,
        |
            0 <= i < done.len() && crate::volume::place(v, (#[trigger] done[i]).to@).is_prefix_of(k) by {
            if b.is_prefix_of(k) {
                assert(done[done.len() - 1] == done.last());
            } else if !v.items.contains_key(k) {
                assert(w.items.contains_key(k));
                let i = choose|i: int|
                    0 <= i < before.len() && crate::volume::place(v, (#[trigger] before[i]).to@).is_prefix_of(k);
                assert(done[i] == before[i]);
            }
        }
        assert forall|i: int| 0 <= i < done.len() implies crate::volume::place(v, (#[trigger] done[i]).to@).len() > 0
            && crate::volume::is_free(v, crate::volume::place(v, done[i].to@)) by {
            if i < before.len() {
                assert(before[i] == done[i]);
            } else {
                assert(crate::volume::is_free(w, b));
            }
        }
    }
}

/// Taking out the places that copies were made to, one after the other.
proof fn lemma_copies_taken_out(v: crate::volume::Volume, done: Seq<Moved>, paths: Seq<String>, k: int)
    requires
        crate::volume::is_sound(v),
        was_copied(v, done),
        paths.len() == done.len(),
        forall|i: int| 0 <= i < done.len() ==> (#[trigger] paths[i])@ == done[i].to@,
        0 <= k <= paths.len(),
    ensures
        crate::volume::is_sound(after_removals(after_copies(v, done), paths, k)),
        forall|x: Seq<crate::paths::Meaning>| #[trigger]
            v.items.contains_key(x) ==> after_removals(after_copies(v, done), paths, k).items.contains_key(x)
                && after_removals(after_copies(v, done), paths, k).items[x] == v.items[x],
        forall|x: Seq<crate::paths::Meaning>, i: int|
            #![trigger after_removals(after_copies(v, done), paths, k).items.contains_key(x), done[i]]
            after_removals(after_copies(v, done), paths, k).items.contains_key(x) && 0 <= i < k
                ==> !crate::volume::place(v, done[i].to@).is_prefix_of(x),
        forall|x: Seq<crate::paths::Meaning>| #[trigger]
            after_removals(after_copies(v, done), paths, k).items.contains_key(x) ==> after_copies(
                v,
                done,
            ).items.contains_key(x),
    decreases k,
{
    let c = after_copies(v, done);
    lemma_copies_add(v, done);
    if k > 0 {
        lemma_copies_taken_out(v, done, paths, k - 1);
        let w = after_removals(c, paths, k - 1);
        let at = crate::volume::place(v, done[k - 1].to@);
        assert(crate::volume::place(c, paths[k - 1]@) == at);
        assert(crate::volume::is_free(v, at));
        let r = after_removals(c, paths, k);
        if w.items.contains_key(at) {
            crate::volume::lemma_without(w, at);
        }
        assert forall|x: Seq<crate::paths::Meaning>, i: int|
            #![trigger r.items.contains_key(x), done[i]]
            r.items.contains_key(x) && 0 <= i < k implies !crate::volume::place(v, done[i].to@).is_prefix_of(x) by {
            assert(w.items.contains_key(x));
            if i == k - 1 && !w.items.contains_key(at) && at.is_prefix_of(x) {
                crate::volume::lemma_absent_is_free(w, at, x);
            }
        }
    }
}

/// Undoing a copy leaves everything as it was before the copy: on a volume that
/// nothing else touches, files that were copied to free places, and then the run of
/// the reversal that sends these places to the recycle bin, leave every file and
/// folder that was there before with its contents, the sources among them, and
/// nothing at the places that were copied to.
pub proof fn law_copies_are_undone(
    before: crate::volume::Volume,
    done: Seq<Moved>,
    us: Seq<Undo>,
    acts: Seq<FileAction>,
    evs: Seq<FileEvent>,
    vs: Seq<crate::volume::Volume>,
)
    requires
        crate::volume::is_sound(before),
        was_copied(before, done),
        runs(us, acts, evs, vs),
        vs[0] == after_copies(before, done),
        us[0].op is Trash,
        us[0].op->Trash_paths@.len() == done.len(),
        forall|i: int| 0 <= i < done.len() ==> (#[trigger] us[0].op->Trash_paths@[i])@ == done[i].to@,
    ensures
        vs.last() == before,
        forall|i: int|
            0 <= i < done.len() ==> crate::volume::is_free(
                vs.last(),
                crate::volume::place(before, (#[trigger] done[i]).to@),
            ),
{
    let paths = us[0].op->Trash_paths@;
    let n = paths.len() as int;
    law_trash_takes_out_its_paths(us, acts, evs, vs);
    lemma_copies_add(before, done);
    lemma_copies_taken_out(before, done, paths, n);
    lemma_removals_keep_style(vs[0], paths, n);
    let w = vs.last();
    assert forall|x: Seq<crate::paths::Meaning>| #[trigger] w.items.contains_key(x) implies before.items.contains_key(x) by {
        assert(after_copies(before, done).items.contains_key(x));
        if !before.items.contains_key(x) {
            let i = choose|i: int|
                0 <= i < done.len() && crate::volume::place(before, (#[trigger] done[i]).to@).is_prefix_of(x);
            assert(!crate::volume::place(before, done[i].to@).is_prefix_of(x));
        }
    }
    assert(w.items =~= before.items);
}

/// The inverse of a move back names, for each file in its own place, where the
/// file had been and where it landed.
pub proof fn law_moves_can_be_repeated(u: Undo, b: MoveBack, v: Undo, act: FileAction, pairs: Seq<Moved>)
    requires
        transfer::back_ok(b),
        b.landed@.len() == b.pairs@.len(),
        back_finishes(u, v, act, b),
        achieved(v).inverse matches Some(op) && (op matches UndoOp::MoveBack { pairs: p } && p@ == pairs),
        v.step->Ended_0 is Ok,
    ensures
        pairs.len() == b.pairs@.len(),
        forall|i: int| 0 <= i < pairs.len() ==> (#[trigger] pairs[i]).from@ == b.pairs@[i].to@,
{
    let n = b.pairs@.len() as int;
    assert forall|i: int| 0 <= i < pairs.len() implies (#[trigger] pairs[i]).from@ == b.pairs@[i].to@ by {
        assert(pairs[i] == b.landed@[n - 1 - i]);
    }
}

fn reversed(v: &Vec<Moved>) -> (r: Vec<Moved>)
    ensures
        r@ == v@.reverse(),
{
    let mut out: Vec<Moved> = Vec::new();
    let n: usize = v.len();
    let mut i: usize = 0;
    while i < n
        invariant
            i <= n,
            n == v@.len(),
            out@ == v@.reverse().take(i as int),
        decreases n - i,
    {
        out.push(Moved { from: v[n - 1 - i].from.clone(), to: v[n - 1 - i].to.clone() });
        i += 1;
        assert(out@ =~= v@.reverse().take(i as int));
    }
    assert(out@ =~= v@.reverse());
    out
}

fn original_paths(items: &Vec<BinItem>, picked: &Vec<usize>) -> (r: Vec<String>)
    requires
        forall|i: int| 0 <= i < picked@.len() ==> (#[trigger] picked@[i]) < items@.len(),
    ensures
        r@ == origins(items@, picked@),
{
    let mut out: Vec<String> = Vec::new();
    let mut i: usize = 0;
    while i < picked.len()
        invariant
            i <= picked@.len(),
            forall|i: int| 0 <= i < picked@.len() ==> (#[trigger] picked@[i]) < items@.len(),
            out@ == origins(items@, picked@).take(i as int),
        decreases picked@.len() - i,
    {
        out.push(items[picked[i]].original_path.clone());
        i += 1;
        assert(out@ =~= origins(items@, picked@).take(i as int));
    }
    assert(out@ =~= origins(items@, picked@));
    out
}

/// Fifty operations can be undone: with fewer nothing is forgotten, and at fifty
/// the oldest alone is. What was undone before can no longer be redone.
pub proof fn law_fifty_operations_are_remembered(h: History, entry: UndoEntry, k: History)
    requires
        records_new(h, entry, k),
    ensures
        k.redo@.len() == 0,
        h.undo@.len() < 50 ==> k.undo@ == h.undo@ + seq![entry],
        h.undo@.len() == 50 ==> k.undo@ == h.undo@.skip(1) + seq![entry],
{
    assert(h.undo@.push(entry) =~= h.undo@ + seq![entry]);
    if h.undo@.len() == 50 {
        assert(h.undo@.push(entry).drop_first() =~= h.undo@.skip(1) + seq![entry]);
    }
}

/// What is run is the newest that there is: the last operation for an undo, the
/// last one undone for a redo. What undoes it comes to stand last on the other
/// side under the same name, and where nothing can undo it neither side grows.
pub proof fn law_newest_goes_to_the_other_side(
    h: History,
    redo: bool,
    k: History,
    entry: UndoEntry,
    inverse: Option<UndoOp>,
    m: History,
)
    requires
        takes_newest(h, redo, k, entry),
        records_inverse(k, inverse, entry.label, redo, m),
    ensures
        !redo ==> entry == h.undo@[h.undo@.len() - 1] && m.undo@ == h.undo@.take(h.undo@.len() - 1),
        redo ==> entry == h.redo@[h.redo@.len() - 1] && m.redo@ == h.redo@.take(h.redo@.len() - 1),
        !redo && inverse is None ==> m.redo@ == h.redo@,
        redo && inverse is None ==> m.undo@ == h.undo@,
        !redo && inverse is Some ==> m.redo@.len() == h.redo@.len() + 1 && m.redo@.last().op == inverse->0
            && m.redo@.last().label == entry.label,
        redo && inverse is Some ==> m.undo@.len() == h.undo@.len() + 1 && m.undo@.last().op == inverse->0
            && m.undo@.last().label == entry.label,
{
    if redo {
        assert(h.redo@.drop_last() =~= h.redo@.take(h.redo@.len() - 1));
    } else {
        assert(h.undo@.drop_last() =~= h.undo@.take(h.undo@.len() - 1));
    }
}

/// What was deleted in a reversal and reached the recycle bin can be restored from
/// it: all of it, and nothing else. Where a path could not be deleted the reversal
/// fails.
pub proof fn law_trashed_files_can_be_restored(u: Undo, v: Undo, act: FileAction, d: Deletion)
    requires
        trash_ends(u, v, act, d),
    ensures
        act is Finished && v.step is Ended,
        v.step->Ended_0 is Ok <==> d.errors@.len() == 0,
        d.errors@.len() == 0 && d.recycled@.len() > 0 ==> (v.step->Ended_0->Ok_0.inverse matches Some(op) && (
        op matches UndoOp::Restore { paths } && paths == d.recycled)),
        d.errors@.len() == 0 && d.recycled@.len() == 0 ==> v.step->Ended_0->Ok_0.inverse is None,
{
}

/// What was restored from the recycle bin can be deleted again, and the last of it
/// is picked; what could not be restored is told.
pub proof fn law_restored_files_can_be_deleted_again(
    u: Undo,
    v: Undo,
    act: FileAction,
    paths: Vec<String>,
    r: Result<(), crate::transfer::Failure>,
)
    requires
        u.step == (UndoStep::Restoring { paths }),
        undo_step(u, FileEvent::Did(r), v, act),
    ensures
        act is Finished && v.step is Ended,
        v.step->Ended_0 is Ok <==> r is Ok,
        r is Ok && paths@.len() > 0 ==> {
            &&& v.step->Ended_0->Ok_0.select == Some(paths@.last())
            &&& v.step->Ended_0->Ok_0.inverse matches Some(op) && (op matches UndoOp::Trash { paths: p } && p == paths)
        },
{
}

/// Everything that is to be restored has to be in the recycle bin, or nothing is.
/// Of the items that came from a path, whatever its case, one that was deleted last
/// is restored.
pub proof fn law_everything_is_restored_or_nothing(u: Undo, items: Vec<BinItem>, v: Undo, act: FileAction)
    requires
        u.step is Listing,
        u.op is Restore,
        undo_step(u, FileEvent::Bin(Ok(items)), v, act),
    ensures
        act is Restore || act is Finished,
        act is Finished ==> v.step is Ended && v.step->Ended_0 is Err && exists|i: int|
            0 <= i < u.op->Restore_paths@.len() && forall|k: int|
                0 <= k < items@.len() ==> text::lower_text((#[trigger] items@[k]).original_path@) != text::lower_text(
                    (#[trigger] u.op->Restore_paths@[i])@,
                ),
        act is Restore ==> {
            let picked = act->Restore_items@;
            &&& picked.len() == u.op->Restore_paths@.len()
            &&& forall|i: int|
                0 <= i < picked.len() ==> {
                    &&& (#[trigger] picked[i]) < items@.len()
                    &&& text::lower_text(items@[picked[i] as int].original_path@) == text::lower_text(
                        u.op->Restore_paths@[i]@,
                    )
                    &&& forall|k: int|
                        0 <= k < items@.len() && text::lower_text((#[trigger] items@[k]).original_path@)
                            == text::lower_text(u.op->Restore_paths@[i]@) ==> items@[k].time_deleted
                            <= items@[picked[i] as int].time_deleted
                }
        },
{
    let wanted = u.op->Restore_paths@;
    let n = items@.len() as int;
    assert(listing_step(u, items, v, act));
    if forall|i: int| 0 <= i < wanted.len() ==> #[trigger] transfer::latest_from(items@, wanted[i]@, n) is Some {
        let picked = act->Restore_items@;
        assert forall|i: int| 0 <= i < picked.len() implies {
            &&& (#[trigger] picked[i]) < items@.len()
            &&& text::lower_text(items@[picked[i] as int].original_path@) == text::lower_text(wanted[i]@)
            &&& forall|k: int|
                0 <= k < items@.len() && text::lower_text((#[trigger] items@[k]).original_path@) == text::lower_text(
                    wanted[i]@,
                ) ==> items@[k].time_deleted <= items@[picked[i] as int].time_deleted
        } by {
            assert(transfer::latest_from(items@, wanted[i]@, n) == Some(picked[i] as int));
            transfer::lemma_latest_in_range(items@, wanted[i]@, n);
            assert forall|k: int|
                0 <= k < items@.len() && text::lower_text((#[trigger] items@[k]).original_path@) == text::lower_text(
                    wanted[i]@,
                ) implies items@[k].time_deleted <= items@[picked[i] as int].time_deleted by {
                assert(transfer::came_from(items@[k], wanted[i]@));
            }
        }
    } else {
        let i = choose|i: int|
            0 <= i < wanted.len() && #[trigger] transfer::latest_from(items@, wanted[i]@, n) is None;
        transfer::lemma_latest_in_range(items@, wanted[i]@, n);
        assert forall|k: int| 0 <= k < items@.len() implies text::lower_text((#[trigger] items@[k]).original_path@)
            != text::lower_text((#[trigger] wanted[i])@) by {
            assert(!transfer::came_from(items@[k], wanted[i]@));
        }
        assert(wanted[i] == wanted[i]);
    }
}

/// A rename that changes nothing but the case of the name is taken back at once,
/// since the name that it goes back to would be found taken by the file itself;
/// before any other the place is asked about.
pub proof fn law_only_case_renames_are_not_asked(u: Undo, v: Undo, act: FileAction, from: String, to: String)
    requires
        u.step is Ready,
        u.op == (UndoOp::Rename { from, to }),
        undo_step(u, FileEvent::Begin, v, act),
        crate::paths::file_name_spec(u.style, from@) is Some && crate::paths::file_name_spec(u.style, to@) is Some,
    ensures
        ({
            let a = text::lower_text(crate::paths::file_name_spec(u.style, from@)->0);
            let b = text::lower_text(crate::paths::file_name_spec(u.style, to@)->0);
            &&& a == b ==> (act matches FileAction::Rename { from: f, to: t } && f == from && t == to)
            &&& a != b ==> (act matches FileAction::IsTaken { path } && path == to)
        }),
{
}

} // verus!
