//! Copying a file or a tree of folders, one decision at a time.
//!
//! A machine here goes through the tree and says what comes next; whoever runs
//! it looks at the disk and reports. Links and junctions are passed over, never
//! followed, and a tree that goes too deep is given up.
use vstd::prelude::*;
use crate::browse;
use crate::paths::{self, join, PathStyle};
use crate::transfer::{copy_kind, may_copy, CopyKind, CopyStop, Failure};

verus! {

/// What is left to copy.
pub enum CopyItem {
    /// A file or folder, so many folders below the top.
    Entry { src: String, dst: String, depth: u32 },
    /// An entry of a folder that could not be read.
    Unread(Failure),
}

/// What the system says of a file; links are not followed.
#[derive(Clone, Copy, Debug, PartialEq, Eq, Structural)]
pub struct FileFacts {
    pub is_link: bool,
    pub attributes: Option<u32>,
    pub is_dir: bool,
}

/// A step of a copy.
pub enum CopyAction {
    /// What is this? Answered with [`CopyEvent::Stat`].
    Stat { path: String },
    CreateDir { path: String },
    /// What is in this folder? Answered with [`CopyEvent::Listed`].
    List { path: String },
    /// Copies the contents of a file to one that is not there yet.
    CopyFile { from: String, to: String },
    /// Nothing is left to do.
    Finished,
}

/// How the last step went.
pub enum CopyEvent {
    /// Nothing was done yet.
    Begin,
    Stat(Result<FileFacts, Failure>),
    Did(Result<(), Failure>),
    /// The names in a folder; an entry that could not be read stands in its
    /// place.
    Listed(Result<Vec<Result<String, Failure>>, Failure>),
}

/// Where a copy stands with the item that comes next.
pub enum CopyStep {
    Ready,
    /// Asked what it is.
    Looking,
    /// Making a folder for it.
    Making,
    /// The folder is made; asked what is in it.
    Listing,
    /// Copying a file.
    Copying,
    Ended(Result<(), Failure>),
}

/// A copy of a file or a tree.
pub struct TreeCopy {
    pub style: PathStyle,
    /// What is left, the next item last.
    pub todo: Vec<CopyItem>,
    pub step: CopyStep,
}

/// The item is this file.
pub open spec fn is_entry(item: CopyItem, src: Seq<char>, dst: Seq<char>, depth: int) -> bool {
    item matches CopyItem::Entry { src: s, dst: d, depth: n } && s@ == src && d@ == dst && n == depth
}

/// The item stands for one entry of a folder.
pub open spec fn stands_for(
    style: PathStyle,
    item: CopyItem,
    named: Result<String, Failure>,
    src: Seq<char>,
    dst: Seq<char>,
    depth: int,
) -> bool {
    match named {
        Ok(name) => is_entry(item, paths::join_spec(style, src, name@), paths::join_spec(style, dst, name@), depth),
        Err(f) => item == CopyItem::Unread(f),
    }
}

/// What is left once a folder is listed: its entries come next, in the order of
/// the listing, and then what was left before.
pub open spec fn unfolded(
    style: PathStyle,
    rest: Seq<CopyItem>,
    names: Seq<Result<String, Failure>>,
    src: Seq<char>,
    dst: Seq<char>,
    depth: int,
    left: Seq<CopyItem>,
) -> bool {
    &&& left.len() == rest.len() + names.len()
    &&& left.take(rest.len() as int) == rest
    &&& forall|i: int|
        0 <= i < names.len() ==> stands_for(style, left[left.len() - 1 - i], #[trigger] names[i], src, dst, depth)
}

/// The copy ended so.
pub open spec fn stopped(q: TreeCopy, act: CopyAction, message: Seq<char>) -> bool {
    act is Finished && (q.step matches CopyStep::Ended(Err(f)) && f.message@ == message && !f.already_exists)
}

/// The copy turns to the next item: it looks at it, unless it was cancelled or
/// the item is more than 512 folders down.
pub open spec fn turns(style: PathStyle, todo: Seq<CopyItem>, cancelled: bool, q: TreeCopy, act: CopyAction) -> bool {
    &&& q.style == style
    &&& if todo.len() == 0 {
        q.todo@ == todo && q.step == CopyStep::Ended(Ok(())) && act is Finished
    } else {
        match todo.last() {
            CopyItem::Unread(f) => q.todo@ == todo.drop_last() && q.step == CopyStep::Ended(Err(f)) && act is Finished,
            CopyItem::Entry { src, depth, .. } => {
                &&& q.todo@ == todo
                &&& if cancelled {
                    stopped(q, act, "cancelled"@)
                } else if depth > 512 {
                    stopped(q, act, "directory tree too deep to copy"@)
                } else {
                    q.step is Looking && (act matches CopyAction::Stat { path } && path@ == src@)
                }
            },
        }
    }
}

/// The copy failed.
pub open spec fn fails(p: TreeCopy, q: TreeCopy, act: CopyAction, f: Failure) -> bool {
    q.style == p.style && q.todo@ == p.todo@ && q.step == CopyStep::Ended(Err(f)) && act is Finished
}

/// The event is one that the step waits for.
pub open spec fn copy_awaits(step: CopyStep, ev: CopyEvent) -> bool {
    match step {
        CopyStep::Ready => ev is Begin,
        CopyStep::Looking => ev is Stat,
        CopyStep::Making => ev is Did,
        CopyStep::Listing => ev is Listed,
        CopyStep::Copying => ev is Did,
        CopyStep::Ended(_) => false,
    }
}

/// What the system says is a link or a junction.
pub open spec fn leads_elsewhere(facts: FileFacts) -> bool {
    facts.is_link || browse::is_reparse(facts.attributes)
}

/// While something is done about an item, it is the next one and not too deep.
pub open spec fn copy_ok(p: TreeCopy) -> bool {
    &&& p.step is Looking || p.step is Making || p.step is Listing || p.step is Copying ==> p.todo@.len() > 0
        && p.todo@.last() is Entry && p.todo@.last()->depth <= 512
    &&& forall|i: int|
        0 <= i < p.todo@.len() ==> ((#[trigger] p.todo@[i]) matches CopyItem::Entry { depth, .. } ==> depth <= 513)
}

/// What a copy does with the item that comes next, from how the last step went.
pub open spec fn copy_step(p: TreeCopy, ev: CopyEvent, cancelled: bool, q: TreeCopy, act: CopyAction) -> bool {
    let src = p.todo@.last()->src@;
    let dst = p.todo@.last()->dst@;
    let depth = p.todo@.last()->depth as int;
    let rest = p.todo@.drop_last();
    match (p.step, ev) {
        (CopyStep::Ready, CopyEvent::Begin) => turns(p.style, p.todo@, cancelled, q, act),
        (CopyStep::Looking, CopyEvent::Stat(Err(f))) => fails(p, q, act, f),
        (CopyStep::Looking, CopyEvent::Stat(Ok(facts))) => if leads_elsewhere(facts) {
            turns(p.style, rest, cancelled, q, act)
        } else {
            &&& q.style == p.style && q.todo@ == p.todo@
            &&& if facts.is_dir {
                q.step is Making && (act matches CopyAction::CreateDir { path } && path@ == dst)
            } else {
                q.step is Copying && (act matches CopyAction::CopyFile { from, to } && from@ == src && to@ == dst)
            }
        },
        (CopyStep::Making, CopyEvent::Did(Err(f))) => fails(p, q, act, f),
        (CopyStep::Making, CopyEvent::Did(Ok(_))) => {
            &&& q.style == p.style && q.todo@ == p.todo@
            &&& q.step is Listing && (act matches CopyAction::List { path } && path@ == src)
        },
        (CopyStep::Listing, CopyEvent::Listed(Err(f))) => fails(p, q, act, f),
        (CopyStep::Listing, CopyEvent::Listed(Ok(names))) => exists|left: Seq<CopyItem>|
            #[trigger] unfolded(p.style, rest, names@, src, dst, depth + 1, left) && turns(
                p.style,
                left,
                cancelled,
                q,
                act,
            ),
        (CopyStep::Copying, CopyEvent::Did(Err(f))) => fails(p, q, act, f),
        (CopyStep::Copying, CopyEvent::Did(Ok(_))) => turns(p.style, rest, cancelled, q, act),
        _ => false,
    }
}

fn stop(message: &str) -> (r: CopyStep)
    ensures
        r matches CopyStep::Ended(Err(f)) && f.message@ == message@ && !f.already_exists,
{
    CopyStep::Ended(Err(Failure { message: message.to_owned(), already_exists: false }))
}

impl TreeCopy {
    /// A copy of `src` to `dst`, where nothing is yet.
    pub fn new(style: PathStyle, src: &str, dst: &str) -> (r: TreeCopy)
        ensures
            r.style == style,
            r.todo@.len() == 1,
            is_entry(r.todo@[0], src@, dst@, 0),
            r.step is Ready,
            copy_ok(r),
    {
        let mut todo: Vec<CopyItem> = Vec::new();
        todo.push(CopyItem::Entry { src: src.to_owned(), dst: dst.to_owned(), depth: 0 });
        TreeCopy { style, todo, step: CopyStep::Ready }
    }

    fn turn(&mut self, cancelled: bool) -> (r: CopyAction)
        requires
            forall|i: int|
                0 <= i < old(self).todo@.len() ==> ((#[trigger] old(self).todo@[i]) matches CopyItem::Entry {
                    depth,
                    ..
                } ==> depth <= 513),
        ensures
            turns(old(self).style, old(self).todo@, cancelled, *final(self), r),
            copy_ok(*final(self)),
    {
        let n: usize = self.todo.len();
        if n == 0 {
            self.step = CopyStep::Ended(Ok(()));
            return CopyAction::Finished;
        }
        if matches!(self.todo[n - 1], CopyItem::Unread(_)) {
            if let Some(CopyItem::Unread(f)) = self.todo.pop() {
                self.step = CopyStep::Ended(Err(f));
            }
            return CopyAction::Finished;
        }
        match &self.todo[n - 1] {
            CopyItem::Entry { src, depth, .. } => match may_copy(cancelled, *depth) {
                Some(CopyStop::Cancelled) => {
                    self.step = stop("cancelled");
                    CopyAction::Finished
                },
                Some(CopyStop::TooDeep) => {
                    self.step = stop("directory tree too deep to copy");
                    CopyAction::Finished
                },
                None => {
                    let path = src.clone();
                    self.step = CopyStep::Looking;
                    CopyAction::Stat { path }
                },
            },
            CopyItem::Unread(_) => CopyAction::Finished,
        }
    }

    fn current(&self) -> (r: (String, String, u32))
        requires
            self.todo@.len() > 0,
            self.todo@.last() is Entry,
        ensures
            is_entry(self.todo@.last(), r.0@, r.1@, r.2 as int),
    {
        match &self.todo[self.todo.len() - 1] {
            CopyItem::Entry { src, dst, depth } => (src.clone(), dst.clone(), *depth),
            CopyItem::Unread(_) => (String::new(), String::new(), 0),
        }
    }

    fn unfold(&mut self, names: Vec<Result<String, Failure>>)
        requires
            copy_ok(*old(self)),
            old(self).step is Listing,
        ensures
            *final(self) == (TreeCopy { todo: final(self).todo, ..*old(self) }),
            unfolded(
                old(self).style,
                old(self).todo@.drop_last(),
                names@,
                old(self).todo@.last()->src@,
                old(self).todo@.last()->dst@,
                old(self).todo@.last()->depth + 1,
                final(self).todo@,
            ),
            forall|i: int|
                0 <= i < final(self).todo@.len() ==> ((#[trigger] final(self).todo@[i]) matches CopyItem::Entry {
                    depth,
                    ..
                } ==> depth <= 513),
    {
        let (src, dst, depth) = self.current();
        self.todo.pop();
        let ghost rest = self.todo@;
        let ghost all = names@;
        let mut names = names;
        while names.len() > 0
            invariant
                depth <= 512,
                *self == (TreeCopy { todo: self.todo, ..*old(self) }),
                self.style == old(self).style,
                names@.len() <= all.len(),
                names@ == all.take(names@.len() as int),
                self.todo@.len() == rest.len() + all.len() - names@.len(),
                self.todo@.take(rest.len() as int) == rest,
                forall|i: int|
                    names@.len() <= i < all.len() ==> stands_for(
                        self.style,
                        self.todo@[rest.len() + all.len() - 1 - i],
                        #[trigger] all[i],
                        src@,
                        dst@,
                        depth + 1,
                    ),
                forall|i: int|
                    0 <= i < self.todo@.len() ==> ((#[trigger] self.todo@[i]) matches CopyItem::Entry { depth: d, .. }
                        ==> d <= 513),
            decreases names@.len(),
        {
            let ghost before = self.todo@;
            let ghost k = names@.len() - 1;
            match names.pop() {
                Some(Ok(name)) => {
                    let s = join(self.style, src.as_str(), name.as_str());
                    let d = join(self.style, dst.as_str(), name.as_str());
                    self.todo.push(CopyItem::Entry { src: s, dst: d, depth: depth + 1 });
                },
                Some(Err(f)) => {
                    self.todo.push(CopyItem::Unread(f));
                },
                None => {},
            }
            assert(names@ =~= all.take(k));
            assert(self.todo@.drop_last() =~= before);
            assert(self.todo@.take(rest.len() as int) =~= before.take(rest.len() as int));
            assert forall|i: int| names@.len() <= i < all.len() implies stands_for(
                self.style,
                self.todo@[rest.len() + all.len() - 1 - i],
                #[trigger] all[i],
                src@,
                dst@,
                depth + 1,
            ) by {
                if i > k {
                    assert(self.todo@[rest.len() + all.len() - 1 - i] == before[rest.len() + all.len() - 1 - i]);
                }
            }
        }
    }

    /// Takes how the last step went, and whether the copy has been cancelled
    /// meanwhile, and says what comes next.
    pub fn next(&mut self, event: CopyEvent, cancelled: bool) -> (r: CopyAction)
        requires
            copy_ok(*old(self)),
            copy_awaits(old(self).step, event),
        ensures
            copy_step(*old(self), event, cancelled, *final(self), r),
            copy_ok(*final(self)),
            final(self).step is Ended <==> r is Finished,
    {
        let mut step = CopyStep::Ready;
        std::mem::swap(&mut step, &mut self.step);
        match (step, event) {
            (CopyStep::Looking, CopyEvent::Stat(Ok(facts))) => {
                let (src, dst, _depth) = self.current();
                match copy_kind(facts.is_link, facts.attributes, facts.is_dir) {
                    CopyKind::Skip => {
                        self.todo.pop();
                        assert(self.todo@ =~= old(self).todo@.drop_last());
                        self.turn(cancelled)
                    },
                    CopyKind::Dir => {
                        self.step = CopyStep::Making;
                        CopyAction::CreateDir { path: dst }
                    },
                    CopyKind::File => {
                        self.step = CopyStep::Copying;
                        CopyAction::CopyFile { from: src, to: dst }
                    },
                }
            },
            (CopyStep::Making, CopyEvent::Did(Ok(_))) => {
                let (src, _dst, _depth) = self.current();
                self.step = CopyStep::Listing;
                CopyAction::List { path: src }
            },
            (CopyStep::Listing, CopyEvent::Listed(Ok(names))) => {
                self.step = CopyStep::Listing;
                self.unfold(names);
                let ghost left = self.todo@;
                let act = self.turn(cancelled);
                assert(unfolded(
                    old(self).style,
                    old(self).todo@.drop_last(),
                    names@,
                    old(self).todo@.last()->src@,
                    old(self).todo@.last()->dst@,
                    old(self).todo@.last()->depth + 1,
                    left,
                ));
                act
            },
            (CopyStep::Copying, CopyEvent::Did(Ok(_))) => {
                self.todo.pop();
                assert(self.todo@ =~= old(self).todo@.drop_last());
                self.turn(cancelled)
            },
            (_, CopyEvent::Begin) => self.turn(cancelled),
            (_, CopyEvent::Stat(Err(f))) => {
                self.step = CopyStep::Ended(Err(f));
                CopyAction::Finished
            },
            (_, CopyEvent::Did(Err(f))) => {
                self.step = CopyStep::Ended(Err(f));
                CopyAction::Finished
            },
            (_, CopyEvent::Listed(Err(f))) => {
                self.step = CopyStep::Ended(Err(f));
                CopyAction::Finished
            },
            _ => CopyAction::Finished,
        }
    }

    /// How the copy ended; `None` while it goes on.
    pub fn outcome(self) -> (r: Option<Result<(), Failure>>)
        ensures
            r == (match self.step {
                CopyStep::Ended(e) => Some(e),
                _ => None,
            }),
    {
        match self.step {
            CopyStep::Ended(e) => Some(e),
            _ => None,
        }
    }
}

/// A link or junction is never followed: what is made or copied was looked at
/// and is neither.
pub proof fn law_links_are_not_followed(p: TreeCopy, ev: CopyEvent, cancelled: bool, q: TreeCopy, act: CopyAction)
    requires
        copy_ok(p),
        copy_step(p, ev, cancelled, q, act),
        act is CreateDir || act is CopyFile,
    ensures
        ev matches CopyEvent::Stat(Ok(facts)) && !leads_elsewhere(facts) && (act is CreateDir <==> facts.is_dir),
{
}

/// A copy stays inside its folders: what a listed folder puts on the list lies
/// below it, and its copy below the folder's copy.
pub proof fn law_copy_stays_inside(
    style: PathStyle,
    item: CopyItem,
    name: String,
    src: Seq<char>,
    dst: Seq<char>,
    depth: int,
)
    requires
        stands_for(style, item, Ok(name), src, dst, depth),
        paths::is_entry_name(name@),
        paths::is_settled(style, src),
        paths::is_settled(style, dst),
    ensures
        item is Entry,
        paths::under(style, item->src@, src),
        paths::under(style, item->dst@, dst),
        paths::is_settled(style, item->src@),
        paths::is_settled(style, item->dst@),
{
    paths::law_joined_name_lies_inside(style, src, name@);
    paths::law_joined_name_lies_inside(style, dst, name@);
}

/// Nothing new is looked at once the copy was cancelled, and a copy that is not
/// cancelled ends well only when nothing is left.
pub proof fn law_cancelled_copy_ends(p: TreeCopy, ev: CopyEvent, cancelled: bool, q: TreeCopy, act: CopyAction)
    requires
        copy_ok(p),
        copy_step(p, ev, cancelled, q, act),
    ensures
        cancelled ==> !(act is Stat),
        q.step == CopyStep::Ended(Ok(())) ==> q.todo@.len() == 0,
{
}

/// What a copy makes of what the system says: a link, or an entry whose attribute
/// word has bit 10 set, is passed over; everything else is made, where it is a
/// folder, or copied, from where it is to where it shall be.
pub proof fn law_everything_else_is_copied(p: TreeCopy, facts: FileFacts, cancelled: bool, q: TreeCopy, act: CopyAction)
    requires
        copy_ok(p),
        p.step is Looking,
        copy_step(p, CopyEvent::Stat(Ok(facts)), cancelled, q, act),
    ensures
        !facts.is_link && (facts.attributes matches Some(a) ==> a & 0x400 == 0) ==> {
            if facts.is_dir {
                act matches CopyAction::CreateDir { path } && path@ == p.todo@.last()->dst@
            } else {
                act matches CopyAction::CopyFile { from, to } && from@ == p.todo@.last()->src@ && to@
                    == p.todo@.last()->dst@
            }
        },
        facts.is_link || (facts.attributes matches Some(a) && a & 0x400 != 0) ==> !(act is CreateDir) && !(act is CopyFile)
            && q.todo@.len() < p.todo@.len(),
{
    if let Some(a) = facts.attributes {
        browse::law_attribute_bits(a);
    }
}

/// A copy run to its end: each step follows from the one before.
pub open spec fn copy_runs(ps: Seq<TreeCopy>, evs: Seq<CopyEvent>, cs: Seq<bool>, acts: Seq<CopyAction>) -> bool {
    let n = acts.len() as int;
    &&& n > 0 && ps.len() == n + 1 && evs.len() == n && cs.len() == n
    &&& ps[0].step is Ready
    &&& copy_ok(ps[0])
    &&& forall|i: int| 0 <= i < n ==> copy_step(ps[i], #[trigger] evs[i], cs[i], ps[i + 1], acts[i])
    &&& forall|i: int| 0 <= i <= n ==> copy_ok(#[trigger] ps[i])
}

/// Step `j` looks at what is at `src`, to copy it to `dst`.
pub open spec fn looks_at(ps: Seq<TreeCopy>, acts: Seq<CopyAction>, j: int, src: Seq<char>, dst: Seq<char>) -> bool {
    &&& 0 <= j < acts.len()
    &&& acts[j] matches CopyAction::Stat { path } && path@ == src
    &&& ps[j + 1].todo@.len() > 0
    &&& ps[j + 1].todo@.last() matches CopyItem::Entry { src: s, dst: d, .. } && s@ == src && d@ == dst
}

/// An item of the list is looked at in this step or a later one.
spec fn comes_up(ps: Seq<TreeCopy>, acts: Seq<CopyAction>, i: int, item: CopyItem) -> bool {
    item matches CopyItem::Entry { src, dst, .. } && exists|j: int| i <= j && #[trigger] looks_at(ps, acts, j, src@, dst@)
}

/// A list that a copy turned to, in step `i` of a run that ends well: its last item
/// is looked at in this step.
proof fn lemma_turn_looks(ps: Seq<TreeCopy>, evs: Seq<CopyEvent>, cs: Seq<bool>, acts: Seq<CopyAction>, i: int, todo: Seq<CopyItem>)
    requires
        copy_runs(ps, evs, cs, acts),
        ps.last().step == CopyStep::Ended(Ok(())),
        0 <= i < acts.len(),
        turns(ps[i].style, todo, cs[i], ps[i + 1], acts[i]),
    ensures
        ps[i + 1].todo@ == todo,
        todo.len() > 0 ==> comes_up(ps, acts, i, todo.last()) && i + 1 < acts.len() && looks_at(
            ps,
            acts,
            i,
            todo.last()->src@,
            todo.last()->dst@,
        ),
{
    lemma_goes_on(ps, evs, cs, acts, i + 1);
    if todo.len() > 0 {
        if let CopyItem::Entry { src, dst, .. } = todo.last() {
            assert(looks_at(ps, acts, i, src@, dst@));
        }
    }
}

/// In a run that ends well no state but the last has ended.
proof fn lemma_goes_on(ps: Seq<TreeCopy>, evs: Seq<CopyEvent>, cs: Seq<bool>, acts: Seq<CopyAction>, i: int)
    requires
        copy_runs(ps, evs, cs, acts),
        ps.last().step == CopyStep::Ended(Ok(())),
        0 <= i <= acts.len(),
    ensures
        ps[i].step is Ended ==> i == acts.len() && ps[i].step == CopyStep::Ended(Ok(())),
{
    if i < acts.len() {
        assert(copy_step(ps[i], evs[i], cs[i], ps[i + 1], acts[i]));
    }
}

/// What is on the list below the next item comes up.
proof fn lemma_comes_up(ps: Seq<TreeCopy>, evs: Seq<CopyEvent>, cs: Seq<bool>, acts: Seq<CopyAction>, i: int, h: int)
    requires
        copy_runs(ps, evs, cs, acts),
        ps.last().step == CopyStep::Ended(Ok(())),
        0 <= i <= acts.len(),
        !(ps[i].step is Ready),
        0 <= h < ps[i].todo@.len() - 1,
    ensures
        comes_up(ps, acts, i, ps[i].todo@[h]),
    decreases acts.len() - i,
{
    let n = acts.len() as int;
    let p = ps[i];
    let item = p.todo@[h];
    lemma_goes_on(ps, evs, cs, acts, i);
    if i == n {
        if n > 0 {
            assert(copy_step(ps[n - 1], evs[n - 1], cs[n - 1], ps[n], acts[n - 1]));
        }
        assert(false);
    }
    assert(copy_step(p, evs[i], cs[i], ps[i + 1], acts[i]));
    lemma_goes_on(ps, evs, cs, acts, i + 1);
    let rest = p.todo@.drop_last();
    if turns(p.style, rest, cs[i], ps[i + 1], acts[i]) && !(ps[i + 1].todo@ == p.todo@) {
        lemma_turn_looks(ps, evs, cs, acts, i, rest);
        assert(rest[h] == item);
        if h < rest.len() - 1 {
            lemma_comes_up(ps, evs, cs, acts, i + 1, h);
        }
    } else if p.step is Listing {
        let names = evs[i]->Listed_0->Ok_0;
        let left = choose|left: Seq<CopyItem>|
            #[trigger] unfolded(
                p.style,
                rest,
                names@,
                p.todo@.last()->src@,
                p.todo@.last()->dst@,
                p.todo@.last()->depth + 1,
                left,
            ) && turns(p.style, left, cs[i], ps[i + 1], acts[i]);
        lemma_turn_looks(ps, evs, cs, acts, i, left);
        assert(left.take(rest.len() as int)[h] == rest[h]);
        assert(left[h] == item);
        if h < left.len() - 1 {
            lemma_comes_up(ps, evs, cs, acts, i + 1, h);
        }
    } else {
        assert(ps[i + 1].todo@ == p.todo@);
        lemma_comes_up(ps, evs, cs, acts, i + 1, h);
    }
}

/// A copy that ends well leaves nothing out. It looks at what was to be copied;
/// whatever it looks at and is neither a link nor marked by bit 10 of its attribute
/// word it makes as a folder or copies as a file, and that succeeded; and of every
/// folder that it made it lists the original, and looks at every name in it, to
/// copy it under the same name into the folder that it made.
pub proof fn law_finished_copy_is_complete(
    ps: Seq<TreeCopy>,
    evs: Seq<CopyEvent>,
    cs: Seq<bool>,
    acts: Seq<CopyAction>,
    src: Seq<char>,
    dst: Seq<char>,
)
    requires
        copy_runs(ps, evs, cs, acts),
        ps[0].todo@.len() == 1,
        is_entry(ps[0].todo@[0], src, dst, 0),
        ps.last().step == CopyStep::Ended(Ok(())),
    ensures
        looks_at(ps, acts, 0, src, dst),
        forall|i: int| 0 <= i < acts.len() ==> (#[trigger] evs[i] matches CopyEvent::Stat(r) ==> r is Ok && (!r->Ok_0.is_link
            && (r->Ok_0.attributes matches Some(a) ==> a & 0x400 == 0) ==> {
            &&& i + 1 < acts.len() && (evs[i + 1] matches CopyEvent::Did(d) && d is Ok)
            &&& if r->Ok_0.is_dir {
                &&& acts[i] matches CopyAction::CreateDir { path } && path@ == ps[i].todo@.last()->dst@
                &&& i + 2 < acts.len()
                &&& acts[i + 1] matches CopyAction::List { path } && path@ == ps[i].todo@.last()->src@
                &&& evs[i + 2] is Listed
            } else {
                acts[i] matches CopyAction::CopyFile { from, to } && from@ == ps[i].todo@.last()->src@ && to@
                    == ps[i].todo@.last()->dst@
            }
        })),
        forall|i: int, k: int|
            #![trigger evs[i]->Listed_0->Ok_0@[k]]
            0 <= i < acts.len() && evs[i] is Listed ==> evs[i]->Listed_0 is Ok && (0 <= k < evs[i]->Listed_0->Ok_0@.len()
                ==> evs[i]->Listed_0->Ok_0@[k] is Ok && exists|j: int|
                i <= j && #[trigger] looks_at(
                    ps,
                    acts,
                    j,
                    paths::join_spec(ps[i].style, ps[i].todo@.last()->src@, evs[i]->Listed_0->Ok_0@[k]->Ok_0@),
                    paths::join_spec(ps[i].style, ps[i].todo@.last()->dst@, evs[i]->Listed_0->Ok_0@[k]->Ok_0@),
                )),
{
    let n = acts.len() as int;
    assert(copy_step(ps[0], evs[0], cs[0], ps[1], acts[0]));
    lemma_turn_looks(ps, evs, cs, acts, 0, ps[0].todo@);
    assert forall|i: int| 0 <= i < acts.len() implies (#[trigger] evs[i] matches CopyEvent::Stat(r) ==> r is Ok && (!r->Ok_0.is_link
        && (r->Ok_0.attributes matches Some(a) ==> a & 0x400 == 0) ==> {
        &&& i + 1 < acts.len() && (evs[i + 1] matches CopyEvent::Did(d) && d is Ok)
        &&& if r->Ok_0.is_dir {
            &&& acts[i] matches CopyAction::CreateDir { path } && path@ == ps[i].todo@.last()->dst@
            &&& i + 2 < acts.len()
            &&& acts[i + 1] matches CopyAction::List { path } && path@ == ps[i].todo@.last()->src@
            &&& evs[i + 2] is Listed
        } else {
            acts[i] matches CopyAction::CopyFile { from, to } && from@ == ps[i].todo@.last()->src@ && to@
                == ps[i].todo@.last()->dst@
        }
    })) by {
        lemma_stat_step(ps, evs, cs, acts, i);
    }
    assert forall|i: int, k: int|
        #![trigger evs[i]->Listed_0->Ok_0@[k]]
        0 <= i < acts.len() && evs[i] is Listed implies evs[i]->Listed_0 is Ok && (0 <= k < evs[i]->Listed_0->Ok_0@.len()
        ==> evs[i]->Listed_0->Ok_0@[k] is Ok && exists|j: int|
        i <= j && #[trigger] looks_at(
            ps,
            acts,
            j,
            paths::join_spec(ps[i].style, ps[i].todo@.last()->src@, evs[i]->Listed_0->Ok_0@[k]->Ok_0@),
            paths::join_spec(ps[i].style, ps[i].todo@.last()->dst@, evs[i]->Listed_0->Ok_0@[k]->Ok_0@),
        )) by {
        lemma_listed_step(ps, evs, cs, acts, i, k);
    }
}

proof fn lemma_stat_step(ps: Seq<TreeCopy>, evs: Seq<CopyEvent>, cs: Seq<bool>, acts: Seq<CopyAction>, i: int)
    requires
        copy_runs(ps, evs, cs, acts),
        ps.last().step == CopyStep::Ended(Ok(())),
        0 <= i < acts.len(),
    ensures
        evs[i] matches CopyEvent::Stat(r) ==> r is Ok && (!r->Ok_0.is_link && (r->Ok_0.attributes matches Some(a) ==> a
            & 0x400 == 0) ==> {
            &&& i + 1 < acts.len() && (evs[i + 1] matches CopyEvent::Did(d) && d is Ok)
            &&& if r->Ok_0.is_dir {
                &&& acts[i] matches CopyAction::CreateDir { path } && path@ == ps[i].todo@.last()->dst@
                &&& i + 2 < acts.len()
                &&& acts[i + 1] matches CopyAction::List { path } && path@ == ps[i].todo@.last()->src@
                &&& evs[i + 2] is Listed
            } else {
                acts[i] matches CopyAction::CopyFile { from, to } && from@ == ps[i].todo@.last()->src@ && to@
                    == ps[i].todo@.last()->dst@
            }
        }),
{
    assert(copy_step(ps[i], evs[i], cs[i], ps[i + 1], acts[i]));
    lemma_goes_on(ps, evs, cs, acts, i + 1);
    if let CopyEvent::Stat(r) = evs[i] {
        assert(ps[i].step is Looking);
        if r is Ok {
            let facts = r->Ok_0;
            assert(copy_ok(ps[i]));
            law_everything_else_is_copied(ps[i], facts, cs[i], ps[i + 1], acts[i]);
            if !facts.is_link && (facts.attributes matches Some(a) ==> a & 0x400 == 0) {
                assert(ps[i + 1].step is Making || ps[i + 1].step is Copying);
                assert(i + 1 < acts.len());
                assert(copy_step(ps[i + 1], evs[i + 1], cs[i + 1], ps[i + 2], acts[i + 1]));
                lemma_goes_on(ps, evs, cs, acts, i + 2);
                if facts.is_dir {
                    assert(i + 2 < acts.len());
                    assert(copy_step(ps[i + 2], evs[i + 2], cs[i + 2], ps[i + 3], acts[i + 2]));
                }
            }
        }
    }
}

proof fn lemma_listed_step(ps: Seq<TreeCopy>, evs: Seq<CopyEvent>, cs: Seq<bool>, acts: Seq<CopyAction>, i: int, k: int)
    requires
        copy_runs(ps, evs, cs, acts),
        ps.last().step == CopyStep::Ended(Ok(())),
        0 <= i < acts.len(),
        evs[i] is Listed,
    ensures
        evs[i]->Listed_0 is Ok,
        0 <= k < evs[i]->Listed_0->Ok_0@.len() ==> evs[i]->Listed_0->Ok_0@[k] is Ok && exists|j: int|
            i <= j && #[trigger] looks_at(
                ps,
                acts,
                j,
                paths::join_spec(ps[i].style, ps[i].todo@.last()->src@, evs[i]->Listed_0->Ok_0@[k]->Ok_0@),
                paths::join_spec(ps[i].style, ps[i].todo@.last()->dst@, evs[i]->Listed_0->Ok_0@[k]->Ok_0@),
            ),
{
    let p = ps[i];
    assert(copy_step(p, evs[i], cs[i], ps[i + 1], acts[i]));
    lemma_goes_on(ps, evs, cs, acts, i + 1);
    assert(p.step is Listing);
    let names = evs[i]->Listed_0->Ok_0@;
    if 0 <= k < names.len() {
        let (s, d) = (p.todo@.last()->src@, p.todo@.last()->dst@);
        let rest = p.todo@.drop_last();
        let left = choose|left: Seq<CopyItem>|
            #[trigger] unfolded(p.style, rest, names, s, d, p.todo@.last()->depth + 1, left) && turns(
                p.style,
                left,
                cs[i],
                ps[i + 1],
                acts[i],
            );
        lemma_turn_looks(ps, evs, cs, acts, i, left);
        let h = left.len() - 1 - k;
        assert(stands_for(p.style, left[left.len() - 1 - k], names[k], s, d, p.todo@.last()->depth + 1));
        if k > 0 {
            lemma_comes_up(ps, evs, cs, acts, i + 1, h);
        }
        assert(comes_up(ps, acts, i, left[h]));
    }
}

/// A copy that was not cancelled goes down through 512 folders and no deeper, and
/// one that was cancelled goes no further; both say so.
pub proof fn law_depth_of_a_copy(style: PathStyle, todo: Seq<CopyItem>, cancelled: bool, q: TreeCopy, act: CopyAction)
    requires
        turns(style, todo, cancelled, q, act),
        todo.len() > 0,
        todo.last() is Entry,
    ensures
        act is Stat <==> !cancelled && todo.last()->depth <= 512,
        act is Stat || act is Finished,
        act is Stat ==> act->Stat_path@ == todo.last()->src@,
        act is Finished ==> q.step is Ended && q.step->Ended_0 is Err && q.step->Ended_0->Err_0.message@ == (if cancelled {
            "cancelled"@
        } else {
            "directory tree too deep to copy"@
        }),
{
}

} // verus!
