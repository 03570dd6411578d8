//! Files and folders as a file operation finds and leaves them: a model to say
//! what operations do to them.
use vstd::prelude::*;

verus! {

/// What is at a path.
pub ghost enum Content {
    Folder,
    File(Seq<u8>),
}

/// Everything on a volume, by its path.
pub ghost struct Volume {
    pub style: crate::paths::PathStyle,
    pub items: Map<Seq<crate::paths::Meaning>, Content>,
}

/// Where a path's text leads.
pub open spec fn place(v: Volume, path: Seq<char>) -> Seq<crate::paths::Meaning> {
    crate::paths::components(v.style, path)
}

/// There is a folder for what is to be at a place; the first part of a path needs
/// none.
pub open spec fn has_folder(v: Volume, at: Seq<crate::paths::Meaning>) -> bool {
    at.len() > 1 ==> v.items.contains_pair(at.drop_last(), Content::Folder)
}

/// Everything is in a folder.
pub open spec fn is_sound(v: Volume) -> bool {
    forall|k: Seq<crate::paths::Meaning>| #[trigger] v.items.contains_key(k) ==> has_folder(v, k)
}

/// Nothing is at the place or in it.
pub open spec fn is_free(v: Volume, at: Seq<crate::paths::Meaning>) -> bool {
    forall|k: Seq<crate::paths::Meaning>| #[trigger] v.items.contains_key(k) ==> !at.is_prefix_of(k)
}

/// What is at `a` can be moved to `b`: nothing is there, it is not inside what is
/// moved, and there is a folder for it.
pub open spec fn can_rename(v: Volume, a: Seq<crate::paths::Meaning>, b: Seq<crate::paths::Meaning>) -> bool {
    v.items.contains_key(a) && is_free(v, b) && !a.is_prefix_of(b) && has_folder(v, b)
}

/// The place that `k`, at or in `b`, had at or in `a`.
pub open spec fn moved_from(a: Seq<crate::paths::Meaning>, b: Seq<crate::paths::Meaning>, k: Seq<crate::paths::Meaning>) -> Seq<crate::paths::Meaning> {
    a + k.skip(b.len() as int)
}

/// What was at `a` and in it is at `b` and in it.
pub open spec fn renamed(v: Volume, a: Seq<crate::paths::Meaning>, b: Seq<crate::paths::Meaning>) -> Volume {
    Volume {
        items: Map::new(
            |k: Seq<crate::paths::Meaning>|
                if b.is_prefix_of(k) {
                    v.items.contains_key(moved_from(a, b, k))
                } else {
                    v.items.contains_key(k) && !a.is_prefix_of(k)
                },
            |k: Seq<crate::paths::Meaning>|
                if b.is_prefix_of(k) {
                    v.items[moved_from(a, b, k)]
                } else {
                    v.items[k]
                },
        ),
        ..v
    }
}

/// What is at `a` and in it is at `b` and in it too.
pub open spec fn copied(v: Volume, a: Seq<crate::paths::Meaning>, b: Seq<crate::paths::Meaning>) -> Volume {
    Volume {
        items: Map::new(
            |k: Seq<crate::paths::Meaning>|
                if b.is_prefix_of(k) {
                    v.items.contains_key(moved_from(a, b, k))
                } else {
                    v.items.contains_key(k)
                },
            |k: Seq<crate::paths::Meaning>|
                if b.is_prefix_of(k) {
                    v.items[moved_from(a, b, k)]
                } else {
                    v.items[k]
                },
        ),
        ..v
    }
}

/// Without what is at the place and in it.
pub open spec fn without(v: Volume, at: Seq<crate::paths::Meaning>) -> Volume {
    Volume {
        items: Map::new(
            |k: Seq<crate::paths::Meaning>| v.items.contains_key(k) && !at.is_prefix_of(k),
            |k: Seq<crate::paths::Meaning>| v.items[k],
        ),
        ..v
    }
}

/// A folder can be made: nothing is there, and there is a folder for it.
pub open spec fn can_make(v: Volume, at: Seq<crate::paths::Meaning>) -> bool {
    is_free(v, at) && has_folder(v, at)
}

pub open spec fn made(v: Volume, at: Seq<crate::paths::Meaning>) -> Volume {
    Volume { items: v.items.insert(at, Content::Folder), ..v }
}

/// There is a folder, and nothing in it.
pub open spec fn can_remove(v: Volume, at: Seq<crate::paths::Meaning>) -> bool {
    &&& v.items.contains_pair(at, Content::Folder)
    &&& forall|k: Seq<crate::paths::Meaning>| #[trigger] v.items.contains_key(k) && at.is_prefix_of(k) ==> k == at
}

pub open spec fn removed(v: Volume, at: Seq<crate::paths::Meaning>) -> Volume {
    Volume { items: v.items.remove(at), ..v }
}

/// An action on the volume is done where it can be, and fails and leaves
/// everything as it is where it cannot.
pub open spec fn done_or_not(v: Volume, can: bool, after: Volume, ev: crate::transfer::FileEvent, w: Volume) -> bool {
    if can {
        ev == crate::transfer::FileEvent::Did(Ok(())) && w == after
    } else {
        (ev matches crate::transfer::FileEvent::Did(r) && r is Err) && w == v
    }
}

/// The first of the places tried for `name` in a folder that nothing is at.
pub open spec fn is_first_free(v: Volume, dir: Seq<char>, name: Seq<char>, target: Seq<char>) -> bool {
    exists|i: nat|
        i <= u64::MAX && target == #[trigger] crate::names::dest_candidate(v.style, dir, name, i) && !v.items.contains_key(
            place(v, target),
        ) && forall|j: nat|
            j < i ==> v.items.contains_key(place(v, #[trigger] crate::names::dest_candidate(v.style, dir, name, j)))
}

/// What comes of an action on a volume that nothing else touches: the event, and
/// the volume after it. For the actions on names and on single folders.
pub open spec fn answers(v: Volume, act: crate::transfer::FileAction, ev: crate::transfer::FileEvent, w: Volume) -> bool {
    match act {
        crate::transfer::FileAction::IsTaken { path } => ev == crate::transfer::FileEvent::Answer(v.items.contains_key(place(v, path@))) && w == v,
        crate::transfer::FileAction::FindDest { dir, name } => {
            &&& ev matches crate::transfer::FileEvent::Place(target) && is_first_free(v, dir@, name@, target@)
            &&& w == v
        },
        crate::transfer::FileAction::Rename { from, to } => {
            let (a, b) = (place(v, from@), place(v, to@));
            done_or_not(v, can_rename(v, a, b), renamed(v, a, b), ev, w)
        },
        crate::transfer::FileAction::IsNetwork { .. } => ev is Answer && w == v,
        crate::transfer::FileAction::Recycle { path } => {
            let at = place(v, path@);
            done_or_not(v, v.items.contains_key(at), without(v, at), ev, w)
        },
        crate::transfer::FileAction::Remove { path } => {
            let at = place(v, path@);
            done_or_not(v, v.items.contains_key(at), without(v, at), ev, w)
        },
        crate::transfer::FileAction::CreateDir { path } => {
            let at = place(v, path@);
            done_or_not(v, can_make(v, at), made(v, at), ev, w)
        },
        crate::transfer::FileAction::RemoveEmptyDir { path } => {
            let at = place(v, path@);
            done_or_not(v, can_remove(v, at), removed(v, at), ev, w)
        },
        _ => false,
    }
}

/// A rename can be taken back, and then everything is as it was.
pub proof fn law_rename_and_back(v: Volume, a: Seq<crate::paths::Meaning>, b: Seq<crate::paths::Meaning>)
    requires
        is_sound(v),
        can_rename(v, a, b),
    ensures
        can_rename(renamed(v, a, b), b, a),
        renamed(renamed(v, a, b), b, a) == v,
{
    let w = renamed(v, a, b);
    let back = renamed(w, b, a);
    assert(a.subrange(0, a.len() as int) =~= a);
    assert(b.subrange(0, b.len() as int) =~= b);
    assert(!b.is_prefix_of(a));
    assert(moved_from(a, b, b) =~= a);
    assert(w.items.contains_key(b));
    assert forall|k: Seq<crate::paths::Meaning>| a.is_prefix_of(k) implies !#[trigger] b.is_prefix_of(k) by {
        if b.is_prefix_of(k) {
            lemma_prefixes_of_one(a, b, k);
        }
    }
    assert(is_free(w, a));
    if a.len() > 1 {
        let folder = a.drop_last();
        assert(has_folder(v, a));
        assert(!a.is_prefix_of(folder));
        assert(!b.is_prefix_of(folder)) by {
            if b.is_prefix_of(folder) {
                assert(a.subrange(0, b.len() as int) =~= folder.subrange(0, b.len() as int));
                assert(b.is_prefix_of(a));
            }
        }
        assert(w.items.contains_pair(folder, Content::Folder));
    }
    assert forall|k: Seq<crate::paths::Meaning>| a.is_prefix_of(k) implies #[trigger] moved_from(b, a, k).len() >= b.len()
        && b.is_prefix_of(moved_from(b, a, k)) && moved_from(a, b, moved_from(b, a, k)) == k by {
        let m = moved_from(b, a, k);
        assert(m.subrange(0, b.len() as int) =~= b);
        assert(m.skip(b.len() as int) =~= k.skip(a.len() as int));
        assert(a + k.skip(a.len() as int) =~= k);
    }
    assert(back.items =~= v.items);
}

proof fn lemma_prefixes_of_one(a: Seq<crate::paths::Meaning>, b: Seq<crate::paths::Meaning>, k: Seq<crate::paths::Meaning>)
    requires
        a.is_prefix_of(k),
        b.is_prefix_of(k),
    ensures
        a.is_prefix_of(b) || b.is_prefix_of(a),
{
    assert forall|i: int| 0 <= i < a.len() implies a[i] == k[i] by {
        assert(k.subrange(0, a.len() as int)[i] == k[i]);
    }
    assert forall|i: int| 0 <= i < b.len() implies b[i] == k[i] by {
        assert(k.subrange(0, b.len() as int)[i] == k[i]);
    }
    if a.len() <= b.len() {
        assert(b.subrange(0, a.len() as int) =~= a);
    } else {
        assert(a.subrange(0, b.len() as int) =~= b);
    }
}

/// Neither place is the other or in it.
pub open spec fn apart(a: Seq<crate::paths::Meaning>, b: Seq<crate::paths::Meaning>) -> bool {
    !a.is_prefix_of(b) && !b.is_prefix_of(a)
}

/// What is in one of two places that are apart is not in the other.
pub proof fn lemma_apart(a: Seq<crate::paths::Meaning>, b: Seq<crate::paths::Meaning>)
    requires
        apart(a, b),
    ensures
        forall|k: Seq<crate::paths::Meaning>| #[trigger] a.is_prefix_of(k) ==> !b.is_prefix_of(k),
        forall|k: Seq<crate::paths::Meaning>| #[trigger] b.is_prefix_of(k) ==> !a.is_prefix_of(k),
{
    assert forall|k: Seq<crate::paths::Meaning>| #[trigger] a.is_prefix_of(k) implies !b.is_prefix_of(k) by {
        if b.is_prefix_of(k) {
            lemma_prefixes_of_one(a, b, k);
        }
    }
}

/// What had a place at or in `a` had it there.
pub proof fn lemma_moved_from(a: Seq<crate::paths::Meaning>, b: Seq<crate::paths::Meaning>)
    ensures
        forall|k: Seq<crate::paths::Meaning>|
            b.is_prefix_of(k) ==> a.is_prefix_of(#[trigger] moved_from(a, b, k)) && moved_from(b, a, moved_from(a, b, k))
                == k,
{
    assert forall|k: Seq<crate::paths::Meaning>| b.is_prefix_of(k) implies a.is_prefix_of(#[trigger] moved_from(a, b, k))
        && moved_from(b, a, moved_from(a, b, k)) == k by {
        let m = moved_from(a, b, k);
        assert(m.subrange(0, a.len() as int) =~= a);
        assert(m.skip(a.len() as int) =~= k.skip(b.len() as int));
        assert(b + k.skip(b.len() as int) =~= k);
    }
}

/// Moves between places that are apart can be made in either order.
pub proof fn law_moves_apart_commute(
    v: Volume,
    a: Seq<crate::paths::Meaning>,
    b: Seq<crate::paths::Meaning>,
    c: Seq<crate::paths::Meaning>,
    d: Seq<crate::paths::Meaning>,
)
    requires
        apart(a, c),
        apart(a, d),
        apart(b, c),
        apart(b, d),
    ensures
        renamed(renamed(v, a, b), c, d) == renamed(renamed(v, c, d), a, b),
{
    lemma_apart(a, c);
    lemma_apart(a, d);
    lemma_apart(b, c);
    lemma_apart(b, d);
    lemma_moved_from(a, b);
    lemma_moved_from(c, d);
    let x = renamed(renamed(v, a, b), c, d);
    let y = renamed(renamed(v, c, d), a, b);
    assert forall|k: Seq<crate::paths::Meaning>| x.items.contains_key(k) == y.items.contains_key(k) && (x.items.contains_key(
        k,
    ) ==> x.items[k] == y.items[k]) by {
        if d.is_prefix_of(k) {
            let m = moved_from(c, d, k);
            assert(c.is_prefix_of(m));
        } else if b.is_prefix_of(k) {
            let m = moved_from(a, b, k);
            assert(a.is_prefix_of(m));
        }
    }
    assert(x.items =~= y.items);
}

/// A move to a free place that is apart from where it is made from leaves
/// everything as it was once it is taken back.
pub proof fn lemma_taken_back(v: Volume, a: Seq<crate::paths::Meaning>, b: Seq<crate::paths::Meaning>)
    requires
        is_free(v, b),
        apart(a, b),
    ensures
        renamed(renamed(v, a, b), b, a) == v,
{
    lemma_apart(a, b);
    lemma_moved_from(a, b);
    lemma_moved_from(b, a);
    let back = renamed(renamed(v, a, b), b, a);
    assert forall|k: Seq<crate::paths::Meaning>| back.items.contains_key(k) == v.items.contains_key(k) && (v.items.contains_key(
        k,
    ) ==> back.items[k] == v.items[k]) by {
        if a.is_prefix_of(k) {
            let m = moved_from(b, a, k);
            assert(b.is_prefix_of(m));
            assert(moved_from(a, b, m) == k);
        }
    }
    assert(back.items =~= v.items);
}

/// A folder that was made can be removed, and one that was removed can be made
/// again; either way everything is as it was.
pub proof fn law_make_and_remove(v: Volume, at: Seq<crate::paths::Meaning>)
    requires
        is_sound(v),
    ensures
        can_make(v, at) ==> can_remove(made(v, at), at) && removed(made(v, at), at) == v,
        can_remove(v, at) ==> can_make(removed(v, at), at) && made(removed(v, at), at) == v,
{
    assert(at.subrange(0, at.len() as int) =~= at);
    if can_make(v, at) {
        assert(!v.items.contains_key(at));
        assert(removed(made(v, at), at).items =~= v.items);
    }
    if can_remove(v, at) {
        assert(has_folder(v, at));
        assert(made(removed(v, at), at).items =~= v.items);
    }
}

/// In a volume where everything is in a folder, nothing is in a place that nothing
/// is at.
pub proof fn lemma_absent_is_free(v: Volume, at: Seq<crate::paths::Meaning>, k: Seq<crate::paths::Meaning>)
    requires
        is_sound(v),
        at.len() > 0,
        !v.items.contains_key(at),
        at.is_prefix_of(k),
    ensures
        !v.items.contains_key(k),
    decreases k.len(),
{
    if v.items.contains_key(k) {
        assert(has_folder(v, k));
        if k.len() == at.len() {
            assert(k.subrange(0, at.len() as int) =~= k);
        } else {
            let up = k.drop_last();
            assert(up.subrange(0, at.len() as int) =~= k.subrange(0, at.len() as int));
            lemma_absent_is_free(v, at, up);
        }
    }
}

/// A copy to a free place leaves everything that was there as it was, and
/// everything in a folder.
pub proof fn lemma_copied(v: Volume, a: Seq<crate::paths::Meaning>, b: Seq<crate::paths::Meaning>)
    requires
        is_sound(v),
        can_rename(v, a, b),
    ensures
        is_sound(copied(v, a, b)),
        b.len() > 0,
        forall|k: Seq<crate::paths::Meaning>| #[trigger]
            v.items.contains_key(k) ==> copied(v, a, b).items.contains_key(k) && copied(v, a, b).items[k] == v.items[k],
        forall|k: Seq<crate::paths::Meaning>| #[trigger]
            copied(v, a, b).items.contains_key(k) ==> v.items.contains_key(k) || b.is_prefix_of(k),
{
    let w = copied(v, a, b);
    assert(b.len() > 0) by {
        if b.len() == 0 {
            assert(a.subrange(0, 0) =~= b);
        }
    }
    assert(a.len() > 0) by {
        if a.len() == 0 {
            assert(b.subrange(0, 0) =~= a);
        }
    }
    assert forall|k: Seq<crate::paths::Meaning>| #[trigger] w.items.contains_key(k) implies has_folder(w, k) by {
        if k.len() > 1 {
            let up = k.drop_last();
            if b.is_prefix_of(k) && k.len() > b.len() {
                let m = moved_from(a, b, k);
                assert(has_folder(v, m));
                assert(moved_from(a, b, up) =~= m.drop_last());
                assert(up.subrange(0, b.len() as int) =~= k.subrange(0, b.len() as int));
            } else if b.is_prefix_of(k) {
                assert(k =~= b);
                assert(has_folder(v, b));
                assert(!b.is_prefix_of(up));
            } else {
                assert(has_folder(v, k));
                assert(!b.is_prefix_of(up)) by {
                    if b.is_prefix_of(up) {
                        assert(k.subrange(0, b.len() as int) =~= up.subrange(0, b.len() as int));
                    }
                }
            }
        }
    }
}

/// Taking something out with all that is in it leaves everything else in a folder.
pub proof fn lemma_without(v: Volume, at: Seq<crate::paths::Meaning>)
    requires
        is_sound(v),
    ensures
        is_sound(without(v, at)),
{
    let w = without(v, at);
    assert forall|k: Seq<crate::paths::Meaning>| #[trigger] w.items.contains_key(k) implies has_folder(w, k) by {
        assert(has_folder(v, k));
        if k.len() > 1 {
            let up = k.drop_last();
            if at.is_prefix_of(up) {
                assert(k.subrange(0, at.len() as int) =~= up.subrange(0, at.len() as int));
            }
        }
    }
}

} // verus!
