//! Folders by their paths: keys, crumbs, and what may be dropped where.
use vstd::prelude::*;
use std::collections::hash_map::DefaultHasher;
use std::hash::Hasher;
use crate::paths::{self, file_name, parent, same_path, starts_with, strip_prefix, PathStyle};
use crate::text::{self, cat3, chars_of, replace_char, same_text, split_pieces, text_of, to_lower_text, trimmed};

verus! {

/// Without the backslashes at its end, down to one character.
pub open spec fn drop_backslashes(s: Seq<char>) -> Seq<char>
    decreases s.len(),
{
    if s.len() > 1 && s.last() == '\\' {
        drop_backslashes(s.drop_last())
    } else {
        s
    }
}

/// A bare drive gets its root back.
pub open spec fn root_drive(s: Seq<char>) -> Seq<char> {
    if s.len() > 0 && s.last() == ':' {
        s.push('\\')
    } else {
        s
    }
}

/// A path's text with no white space around it, one kind of separator, and none
/// at the end.
pub open spec fn bare(root: Seq<char>) -> Seq<char> {
    drop_backslashes(text::replaced(text::trim(root), '/', '\\'))
}

/// The key that a folder's scan is kept under: its bare path in lower case, a
/// drive with its root.
pub open spec fn cache_key(root: Seq<char>) -> Seq<char> {
    root_drive(text::lower_text(bare(root)))
}

/// A scan root as the key it is cached under, so that `"Y:"`, `"Y:\"` and
/// `"y:\"` are one entry.
pub fn normalize_cache_key(root: &str) -> (r: String)
    ensures
        r@ == cache_key(root@),
{
    let t = trimmed(root);
    let slashed = replace_char(t.as_str(), '/', '\\');
    let v = chars_of(slashed.as_str());
    let mut n: usize = v.len();
    assert(v@.take(n as int) =~= v@);
    while n > 1 && v[n - 1] == '\\'
        invariant
            n <= v@.len(),
            drop_backslashes(v@) == drop_backslashes(v@.take(n as int)),
        decreases n,
    {
        assert(v@.take(n as int).drop_last() =~= v@.take(n - 1));
        n -= 1;
    }
    assert(v@.subrange(0, n as int) =~= v@.take(n as int));
    let mut key = to_lower_text(text_of(&v, 0, n).as_str());
    let low = chars_of(key.as_str());
    let m: usize = low.len();
    if m > 0 && low[m - 1] == ':' {
        key.push('\\');
    }
    key
}

/// Are two paths the same folder, the Windows way: whatever their case and the
/// separators at their ends?
pub fn same_folder(a: &str, b: &str) -> (r: bool)
    ensures
        r == (cache_key(a@) == cache_key(b@)),
{
    same_text(normalize_cache_key(a).as_str(), normalize_cache_key(b).as_str())
}

/// A path that starts with a drive has its letter in upper case.
pub open spec fn upper_drive(s: Seq<char>) -> Seq<char> {
    if s.len() >= 2 && 'a' <= s[0] && s[0] <= 'z' && s[1] == ':' {
        s.update(0, ((s[0] as int) - 32) as char)
    } else {
        s
    }
}

/// A drive-letter path with the letter in its canonical upper case.
pub fn canonical_drive_case(p: &str) -> (r: String)
    ensures
        r@ == upper_drive(p@),
{
    let v = chars_of(p);
    if v.len() >= 2 && 'a' <= v[0] && v[0] <= 'z' && v[1] == ':' {
        let mut out = String::new();
        out.push((v[0] as u8 - 32) as char);
        let rest = text_of(&v, 1, v.len());
        out.append(rest.as_str());
        assert(out@ =~= upper_drive(p@));
        out
    } else {
        p.to_owned()
    }
}

/// The last part of a path for messages, or the whole path where it has none.
pub open spec fn name_spec(style: PathStyle, p: Seq<char>) -> Seq<char> {
    match paths::file_name_spec(style, p) {
        Some(n) => n,
        None => p,
    }
}

/// The last part of a path for messages, or the whole path where it has none.
pub fn name_of(style: PathStyle, p: &str) -> (r: String)
    ensures
        r@ == name_spec(style, p@),
{
    match file_name(style, p) {
        Some(n) => n,
        None => p.to_owned(),
    }
}

/// The same place under `to`, for a path that is `from` or lies in it.
pub open spec fn reroot_spec(style: PathStyle, path: Seq<char>, from: Seq<char>, to: Seq<char>) -> Option<Seq<char>> {
    match paths::strip_prefix_spec(style, path, from) {
        Some(rest) => Some(
            if rest.len() == 0 {
                to
            } else {
                paths::join_spec(style, to, rest)
            },
        ),
        None => None,
    }
}

/// If `path` is `from` or inside it, the same path under `to`: how the folder
/// one is in is followed when it, or one above it, is renamed.
pub fn reroot(style: PathStyle, path: &str, from: &str, to: &str) -> (r: Option<String>)
    ensures
        text::opt_text(r) == reroot_spec(style, path@, from@, to@),
{
    match strip_prefix(style, path, from) {
        Some(rest) => {
            if rest.as_str().unicode_len() == 0 {
                Some(to.to_owned())
            } else {
                Some(paths::join(style, to, rest.as_str()))
            }
        },
        None => None,
    }
}

/// A folder that is renamed itself is followed to its new path, and one that
/// does not lie in the renamed folder is left alone.
pub proof fn law_reroot_follows(style: PathStyle, path: Seq<char>, from: Seq<char>, to: Seq<char>)
    ensures
        paths::same_path_spec(style, path, from) ==> reroot_spec(style, path, from, to) == Some(to),
        reroot_spec(style, path, from, to) is None <==> !paths::under(style, path, from),
{
    let c = paths::components(style, path);
    if c == paths::components(style, from) {
        assert(c =~= c.subrange(0, c.len() as int));
        assert(paths::components(style, from).len() == paths::parts(style, from).len());
        assert(c.len() == paths::parts(style, path).len());
    }
}

/// Rerooting there and back gives the path again: what is under `from` comes to
/// lie under `to` with the same parts behind it, and goes back to where it was.
/// Where something lies behind `from`, both have to be roots that a part can be
/// written behind, and it has to be read alike behind both.
pub proof fn law_reroot_and_back(style: PathStyle, path: Seq<char>, from: Seq<char>, to: Seq<char>)
    requires
        paths::under(style, path, from),
        paths::components(style, from).len() < paths::components(style, path).len() ==> paths::is_settled_root(style, from)
            && paths::is_settled_root(style, to) && paths::is_movable(style, path, from, to),
    ensures
        ({
            let there = reroot_spec(style, path, from, to);
            let back = reroot_spec(style, there->0, to, from);
            &&& there is Some
            &&& paths::under(style, there->0, to)
            &&& paths::components(style, there->0) == paths::components(style, to) + paths::components(style, path).skip(
                paths::components(style, from).len() as int,
            )
            &&& back is Some
            &&& paths::same_path_spec(style, back->0, path)
        }),
{
    let (a, b, c) = (paths::components(style, from), paths::components(style, to), paths::components(style, path));
    let there = reroot_spec(style, path, from, to)->0;
    let d = paths::components(style, there);
    assert(c =~= a + c.skip(a.len() as int));
    if a.len() == c.len() {
        assert(d =~= b + c.skip(a.len() as int));
        assert(b.subrange(0, b.len() as int) =~= b);
        assert(a =~= c);
    } else {
        paths::lemma_moved_parts(style, path, from, to);
        assert(d.subrange(0, b.len() as int) =~= b);
        assert(d.skip(b.len() as int) =~= c.skip(a.len() as int));
        assert forall|k: int| b.len() <= k < d.len() implies #[trigger] d[k] == c[k - b.len() + a.len()] by {
            assert(d.skip(b.len() as int)[k - b.len()] == d[k]);
        }
        paths::lemma_moved_parts(style, there, to, from);
        assert(a + c.skip(a.len() as int) =~= c);
    }
}

/// Whether the paths can be dropped into `dest`.
pub open spec fn can_drop_spec(style: PathStyle, dragged: Seq<Seq<char>>, dest: Seq<char>) -> bool {
    &&& forall|i: int| 0 <= i < dragged.len() ==> !paths::under(style, dest, #[trigger] dragged[i])
    &&& exists|i: int| 0 <= i < dragged.len() && !is_child_of(style, #[trigger] dragged[i], dest)
}

/// `dest` is the folder that `p` is in.
pub open spec fn is_child_of(style: PathStyle, p: Seq<char>, dest: Seq<char>) -> bool {
    paths::parent_spec(style, p) matches Some(d) && paths::same_path_spec(style, d, dest)
}

/// What an internal drag carries: the dragged paths.
pub struct DragFiles {
    pub paths: Vec<String>,
}

impl DragFiles {
    /// Can these be dropped into `dest`? Not onto one of themselves or inside
    /// one, and not back into the folder that all of them are in.
    pub fn can_drop_into(&self, style: PathStyle, dest: &str) -> (r: bool)
        ensures
            r == can_drop_spec(style, text::texts(self.paths@), dest@),
    {
        let ghost ps = text::texts(self.paths@);
        let mut elsewhere = false;
        let mut i: usize = 0;
        while i < self.paths.len()
            invariant
                ps == text::texts(self.paths@),
                i <= self.paths@.len(),
                forall|j: int| 0 <= j < i ==> !paths::under(style, dest@, #[trigger] ps[j]),
                elsewhere == exists|j: int| 0 <= j < i && !is_child_of(style, #[trigger] ps[j], dest@),
            decreases self.paths@.len() - i,
        {
            let p = self.paths[i].as_str();
            assert(ps[i as int] == p@);
            if starts_with(style, dest, p) {
                return false;
            }
            let inside = match parent(style, p) {
                Some(d) => same_path(style, d.as_str(), dest),
                None => false,
            };
            let ghost was = elsewhere;
            if !inside {
                elsewhere = true;
            }
            i += 1;
            proof {
                if !inside {
                    assert(!is_child_of(style, ps[i - 1], dest@));
                } else if was {
                    let j = choose|j: int| 0 <= j < i - 1 && !is_child_of(style, #[trigger] ps[j], dest@);
                    assert(!is_child_of(style, ps[j], dest@));
                }
            }
        }
        elsewhere
    }
}

/// Nothing is dropped onto itself or into something inside it, and a drag that
/// stays in its folder does nothing.
pub proof fn law_no_pointless_drop(style: PathStyle, dragged: Seq<Seq<char>>, dest: Seq<char>)
    ensures
        dragged.contains(dest) ==> !can_drop_spec(style, dragged, dest),
        (forall|i: int| 0 <= i < dragged.len() ==> is_child_of(style, #[trigger] dragged[i], dest))
            ==> !can_drop_spec(style, dragged, dest),
{
    let c = paths::components(style, dest);
    assert(c =~= c.subrange(0, c.len() as int));
    assert(paths::under(style, dest, dest));
}

/// A label and the path that it leads to.
pub ghost struct CrumbModel {
    pub label: Seq<char>,
    pub path: Seq<char>,
}

/// One clickable segment of a path.
pub struct Crumb {
    pub label: String,
    pub path: String,
}

impl View for Crumb {
    type V = CrumbModel;

    open spec fn view(&self) -> CrumbModel {
        CrumbModel { label: self.label@, path: self.path@ }
    }
}

/// Crumbs by what they hold.
pub open spec fn crumb_models(v: Seq<Crumb>) -> Seq<CrumbModel> {
    v.map_values(|c: Crumb| c@)
}

/// The path of the first `n` pieces; a bare drive leads to its root.
pub open spec fn drive_path(ps: Seq<Seq<char>>, n: int) -> Seq<char> {
    if n == 1 {
        root_drive(ps[0])
    } else {
        text::join(ps.take(n), seq!['\\'])
    }
}

/// The path of the first `n` pieces of a network path.
pub open spec fn unc_path(ps: Seq<Seq<char>>, n: int) -> Seq<char> {
    seq!['\\', '\\'] + text::join(ps.take(n), seq!['\\'])
}

/// The segments of a path, root first. A network path's root is its server and
/// share together; one without a share has no segments.
pub open spec fn crumbs(dir: Seq<char>) -> Seq<CrumbModel> {
    let s = text::replaced(dir, '/', '\\');
    let ps = text::pieces(s, '\\');
    if s.len() >= 2 && s[0] == '\\' && s[1] == '\\' {
        if ps.len() < 2 {
            Seq::empty()
        } else {
            Seq::new(
                (ps.len() - 1) as nat,
                |i: int|
                    CrumbModel {
                        label: if i == 0 {
                            unc_path(ps, 2)
                        } else {
                            ps[i + 1]
                        },
                        path: unc_path(ps, i + 2),
                    },
            )
        }
    } else {
        Seq::new(ps.len(), |i: int| CrumbModel { label: ps[i], path: drive_path(ps, i + 1) })
    }
}

proof fn lemma_join_one_more(ps: Seq<Seq<char>>, n: int, sep: Seq<char>)
    requires
        1 <= n < ps.len(),
    ensures
        text::join(ps.take(n + 1), sep) == text::join(ps.take(n), sep) + sep + ps[n],
{
    assert(ps.take(n + 1).drop_last() =~= ps.take(n));
}

/// A path as clickable segments, root first.
pub fn breadcrumb_segments(dir: &str) -> (r: Vec<Crumb>)
    ensures
        crumb_models(r@) == crumbs(dir@),
{
    let s = replace_char(dir, '/', '\\');
    let v = chars_of(s.as_str());
    let ps = split_pieces(s.as_str(), '\\');
    let ghost pm = text::texts(ps@);
    let mut out: Vec<Crumb> = Vec::new();
    let n: usize = ps.len();
    if v.len() >= 2 && v[0] == '\\' && v[1] == '\\' {
        if n < 2 {
            assert(crumb_models(out@) =~= crumbs(dir@));
            return out;
        }
        let mut acc = cat3("\\\\", ps[0].as_str(), "\\");
        acc.append(ps[1].as_str());
        proof {
            reveal_strlit("\\\\");
            reveal_strlit("\\");
            assert("\\\\"@ =~= seq!['\\', '\\']);
            assert("\\"@ =~= seq!['\\']);
            lemma_join_one_more(pm, 1, seq!['\\']);
            assert(text::join(pm.take(1), seq!['\\']) =~= pm[0]);
            assert(acc@ =~= unc_path(pm, 2));
        }
        let first = Crumb { label: acc.clone(), path: acc.clone() };
        out.push(first);
        let mut i: usize = 2;
        while i < n
            invariant
                pm == text::texts(ps@),
                n == ps@.len(),
                2 <= i <= n,
                acc@ == unc_path(pm, i as int),
                out@.len() == i - 1,
                out@[0]@ == (CrumbModel { label: unc_path(pm, 2), path: unc_path(pm, 2) }),
                forall|j: int|
                    1 <= j < i - 1 ==> (#[trigger] out@[j])@ == (CrumbModel {
                        label: pm[j + 1],
                        path: unc_path(pm, j + 2),
                    }),
            decreases n - i,
        {
            acc.push('\\');
            acc.append(ps[i].as_str());
            proof {
                lemma_join_one_more(pm, i as int, seq!['\\']);
                assert(acc@ =~= unc_path(pm, i + 1));
            }
            let c = Crumb { label: ps[i].clone(), path: acc.clone() };
            out.push(c);
            i += 1;
        }
        assert(crumb_models(out@) =~= crumbs(dir@));
        return out;
    }
    let mut acc = String::new();
    let mut i: usize = 0;
    while i < n
        invariant
            pm == text::texts(ps@),
            n == ps@.len(),
            i <= n,
            acc@ == text::join(pm.take(i as int), seq!['\\']),
            out@.len() == i,
            forall|j: int|
                0 <= j < i ==> (#[trigger] out@[j])@ == (CrumbModel { label: pm[j], path: drive_path(pm, j + 1) }),
        decreases n - i,
    {
        if i > 0 {
            acc.push('\\');
            proof {
                lemma_join_one_more(pm, i as int, seq!['\\']);
            }
        }
        acc.append(ps[i].as_str());
        assert(acc@ =~= text::join(pm.take(i + 1), seq!['\\']));
        let mut path = acc.clone();
        if i == 0 {
            assert(acc@ =~= pm[0]);
            let last = chars_of(ps[0].as_str());
            if last.len() > 0 && last[last.len() - 1] == ':' {
                path.push('\\');
            }
        }
        let c = Crumb { label: ps[i].clone(), path };
        out.push(c);
        i += 1;
    }
    assert(crumb_models(out@) =~= crumbs(dir@));
    out
}

proof fn lemma_join_holds(ps: Seq<Seq<char>>, c: char)
    requires
        c != '\\',
        forall|k: int| 0 <= k < ps.len() ==> !(#[trigger] ps[k]).contains(c),
    ensures
        !text::join(ps, seq!['\\']).contains(c),
    decreases ps.len(),
{
    let s = text::join(ps, seq!['\\']);
    if ps.len() > 1 {
        let before = ps.drop_last();
        assert forall|k: int| 0 <= k < before.len() implies !(#[trigger] before[k]).contains(c) by {
            assert(before[k] == ps[k]);
        }
        lemma_join_holds(before, c);
        let x = text::join(before, seq!['\\']);
        let last = ps[ps.len() - 1];
        assert forall|i: int| 0 <= i < s.len() implies s[i] != c by {
            if i < x.len() {
                assert(s[i] == x[i]);
                assert(x.contains(x[i]));
            } else if i > x.len() {
                assert(s[i] == last[i - x.len() - 1]);
                assert(last.contains(last[i - x.len() - 1]));
            }
        }
    } else if ps.len() == 1 {
        assert(!ps[0].contains(c));
    }
}

proof fn lemma_join_starts(ps: Seq<Seq<char>>)
    requires
        ps.len() > 0,
        ps[0].len() > 0,
    ensures
        text::join(ps, seq!['\\']).len() > 0,
        text::join(ps, seq!['\\'])[0] == ps[0][0],
    decreases ps.len(),
{
    if ps.len() > 1 {
        lemma_join_starts(ps.drop_last());
    }
}

proof fn lemma_nothing_to_replace(s: Seq<char>)
    requires
        !s.contains('/'),
    ensures
        text::replaced(s, '/', '\\') == s,
{
    assert forall|i: int| 0 <= i < s.len() implies s[i] != '/' by {
        assert(s.contains(s[i]));
    }
    assert(text::replaced(s, '/', '\\') =~= s);
}

/// What holds of the pieces of a path whose slashes were turned.
proof fn lemma_path_pieces(dir: Seq<char>, n: int)
    requires
        0 <= n <= text::pieces(text::replaced(dir, '/', '\\'), '\\').len(),
    ensures
        ({
            let ps = text::pieces(text::replaced(dir, '/', '\\'), '\\');
            let j = text::join(ps.take(n), seq!['\\']);
            &&& text::pieces(j, '\\') == ps.take(n)
            &&& !j.contains('/')
            &&& n > 0 ==> ps[0].len() > 0 && ps[0][0] != '\\' && j.len() > 0 && j[0] == ps[0][0]
            &&& n > 0 ==> text::pieces(ps[0], '\\') == seq![ps[0]] && !ps[0].contains('/')
        }),
{
    let s = text::replaced(dir, '/', '\\');
    let ps = text::pieces(s, '\\');
    let first = ps.take(n);
    assert(!s.contains('/'));
    text::lemma_pieces_sound(s, '\\', '/');
    assert forall|k: int| 0 <= k < first.len() implies text::is_piece(#[trigger] first[k], '\\') && !first[k].contains('/') by {
        assert(first[k] == ps[k]);
    }
    text::lemma_pieces_of_joined(first, '\\');
    lemma_join_holds(first, '/');
    if n > 0 {
        assert(first[0] == ps[0]);
        assert(ps[0].contains(ps[0][0]));
        lemma_join_starts(first);
        text::lemma_piece_alone(ps[0], '\\');
    }
}

/// The path of a crumb has the crumbs up to it as its own, and is the path of
/// the one before and its label with one separator between.
pub proof fn law_crumb_has_the_crumbs_up_to_it(dir: Seq<char>, i: int)
    requires
        0 <= i < crumbs(dir).len(),
    ensures
        crumbs(crumbs(dir)[i].path) == crumbs(dir).take(i + 1),
        i > 0 ==> crumbs(dir)[i].path == drop_backslashes(crumbs(dir)[i - 1].path).push('\\') + crumbs(dir)[i].label,
{
    let s = text::replaced(dir, '/', '\\');
    let ps = text::pieces(s, '\\');
    let all = crumbs(dir);
    let path = all[i].path;
    if s.len() >= 2 && s[0] == '\\' && s[1] == '\\' {
        let n = i + 2;
        let j = text::join(ps.take(n), seq!['\\']);
        lemma_path_pieces(dir, n);
        assert(path =~= seq!['\\', '\\'] + j);
        assert(!path.contains('/')) by {
            assert forall|k: int| 0 <= k < path.len() implies path[k] != '/' by {
                if k >= 2 {
                    assert(path[k] == j[k - 2]);
                    assert(j.contains(j[k - 2]));
                }
            }
        }
        lemma_nothing_to_replace(path);
        text::lemma_pieces_by_first(path, '\\');
        text::lemma_pieces_by_first(path.drop_first(), '\\');
        assert(path.drop_first().drop_first() =~= j);
        let qs = text::pieces(path, '\\');
        assert(qs == ps.take(n));
        assert forall|m: int| 0 <= m <= n implies unc_path(qs, m) == unc_path(ps, m) by {
            assert(qs.take(m) =~= ps.take(m));
        }
        assert(crumbs(path) =~= all.take(i + 1));
        if i > 0 {
            lemma_join_one_more(ps, n - 1, seq!['\\']);
            lemma_no_end(dir, n - 1);
            let before = all[i - 1].path;
            assert(before.last() == text::join(ps.take(n - 1), seq!['\\']).last());
            assert(drop_backslashes(before) == before);
            assert(path =~= before.push('\\') + all[i].label);
        }
    } else {
        let n = i + 1;
        let j = text::join(ps.take(n), seq!['\\']);
        lemma_path_pieces(dir, n);
        lemma_no_end(dir, n);
        assert(ps.take(1) =~= seq![ps[0]]);
        if n == 1 {
            assert(path == root_drive(ps[0]));
            if ps[0].last() == ':' {
                assert(path =~= ps[0].push('\\') + Seq::<char>::empty());
                text::lemma_pieces_parted(ps[0], '\\', Seq::empty());
                assert(text::pieces(Seq::<char>::empty(), '\\') =~= Seq::empty());
                assert(text::pieces(path, '\\') =~= seq![ps[0]]);
            }
            assert(!path.contains('/')) by {
                assert forall|k: int| 0 <= k < path.len() implies path[k] != '/' by {
                    if k < ps[0].len() {
                        assert(path[k] == ps[0][k]);
                        assert(ps[0].contains(ps[0][k]));
                    }
                }
            }
        }
        lemma_nothing_to_replace(path);
        let qs = text::pieces(path, '\\');
        assert(qs =~= ps.take(n));
        assert(path[0] == ps[0][0]);
        assert forall|m: int| 1 <= m <= n implies drive_path(qs, m) == drive_path(ps, m) by {
            assert(qs.take(m) =~= ps.take(m));
        }
        assert(crumbs(path) =~= all.take(i + 1));
        if i > 0 {
            lemma_join_one_more(ps, n - 1, seq!['\\']);
            lemma_no_end(dir, n - 1);
            let before = all[i - 1].path;
            let bare = text::join(ps.take(n - 1), seq!['\\']);
            if n - 1 == 1 {
                assert(bare =~= ps[0]);
                if ps[0].last() == ':' {
                    assert(before.drop_last() =~= bare);
                }
            }
            assert(drop_backslashes(bare) == bare);
            assert(drop_backslashes(before) == bare);
            assert(path =~= bare.push('\\') + all[i].label);
        }
    }
}

/// Glued pieces end in no separator.
proof fn lemma_no_end(dir: Seq<char>, n: int)
    requires
        0 < n <= text::pieces(text::replaced(dir, '/', '\\'), '\\').len(),
    ensures
        text::join(text::pieces(text::replaced(dir, '/', '\\'), '\\').take(n), seq!['\\']).len() > 0,
        text::join(text::pieces(text::replaced(dir, '/', '\\'), '\\').take(n), seq!['\\']).last() != '\\',
        text::pieces(text::replaced(dir, '/', '\\'), '\\')[0].last() != '\\',
{
    let s = text::replaced(dir, '/', '\\');
    let ps = text::pieces(s, '\\');
    text::lemma_pieces_sound(s, '\\', '/');
    let p = ps[n - 1];
    assert(text::is_piece(p, '\\'));
    assert(p.contains(p.last()));
    assert(text::is_piece(ps[0], '\\'));
    assert(ps[0].contains(ps[0].last()));
    assert(ps.take(n).last() == p);
    if n > 1 {
        lemma_join_one_more(ps, n - 1, seq!['\\']);
    }
}

/// The last crumb leads to the folder itself: its path is the folder's with
/// every slash a backslash and without separators that are repeated or stand at
/// the end; a bare drive keeps its root. A path with a leading separator is a
/// share's here, and keeps two.
pub proof fn law_last_crumb_is_the_folder(dir: Seq<char>)
    requires
        crumbs(dir).len() > 0,
        dir[0] == '/' || dir[0] == '\\' ==> dir.len() >= 2 && (dir[1] == '/' || dir[1] == '\\'),
    ensures
        ({
            let s = text::replaced(dir, '/', '\\');
            let last = crumbs(dir).last().path;
            if s[0] == '\\' {
                last == seq!['\\'] + text::squeezed(s, '\\')
            } else if crumbs(dir).len() == 1 {
                last == root_drive(text::squeezed(s, '\\'))
            } else {
                last == text::squeezed(s, '\\')
            }
        }),
{
    let s = text::replaced(dir, '/', '\\');
    let ps = text::pieces(s, '\\');
    let n = ps.len() as int;
    text::lemma_squeezed(s, '\\');
    assert(ps.take(n) =~= ps);
    assert(s.len() > 0) by {
        if s.len() == 0 {
            assert(ps =~= Seq::empty());
        }
    }
    let j = text::join(ps, seq!['\\']);
    if s[0] == '\\' {
        assert(s[1] == '\\');
        assert(crumbs(dir).last().path =~= seq!['\\'] + (seq!['\\'] + j));
    } else {
        assert(Seq::<char>::empty() + j =~= j);
    }
}

/// Without the separators of either kind at its end.
pub open spec fn drop_seps(s: Seq<char>) -> Seq<char>
    decreases s.len(),
{
    if s.len() > 0 && (s.last() == '\\' || s.last() == '/') {
        drop_seps(s.drop_last())
    } else {
        s
    }
}

/// A tree's names as a path: each without the separators at its end, glued with
/// the style's separator.
pub open spec fn joined_path_spec(style: PathStyle, comps: Seq<Seq<char>>) -> Seq<char> {
    text::join(comps.map_values(|c: Seq<char>| drop_seps(c)), seq![paths::main_sep(style)])
}

fn without_seps(s: &str) -> (r: String)
    ensures
        r@ == drop_seps(s@),
{
    let v = chars_of(s);
    let mut n: usize = v.len();
    assert(v@.take(n as int) =~= v@);
    while n > 0 && (v[n - 1] == '\\' || v[n - 1] == '/')
        invariant
            n <= v@.len(),
            drop_seps(v@) == drop_seps(v@.take(n as int)),
        decreases n,
    {
        assert(v@.take(n as int).drop_last() =~= v@.take(n - 1));
        n -= 1;
    }
    assert(v@.subrange(0, n as int) =~= v@.take(n as int));
    text_of(&v, 0, n)
}

/// A tree's names as a path, without doubled separators behind a drive's root.
pub fn joined_path(style: PathStyle, comps: &[&str]) -> (r: String)
    ensures
        r@ == joined_path_spec(style, crate::tree::borrowed(comps@)),
{
    let ghost cs = crate::tree::borrowed(comps@).map_values(|c: Seq<char>| drop_seps(c));
    let mut parts: Vec<String> = Vec::new();
    let mut i: usize = 0;
    while i < comps.len()
        invariant
            cs == crate::tree::borrowed(comps@).map_values(|c: Seq<char>| drop_seps(c)),
            i <= comps@.len(),
            parts@.len() == i,
            forall|j: int| 0 <= j < i ==> (#[trigger] parts@[j])@ == cs[j],
        decreases comps@.len() - i,
    {
        let t = without_seps(comps[i]);
        parts.push(t);
        i += 1;
    }
    assert(text::texts(parts@) =~= cs);
    let sep = if style == PathStyle::Unix {
        "/"
    } else {
        "\\"
    };
    proof {
        reveal_strlit("/");
        reveal_strlit("\\");
        assert(sep@ =~= seq![paths::main_sep(style)]);
    }
    text::joined(&parts, sep)
}

proof fn lemma_trim_start_map(s: Seq<char>, f: spec_fn(char) -> char)
    requires
        forall|c: char| text::is_space(#[trigger] f(c)) == text::is_space(c),
    ensures
        text::trim_start(s.map_values(f)) == text::trim_start(s).map_values(f),
    decreases s.len(),
{
    if s.len() > 0 && text::is_space(s[0]) {
        assert(s.map_values(f).drop_first() =~= s.drop_first().map_values(f));
        assert(text::is_space(f(s[0])));
        lemma_trim_start_map(s.drop_first(), f);
    } else if s.len() > 0 {
        assert(!text::is_space(f(s[0])));
    }
}

proof fn lemma_trim_end_map(s: Seq<char>, f: spec_fn(char) -> char)
    requires
        forall|c: char| text::is_space(#[trigger] f(c)) == text::is_space(c),
    ensures
        text::trim_end(s.map_values(f)) == text::trim_end(s).map_values(f),
    decreases s.len(),
{
    if s.len() > 0 {
        assert(s.map_values(f).last() == f(s.last()));
        if text::is_space(s.last()) {
            assert(s.map_values(f).drop_last() =~= s.drop_last().map_values(f));
            lemma_trim_end_map(s.drop_last(), f);
        } else {
            assert(!text::is_space(f(s.last())));
        }
    }
}

proof fn lemma_drop_backslashes_map(s: Seq<char>, f: spec_fn(char) -> char)
    requires
        forall|c: char| (#[trigger] f(c) == '\\') == (c == '\\'),
    ensures
        drop_backslashes(s.map_values(f)) == drop_backslashes(s).map_values(f),
    decreases s.len(),
{
    if s.len() > 1 {
        assert(s.map_values(f).last() == f(s.last()));
        if s.last() == '\\' {
            assert(s.map_values(f).drop_last() =~= s.drop_last().map_values(f));
            lemma_drop_backslashes_map(s.drop_last(), f);
        }
    }
}

/// A change of ASCII case goes through to the bare path.
proof fn lemma_bare_map(s: Seq<char>, f: spec_fn(char) -> char)
    requires
        forall|c: char| text::is_space(#[trigger] f(c)) == text::is_space(c),
        forall|c: char| (#[trigger] f(c) == '\\') == (c == '\\'),
        forall|c: char| (#[trigger] f(c) == '/') == (c == '/'),
    ensures
        bare(s.map_values(f)) == bare(s).map_values(f),
{
    lemma_trim_start_map(s, f);
    lemma_trim_end_map(text::trim_start(s), f);
    let t = text::trim(s);
    let u = text::replaced(t, '/', '\\');
    assert(f('\\') == '\\');
    assert(text::replaced(t.map_values(f), '/', '\\') =~= u.map_values(f)) by {
        assert forall|i: int| 0 <= i < t.len() implies text::replaced(t.map_values(f), '/', '\\')[i] == u.map_values(f)[i] by {
            assert((f(t[i]) == '/') == (t[i] == '/'));
        }
    }
    lemma_drop_backslashes_map(u, f);
}

/// The case of ASCII letters and the direction of slashes make no difference to
/// a key.
pub proof fn law_key_ignores_case_and_slashes(s: Seq<char>)
    ensures
        cache_key(text::ascii_lower_text(s)) == cache_key(s),
        cache_key(text::ascii_upper_text(s)) == cache_key(s),
        cache_key(text::replaced(s, '/', '\\')) == cache_key(s),
        cache_key(text::replaced(s, '\\', '/')) == cache_key(s),
{
    let low = |c: char| text::ascii_lower(c);
    let up = |c: char| text::ascii_upper(c);
    let back = |c: char|
        if c == '/' {
            '\\'
        } else {
            c
        };
    let forth = |c: char|
        if c == '\\' {
            '/'
        } else {
            c
        };
    assert(s.map_values(low) =~= text::ascii_lower_text(s));
    assert(s.map_values(up) =~= text::ascii_upper_text(s));
    assert(s.map_values(back) =~= text::replaced(s, '/', '\\'));
    assert(s.map_values(forth) =~= text::replaced(s, '\\', '/'));
    assert forall|c: char| text::is_space(#[trigger] low(c)) == text::is_space(c) by {}
    assert forall|c: char| text::is_space(#[trigger] up(c)) == text::is_space(c) by {}
    lemma_bare_map(s, low);
    lemma_bare_map(s, up);
    let y = bare(s);
    assert(text::ascii_lower_text(y.map_values(low)) =~= text::ascii_lower_text(y));
    assert(text::ascii_lower_text(y.map_values(up)) =~= text::ascii_lower_text(y));
    text::lemma_lower_text(y.map_values(low), y);
    text::lemma_lower_text(y.map_values(up), y);
    lemma_trim_start_map(s, back);
    lemma_trim_end_map(text::trim_start(s), back);
    lemma_trim_start_map(s, forth);
    lemma_trim_end_map(text::trim_start(s), forth);
    let t = text::trim(s);
    assert(text::replaced(t.map_values(back), '/', '\\') =~= text::replaced(t, '/', '\\'));
    assert(text::replaced(t.map_values(forth), '/', '\\') =~= text::replaced(t, '/', '\\'));
}

proof fn lemma_trim_start_push(s: Seq<char>, c: char)
    requires
        s.len() > 0,
        !text::is_space(s.last()),
    ensures
        text::trim_start(s.push(c)) == text::trim_start(s).push(c),
        text::trim_start(s).len() > 0,
        text::trim_start(s).last() == s.last(),
    decreases s.len(),
{
    if text::is_space(s[0]) {
        assert(s.push(c).drop_first() =~= s.drop_first().push(c));
        lemma_trim_start_push(s.drop_first(), c);
    }
}

/// A separator at the end makes no difference to the key of a path that ends in
/// anything but white space.
pub proof fn law_key_ignores_trailing_separator(s: Seq<char>)
    requires
        s.len() > 0,
        !text::is_space(s.last()),
    ensures
        cache_key(s.push('\\')) == cache_key(s),
        cache_key(s.push('/')) == cache_key(s),
{
    lemma_trim_start_push(s, '\\');
    lemma_trim_start_push(s, '/');
    let t = text::trim_start(s);
    assert(text::trim(s) == t);
    let k = text::replaced(t, '/', '\\');
    assert(text::replaced(t.push('\\'), '/', '\\') =~= k.push('\\'));
    assert(text::replaced(t.push('/'), '/', '\\') =~= k.push('\\'));
    assert(k.push('\\').drop_last() =~= k);
}

/// A text whose lowercase is its own lowercase, has no slash that the text has
/// not, and keeps what the text has at its ends of white space, backslashes and
/// colons.
pub open spec fn lowers_evenly(t: Seq<char>) -> bool {
    let l = text::lower_text(t);
    &&& text::lower_text(l) == l
    &&& l.contains('/') ==> t.contains('/')
    &&& l.len() > 0 <==> t.len() > 0
    &&& t.len() > 0 ==> {
        &&& text::is_space(l[0]) == text::is_space(t[0])
        &&& text::is_space(l.last()) == text::is_space(t.last())
        &&& (l.last() == '\\') == (t.last() == '\\')
        &&& (l.last() == ':') == (t.last() == ':')
        &&& t.len() == 1 && t.last() == '\\' ==> l.len() == 1
    }
}

/// Every ASCII text lowers evenly.
pub proof fn law_ascii_lowers_evenly(t: Seq<char>)
    requires
        text::all_ascii(t),
    ensures
        lowers_evenly(t),
{
    text::lemma_lower_text(t, t);
    let l = text::ascii_lower_text(t);
    assert forall|i: int| 0 <= i < l.len() implies (#[trigger] l[i] as int) < 0x80 by {
        assert((t[i] as int) < 0x80);
    }
    text::lemma_lower_text(l, l);
    assert(text::ascii_lower_text(l) =~= l);
    if l.contains('/') {
        let i = choose|i: int| 0 <= i < l.len() && l[i] == '/';
        assert(t[i] == '/');
    }
    if t.len() > 0 {
        assert(l[0] == text::ascii_lower(t[0]));
        assert(l.last() == text::ascii_lower(t.last()));
    }
}

proof fn lemma_drop_backslashes(s: Seq<char>)
    ensures
        drop_backslashes(s) == s.take(drop_backslashes(s).len() as int),
        drop_backslashes(s).len() <= s.len(),
        s.len() > 0 ==> drop_backslashes(s).len() > 0,
        drop_backslashes(s).len() > 1 ==> drop_backslashes(s).last() != '\\',
    decreases s.len(),
{
    if s.len() > 1 && s.last() == '\\' {
        let d = drop_backslashes(s.drop_last());
        lemma_drop_backslashes(s.drop_last());
        assert(s.drop_last().take(d.len() as int) =~= s.take(d.len() as int));
    } else {
        assert(s.take(s.len() as int) =~= s);
    }
}

proof fn lemma_trimmed_starts(s: Seq<char>)
    ensures
        text::trim(s).len() > 0 ==> !text::is_space(text::trim(s)[0]),
    decreases s.len(),
{
    if s.len() > 0 && text::is_space(s[0]) {
        lemma_trimmed_starts(s.drop_first());
    } else {
        lemma_trim_end_keeps_start(s);
    }
}

proof fn lemma_trim_end_keeps_start(s: Seq<char>)
    ensures
        text::trim_end(s).len() > 0 ==> text::trim_end(s)[0] == s[0],
    decreases s.len(),
{
    if s.len() > 0 && text::is_space(s.last()) {
        lemma_trim_end_keeps_start(s.drop_last());
    }
}

/// A bare path starts with no white space and holds no slash, and only the bare
/// separator ends in one.
proof fn lemma_bare(s: Seq<char>)
    ensures
        bare(s).len() > 0 ==> !text::is_space(bare(s)[0]),
        !bare(s).contains('/'),
        bare(s).len() > 1 ==> bare(s).last() != '\\',
{
    let t = text::trim(s);
    let u = text::replaced(t, '/', '\\');
    lemma_drop_backslashes(u);
    lemma_trimmed_starts(s);
    assert forall|i: int| 0 <= i < bare(s).len() implies bare(s)[i] != '/' by {
        assert(bare(s)[i] == u[i]);
    }
    if bare(s).len() > 0 {
        assert(u[0] == t[0] || u[0] == '\\');
    }
}

/// A key is its own key, where the bare path has no white space at its end and
/// lowers evenly, which every ASCII path does. Such a key ends in a separator
/// exactly behind a drive, or where it is nothing else.
pub proof fn law_key_is_its_own_key(s: Seq<char>)
    requires
        bare(s).len() > 0 ==> !text::is_space(bare(s).last()),
        lowers_evenly(bare(s)),
    ensures
        cache_key(cache_key(s)) == cache_key(s),
        bare(s).len() > 0 <==> cache_key(s).len() > 0,
        bare(s).len() > 0 ==> (cache_key(s).last() == '\\' <==> bare(s).last() == ':' || bare(s) == seq!['\\']),
{
    let b = bare(s);
    let l = text::lower_text(b);
    let k = cache_key(s);
    lemma_bare(s);
    if b.len() > 0 {
        assert(b.last() == '\\' ==> b =~= seq!['\\']);
        assert(k[0] == l[0]);
        assert(text::trim(k) == k);
        assert forall|i: int| 0 <= i < k.len() implies k[i] != '/' by {
            if i < l.len() {
                assert(k[i] == l[i]);
                assert(k[i] == '/' ==> l.contains('/'));
            }
        }
        assert(text::replaced(k, '/', '\\') =~= k);
        if l.last() == ':' {
            assert(k.drop_last() =~= l);
            assert(drop_backslashes(l) == l);
        }
        assert(bare(k) == l);
    } else {
        assert(k =~= Seq::empty());
        assert(text::trim(k) =~= k);
        assert(text::replaced(k, '/', '\\') =~= k);
        assert(l =~= b);
    }
}

proof fn lemma_trim_keeps_ascii(s: Seq<char>)
    requires
        text::all_ascii(s),
    ensures
        text::all_ascii(text::trim(s)),
        text::all_ascii(text::trim_end(s)),
    decreases s.len(),
{
    if s.len() > 0 {
        assert forall|i: int| 0 <= i < s.len() - 1 implies (#[trigger] s.drop_last()[i] as int) < 0x80 by {
            assert(s.drop_last()[i] == s[i]);
        }
        assert forall|i: int| 0 <= i < s.len() - 1 implies (#[trigger] s.drop_first()[i] as int) < 0x80 by {
            assert(s.drop_first()[i] == s[i + 1]);
        }
        lemma_trim_keeps_ascii(s.drop_last());
        lemma_trim_keeps_ascii(s.drop_first());
    }
}

/// The key of an ASCII path that has no white space at its end is its own key.
pub proof fn law_ascii_key_is_its_own_key(s: Seq<char>)
    requires
        text::all_ascii(s),
        bare(s).len() > 0 ==> !text::is_space(bare(s).last()),
    ensures
        cache_key(cache_key(s)) == cache_key(s),
{
    lemma_trim_keeps_ascii(s);
    let t = text::trim(s);
    let u = text::replaced(t, '/', '\\');
    lemma_drop_backslashes(u);
    assert forall|i: int| 0 <= i < bare(s).len() implies (#[trigger] bare(s)[i] as int) < 0x80 by {
        assert(bare(s)[i] == u[i]);
        assert((t[i] as int) < 0x80);
    }
    law_ascii_lowers_evenly(bare(s));
    law_key_is_its_own_key(s);
}

/// Sixteen lowercase hexadecimal digits of a number.
pub open spec fn hex_digit(n: nat) -> char {
    if n < 10 {
        (n + 48) as char
    } else {
        (n + 87) as char
    }
}

/// The last `k` hexadecimal digits of a number.
pub open spec fn hex(n: nat, k: nat) -> Seq<char>
    decreases k,
{
    if k == 0 {
        Seq::empty()
    } else {
        hex(n / 16, (k - 1) as nat).push(hex_digit(n % 16))
    }
}

/// What `str`'s impl of `std::hash::Hash` writes to a hasher: the pieces of bytes,
/// one after the other. Equal texts write the same.
pub uninterp spec fn hashed_text(s: Seq<char>) -> Seq<Seq<u8>>;

/// Calls `std::hash::Hash::hash` of a `str` on a `DefaultHasher`: what was
/// written before stays, and the pieces of the text come behind it. Which bytes
/// these are is not said.
#[verifier::external_body]
fn hash_text(key: &str, h: &mut DefaultHasher)
    ensures
        final(h)@ == old(h)@ + hashed_text(key@),
{
    std::hash::Hash::hash(key, h)
}

/// The hash of a text: what a `DefaultHasher` made by `DefaultHasher::new` comes
/// to once the text was written to it.
pub open spec fn text_hash(s: Seq<char>) -> u64 {
    <DefaultHasher as vstd::std_specs::hash::DefaultHasherAdditionalSpecFns>::spec_finish(hashed_text(s))
}

/// The name of the cache file for a key of that hash: sixteen hexadecimal
/// digits and `.bin`.
pub fn cache_file_name(hash: u64) -> (r: String)
    ensures
        r@ == hex(hash as nat, 16) + ".bin"@,
{
    let mut digits: Vec<char> = Vec::new();
    let mut rest: u64 = hash;
    let mut k: usize = 0;
    assert(digits@.reverse() =~= Seq::empty());
    while k < 16
        invariant
            k <= 16,
            digits@.len() == k,
            hex(hash as nat, 16) == hex(rest as nat, (16 - k) as nat) + digits@.reverse(),
        decreases 16 - k,
    {
        let d: u64 = rest % 16;
        let ghost before = digits@;
        digits.push(
            if d < 10 {
                (d as u8 + 48) as char
            } else {
                (d as u8 + 87) as char
            },
        );
        proof {
            assert(digits@.reverse() =~= seq![hex_digit(rest as nat % 16)] + before.reverse());
            assert(hex(hash as nat, 16) =~= hex(rest as nat / 16, (15 - k) as nat) + digits@.reverse());
        }
        rest = rest / 16;
        k += 1;
    }
    let mut out = String::new();
    let mut i: usize = 16;
    while i > 0
        invariant
            i <= 16,
            digits@.len() == 16,
            digits@.reverse() == out@ + digits@.take(i as int).reverse(),
        decreases i,
    {
        assert(digits@.take(i as int).reverse() =~= seq![digits@[i - 1]] + digits@.take(i - 1).reverse());
        i -= 1;
        out.push(digits[i]);
        assert(digits@.reverse() =~= out@ + digits@.take(i as int).reverse());
    }
    assert(hex(hash as nat, 16) =~= out@);
    out.append(".bin");
    out
}

/// The name of the cache file of a scan root.
pub open spec fn cache_name(root: Seq<char>) -> Seq<char> {
    hex(text_hash(cache_key(root)) as nat, 16) + ".bin"@
}

/// The name of the cache file of a scan root: of the hash of its key.
pub fn cache_name_for(root: &str) -> (r: String)
    ensures
        r@ == cache_name(root@),
{
    let key = normalize_cache_key(root);
    let mut h = DefaultHasher::new();
    hash_text(key.as_str(), &mut h);
    assert(h@ =~= hashed_text(key@));
    cache_file_name(h.finish())
}

/// Roots with one key share a cache file.
pub proof fn law_one_key_one_file(a: Seq<char>, b: Seq<char>)
    requires
        cache_key(a) == cache_key(b),
    ensures
        cache_name(a) == cache_name(b),
{
}

/// Dropping into a folder is refused where one of the dragged paths is that folder
/// or one above it, and where all of them are in it already; else it is allowed.
pub proof fn law_what_may_be_dropped(style: PathStyle, dragged: Seq<Seq<char>>, dest: Seq<char>)
    ensures
        can_drop_spec(style, dragged, dest) ==> dragged.len() > 0,
        can_drop_spec(style, dragged, dest) ==> forall|i: int|
            0 <= i < dragged.len() ==> paths::components(style, #[trigger] dragged[i]) != paths::components(
                style,
                dest,
            ).take(paths::components(style, dragged[i]).len() as int) || paths::components(style, dragged[i]).len()
                > paths::components(style, dest).len(),
        (forall|i: int| 0 <= i < dragged.len() ==> !paths::under(style, dest, #[trigger] dragged[i])) && (exists|i: int|
            0 <= i < dragged.len() && (paths::parent_spec(style, #[trigger] dragged[i]) is None || paths::components(
                style,
                paths::parent_spec(style, dragged[i])->0,
            ) != paths::components(style, dest))) ==> can_drop_spec(style, dragged, dest),
{
    if can_drop_spec(style, dragged, dest) {
        assert forall|i: int| 0 <= i < dragged.len() implies paths::components(style, #[trigger] dragged[i])
            != paths::components(style, dest).take(paths::components(style, dragged[i]).len() as int) || paths::components(
            style,
            dragged[i],
        ).len() > paths::components(style, dest).len() by {
            let a = paths::components(style, dragged[i]);
            let d = paths::components(style, dest);
            if a.len() <= d.len() && a == d.take(a.len() as int) {
                assert(a.is_prefix_of(d));
            }
        }
    }
    if exists|i: int|
        0 <= i < dragged.len() && (paths::parent_spec(style, #[trigger] dragged[i]) is None || paths::components(
            style,
            paths::parent_spec(style, dragged[i])->0,
        ) != paths::components(style, dest)) {
        let i = choose|i: int|
            0 <= i < dragged.len() && (paths::parent_spec(style, #[trigger] dragged[i]) is None || paths::components(
                style,
                paths::parent_spec(style, dragged[i])->0,
            ) != paths::components(style, dest));
        assert(!is_child_of(style, dragged[i], dest));
    }
}

/// Only backslashes are cut off the end, all of them, but never the last
/// character that there is.
pub proof fn law_backslashes_are_cut(s: Seq<char>)
    ensures
        drop_backslashes(s) == s.take(drop_backslashes(s).len() as int),
        forall|i: int| drop_backslashes(s).len() <= i < s.len() ==> #[trigger] s[i] == '\\',
        drop_backslashes(s).len() <= s.len(),
        s.len() > 0 ==> drop_backslashes(s).len() > 0,
        drop_backslashes(s).len() > 1 ==> drop_backslashes(s).last() != '\\',
    decreases s.len(),
{
    if s.len() > 1 && s.last() == '\\' {
        law_backslashes_are_cut(s.drop_last());
        let r = drop_backslashes(s.drop_last());
        assert(s.drop_last().take(r.len() as int) =~= s.take(r.len() as int));
        assert forall|i: int| r.len() <= i < s.len() implies #[trigger] s[i] == '\\' by {
            if i < s.len() - 1 {
                assert(s.drop_last()[i] == s[i]);
            }
        }
    } else {
        assert(s.take(s.len() as int) =~= s);
    }
}

/// Only separators are cut off the end of a name, and all of them.
pub proof fn law_separators_are_cut(s: Seq<char>)
    ensures
        drop_seps(s) == s.take(drop_seps(s).len() as int),
        forall|i: int| drop_seps(s).len() <= i < s.len() ==> #[trigger] s[i] == '\\' || s[i] == '/',
        drop_seps(s).len() <= s.len(),
        drop_seps(s).len() > 0 ==> drop_seps(s).last() != '\\' && drop_seps(s).last() != '/',
    decreases s.len(),
{
    if s.len() > 0 && (s.last() == '\\' || s.last() == '/') {
        law_separators_are_cut(s.drop_last());
        let r = drop_seps(s.drop_last());
        assert(s.drop_last().take(r.len() as int) =~= s.take(r.len() as int));
        assert forall|i: int| r.len() <= i < s.len() implies #[trigger] s[i] == '\\' || s[i] == '/' by {
            if i < s.len() - 1 {
                assert(s.drop_last()[i] == s[i]);
            }
        }
    } else {
        assert(s.take(s.len() as int) =~= s);
    }
}

/// A path glued of names goes on with one separator and the next name.
pub proof fn law_names_are_glued_one_by_one(style: PathStyle, names: Seq<Seq<char>>, name: Seq<char>)
    ensures
        joined_path_spec(style, seq![name]) == drop_seps(name),
        names.len() > 0 ==> joined_path_spec(style, names.push(name)) == joined_path_spec(style, names) + seq![
            match style {
                PathStyle::Windows => '\\',
                PathStyle::Unix => '/',
            },
        ] + drop_seps(name),
{
    let cut = |c: Seq<char>| drop_seps(c);
    let sep = seq![paths::main_sep(style)];
    let one = seq![name].map_values(cut);
    assert(one =~= seq![drop_seps(name)]);
    let all = names.push(name).map_values(cut);
    assert(all =~= names.map_values(cut).push(drop_seps(name)));
    if names.len() > 0 {
        assert(all.drop_last() =~= names.map_values(cut));
    }
}

/// The letter of a drive is made a capital, and nothing else of a path changes.
pub proof fn law_drive_letter_is_a_capital(s: Seq<char>)
    ensures
        upper_drive(s).len() == s.len(),
        forall|i: int| 1 <= i < s.len() ==> #[trigger] upper_drive(s)[i] == s[i],
        s.len() >= 2 && s[1] == ':' ==> upper_drive(s)[0] == text::ascii_upper(s[0]),
        s.len() >= 1 && !(s.len() >= 2 && s[1] == ':') ==> upper_drive(s)[0] == s[0],
        upper_drive(upper_drive(s)) == upper_drive(s),
{
}

/// A bare drive leads to its root, and every other path is left alone.
pub proof fn law_bare_drive_is_its_root(s: Seq<char>)
    ensures
        root_drive(s.push(':')) == s + seq![':', '\\'],
        s.len() == 0 || s.last() != ':' ==> root_drive(s) == s,
{
    assert(s.push(':').push('\\') =~= s + seq![':', '\\']);
}

/// The number that a text of hexadecimal digits stands for.
pub open spec fn hex_value(s: Seq<char>) -> int
    decreases s.len(),
{
    if s.len() == 0 {
        0
    } else {
        16 * hex_value(s.drop_last()) + (if '0' <= s.last() && s.last() <= '9' {
            s.last() as int - '0' as int
        } else {
            s.last() as int - 'a' as int + 10
        })
    }
}

/// Hexadecimal digits are 0 to 9 and a to f, and read as a number they give the
/// number again where there are enough of them.
pub proof fn law_hexadecimal_digits(n: nat, k: nat)
    ensures
        hex(n, k).len() == k,
        forall|i: int|
            0 <= i < k ==> ('0' <= #[trigger] hex(n, k)[i] && hex(n, k)[i] <= '9') || ('a' <= hex(n, k)[i] && hex(n, k)[i]
                <= 'f'),
        n < vstd::arithmetic::power::pow(16, k) ==> hex_value(hex(n, k)) == n,
    decreases k,
{
    vstd::arithmetic::power::lemma_pow0(16);
    if k > 0 {
        law_hexadecimal_digits(n / 16, (k - 1) as nat);
        vstd::arithmetic::power::lemma_pow_adds(16, 1, (k - 1) as nat);
        vstd::arithmetic::power::lemma_pow1(16);
        let rest = hex(n / 16, (k - 1) as nat);
        assert(hex(n, k).drop_last() =~= rest);
        if n < vstd::arithmetic::power::pow(16, k) {
            let q = vstd::arithmetic::power::pow(16, (k - 1) as nat);
            assert(n < 16 * q);
            assert(n / 16 < q);
        }
    }
}

/// Two hashes never share a cache file.
pub proof fn law_hashes_have_their_own_files(a: u64, b: u64)
    requires
        hex(a as nat, 16) + ".bin"@ == hex(b as nat, 16) + ".bin"@,
    ensures
        a == b,
{
    law_hexadecimal_digits(a as nat, 16);
    law_hexadecimal_digits(b as nat, 16);
    assert(vstd::arithmetic::power::pow(16, 16) == 0x1_0000_0000_0000_0000) by {
        reveal_with_fuel(vstd::arithmetic::power::pow, 17);
    }
    assert(hex(a as nat, 16) =~= (hex(a as nat, 16) + ".bin"@).take(16));
    assert(hex(b as nat, 16) =~= (hex(b as nat, 16) + ".bin"@).take(16));
}

} // verus!
