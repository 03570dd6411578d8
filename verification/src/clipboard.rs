//! Files on the system clipboard: the `DROPFILES` list of paths and the drop
//! effect beside it, as bytes.
use vstd::prelude::*;
use crate::text::{self, chars_of};

verus! {

/// Files on the clipboard, and whether they were cut (so that a paste moves
/// them).
pub struct Files {
    pub paths: Vec<String>,
    pub cut: bool,
}

/// A character in UTF-16.
pub open spec fn units(c: char) -> Seq<u16> {
    let n = c as int;
    if n < 0x10000 {
        seq![n as u16]
    } else {
        seq![(0xd800 + (n - 0x10000) / 0x400) as u16, (0xdc00 + (n - 0x10000) % 0x400) as u16]
    }
}

/// A text in UTF-16.
pub open spec fn utf16(s: Seq<char>) -> Seq<u16>
    decreases s.len(),
{
    if s.len() == 0 {
        Seq::empty()
    } else {
        units(s[0]) + utf16(s.drop_first())
    }
}

pub open spec fn is_high(u: u16) -> bool {
    0xd800 <= u < 0xdc00
}

pub open spec fn is_low(u: u16) -> bool {
    0xdc00 <= u < 0xe000
}

/// The text that UTF-16 units spell; a surrogate without its other half becomes
/// the replacement character.
pub open spec fn lossy(us: Seq<u16>) -> Seq<char>
    decreases us.len(),
{
    if us.len() == 0 {
        Seq::empty()
    } else if is_high(us[0]) && us.len() > 1 && is_low(us[1]) {
        seq![(0x10000 + (us[0] - 0xd800) * 0x400 + (us[1] - 0xdc00)) as char] + lossy(us.skip(2))
    } else {
        seq![
            if is_high(us[0]) || is_low(us[0]) {
                '\u{fffd}'
            } else {
                us[0] as char
            },
        ] + lossy(us.drop_first())
    }
}

/// The units of a path list: each path with a zero behind it, and a zero at the
/// end.
pub open spec fn list_units(paths: Seq<Seq<char>>) -> Seq<u16>
    decreases paths.len(),
{
    if paths.len() == 0 {
        seq![0u16]
    } else {
        utf16(paths[0]).push(0) + list_units(paths.drop_first())
    }
}

/// Units as bytes, the low one first.
pub open spec fn unit_bytes(us: Seq<u16>) -> Seq<u8> {
    Seq::new(
        2 * us.len(),
        |i: int|
            if i % 2 == 0 {
                (us[i / 2] % 256) as u8
            } else {
                (us[i / 2] / 256) as u8
            },
    )
}

/// The header of a list of UTF-16 paths: the list starts behind it.
pub open spec fn hdrop_header() -> Seq<u8> {
    seq![20u8, 0u8, 0u8, 0u8, 0u8, 0u8, 0u8, 0u8, 0u8, 0u8, 0u8, 0u8, 0u8, 0u8, 0u8, 0u8, 1u8, 0u8, 0u8, 0u8]
}

/// The payload of a list of paths.
pub open spec fn hdrop(paths: Seq<Seq<char>>) -> Seq<u8> {
    hdrop_header() + unit_bytes(list_units(paths))
}

/// Four bytes as a number, the low one first.
pub open spec fn u32_at(b: Seq<u8>, i: int) -> int {
    b[i] + 0x100 * b[i + 1] + 0x1_0000 * b[i + 2] + 0x100_0000 * b[i + 3]
}

/// Where the first zero stands from `i` on, or the length.
pub open spec fn zero_at(us: Seq<u16>, i: int) -> int
    decreases us.len() - i,
{
    if i < 0 || i >= us.len() {
        us.len() as int
    } else if us[i] == 0 {
        i
    } else {
        zero_at(us, i + 1)
    }
}

/// The pieces between zeros up to the first empty one.
pub open spec fn entries(us: Seq<u16>) -> Seq<Seq<u16>>
    decreases us.len(),
{
    let e = zero_at(us, 0);
    if e <= 0 || us.len() == 0 {
        Seq::empty()
    } else {
        seq![us.take(e)] + (if e < us.len() {
            entries(us.skip(e + 1))
        } else {
            Seq::<Seq<u16>>::empty()
        })
    }
}

/// Pairs of bytes as units; an odd byte at the end is left out.
pub open spec fn units_of(b: Seq<u8>) -> Seq<u16> {
    Seq::new(b.len() / 2, |i: int| (b[2 * i] + 256 * b[2 * i + 1]) as u16)
}

/// Bytes as units, one for one.
pub open spec fn widened(b: Seq<u8>) -> Seq<u16> {
    Seq::new(b.len(), |i: int| b[i] as u16)
}

/// One character for each unit.
pub open spec fn plain_chars(us: Seq<u16>) -> Seq<char> {
    Seq::new(us.len(), |i: int| us[i] as char)
}

/// The paths in a payload: UTF-16, or one byte a character where the header
/// says so; none where the payload is too short for its header or its list.
pub open spec fn hdrop_paths(b: Seq<u8>) -> Seq<Seq<char>> {
    if b.len() < 20 || u32_at(b, 0) > b.len() {
        Seq::empty()
    } else {
        let list = b.skip(u32_at(b, 0));
        if u32_at(b, 16) != 0 {
            entries(units_of(list)).map_values(|e: Seq<u16>| lossy(e))
        } else {
            entries(widened(list)).map_values(|e: Seq<u16>| plain_chars(e))
        }
    }
}

proof fn lemma_lossy_utf16(s: Seq<char>)
    ensures
        lossy(utf16(s)) == s,
    decreases s.len(),
{
    if s.len() > 0 {
        let rest = utf16(s.drop_first());
        lemma_lossy_utf16(s.drop_first());
        let n = s[0] as int;
        text::lemma_scalar(s[0]);
        let us = utf16(s);
        if n < 0x10000 {
            assert(us.drop_first() =~= rest);
            assert(us[0] == n);
        } else {
            let hi = (n - 0x10000) / 0x400;
            let lo = (n - 0x10000) % 0x400;
            assert(0 <= hi < 0x400);
            assert(us[0] == 0xd800 + hi && us[1] == 0xdc00 + lo);
            assert(us.skip(2) =~= rest);
            assert(0x10000 + hi * 0x400 + lo == n);
        }
        assert(lossy(us) =~= s);
    }
}

proof fn lemma_utf16_no_zero(s: Seq<char>)
    requires
        forall|i: int| 0 <= i < s.len() ==> #[trigger] s[i] != '\0',
    ensures
        forall|i: int| 0 <= i < utf16(s).len() ==> #[trigger] utf16(s)[i] != 0,
        s.len() > 0 ==> utf16(s).len() > 0,
    decreases s.len(),
{
    if s.len() > 0 {
        let t = s.drop_first();
        assert forall|i: int| 0 <= i < t.len() implies #[trigger] t[i] != '\0' by {
            assert(s[i + 1] != '\0');
        }
        lemma_utf16_no_zero(t);
        let head = units(s[0]);
        text::lemma_scalar(s[0]);
        assert(s[0] != '\0');
        assert forall|i: int| 0 <= i < utf16(s).len() implies #[trigger] utf16(s)[i] != 0 by {
            if i >= head.len() {
                assert(utf16(s)[i] == utf16(t)[i - head.len()]);
            }
        }
    }
}

proof fn lemma_zero_at(us: Seq<u16>, i: int, e: int)
    requires
        0 <= i <= e < us.len(),
        us[e] == 0,
        forall|j: int| i <= j < e ==> #[trigger] us[j] != 0,
    ensures
        zero_at(us, i) == e,
    decreases e - i,
{
    if i < e {
        lemma_zero_at(us, i + 1, e);
    }
}

proof fn lemma_entries_of_list(paths: Seq<Seq<char>>)
    requires
        forall|i: int| 0 <= i < paths.len() ==> (#[trigger] paths[i]).len() > 0,
        forall|i: int, j: int| 0 <= i < paths.len() && 0 <= j < paths[i].len() ==> #[trigger] paths[i][j] != '\0',
    ensures
        entries(list_units(paths)) == paths.map_values(|p: Seq<char>| utf16(p)),
    decreases paths.len(),
{
    let us = list_units(paths);
    if paths.len() == 0 {
        lemma_zero_at(us, 0, 0);
        assert(entries(us) =~= paths.map_values(|p: Seq<char>| utf16(p)));
    } else {
        let rest = paths.drop_first();
        assert forall|i: int| 0 <= i < rest.len() implies (#[trigger] rest[i]).len() > 0 by {
            assert(paths[i + 1].len() > 0);
        }
        assert forall|i: int, j: int| 0 <= i < rest.len() && 0 <= j < rest[i].len() implies #[trigger] rest[i][j]
            != '\0' by {
            assert(paths[i + 1][j] != '\0');
        }
        lemma_entries_of_list(rest);
        assert forall|j: int| 0 <= j < paths[0].len() implies #[trigger] paths[0][j] != '\0' by {}
        lemma_utf16_no_zero(paths[0]);
        let u = utf16(paths[0]);
        let e = u.len() as int;
        assert forall|j: int| 0 <= j < e implies #[trigger] us[j] != 0 by {
            assert(us[j] == u[j]);
        }
        lemma_zero_at(us, 0, e);
        assert(us.take(e) =~= u);
        assert(us.skip(e + 1) =~= list_units(rest));
        assert(e < us.len());
        assert(entries(us) =~= paths.map_values(|p: Seq<char>| utf16(p)));
    }
}

proof fn lemma_units_round_trip(us: Seq<u16>)
    ensures
        units_of(unit_bytes(us)) == us,
{
    let b = unit_bytes(us);
    assert forall|i: int| 0 <= i < us.len() implies units_of(b)[i] == us[i] by {
        assert((2 * i) / 2 == i && (2 * i + 1) / 2 == i);
        assert(b[2 * i] == us[i] % 256);
        assert(b[2 * i + 1] == us[i] / 256);
    }
    assert(units_of(b) =~= us);
}

/// A list of paths read back from its payload is the list that was written,
/// where no path is empty or holds a zero character.
pub proof fn law_hdrop_round_trip(paths: Seq<Seq<char>>)
    requires
        forall|i: int| 0 <= i < paths.len() ==> (#[trigger] paths[i]).len() > 0,
        forall|i: int, j: int| 0 <= i < paths.len() && 0 <= j < paths[i].len() ==> #[trigger] paths[i][j] != '\0',
    ensures
        hdrop_paths(hdrop(paths)) == paths,
{
    let b = hdrop(paths);
    let us = list_units(paths);
    assert(b.len() >= 20);
    assert(forall|i: int| 0 <= i < 20 ==> b[i] == hdrop_header()[i]);
    assert(u32_at(b, 0) == 20);
    assert(u32_at(b, 16) == 1);
    assert(b.skip(20) =~= unit_bytes(us));
    lemma_units_round_trip(us);
    lemma_entries_of_list(paths);
    let got = paths.map_values(|p: Seq<char>| utf16(p)).map_values(|e: Seq<u16>| lossy(e));
    assert forall|i: int| 0 <= i < paths.len() implies got[i] == paths[i] by {
        lemma_lossy_utf16(paths[i]);
    }
    assert(got =~= paths);
}

fn push_units(out: &mut Vec<u16>, s: &str)
    ensures
        final(out)@ == old(out)@ + utf16(s@),
{
    let v = chars_of(s);
    let mut i: usize = 0;
    let ghost start = out@;
    assert(s@.skip(0) =~= s@);
    while i < v.len()
        invariant
            v@ == s@,
            i <= v@.len(),
            start + utf16(s@) == out@ + utf16(s@.skip(i as int)),
        decreases v@.len() - i,
    {
        let c: char = v[i];
        proof {
            text::lemma_scalar(c);
        }
        let n: u32 = c as u32;
        let ghost before = out@;
        if n < 0x10000 {
            out.push(n as u16);
        } else {
            out.push((0xd800 + (n - 0x10000) / 0x400) as u16);
            out.push((0xdc00 + (n - 0x10000) % 0x400) as u16);
        }
        assert(out@ =~= before + units(v@[i as int]));
        assert(s@.skip(i as int).drop_first() =~= s@.skip(i + 1));
        assert(start + utf16(s@) =~= out@ + utf16(s@.skip(i + 1)));
        i += 1;
    }
    assert(start + utf16(s@) =~= out@);
}

fn path_units(paths: &Vec<String>) -> (r: Vec<u16>)
    ensures
        r@ == list_units(text::texts(paths@)),
{
    let ghost ps = text::texts(paths@);
    let mut out: Vec<u16> = Vec::new();
    let mut i: usize = 0;
    assert(ps.skip(0) =~= ps);
    assert(list_units(ps) =~= out@ + list_units(ps.skip(0)));
    while i < paths.len()
        invariant
            ps == text::texts(paths@),
            i <= paths@.len(),
            list_units(ps) == out@ + list_units(ps.skip(i as int)),
        decreases paths@.len() - i,
    {
        let ghost before = out@;
        push_units(&mut out, paths[i].as_str());
        out.push(0);
        assert(ps.skip(i as int)[0] == paths@[i as int]@);
        assert(ps.skip(i as int).drop_first() =~= ps.skip(i + 1));
        assert(list_units(ps) =~= out@ + list_units(ps.skip(i + 1)));
        i += 1;
    }
    out.push(0);
    assert(list_units(ps) =~= out@);
    out
}

/// The payload of a list of paths.
pub fn hdrop_encode(paths: &Vec<String>) -> (r: Vec<u8>)
    ensures
        r@ == hdrop(text::texts(paths@)),
{
    let us = path_units(paths);
    let mut out: Vec<u8> = vec![20, 0, 0, 0, 0, 0, 0, 0, 0, 0, 0, 0, 0, 0, 0, 0, 1, 0, 0, 0];
    assert(out@ =~= hdrop_header());
    let ghost all = unit_bytes(us@);
    let mut i: usize = 0;
    while i < us.len()
        invariant
            all == unit_bytes(us@),
            i <= us@.len(),
            out@ == hdrop_header() + all.take(2 * i),
        decreases us@.len() - i,
    {
        let u: u16 = us[i];
        let ghost before = out@;
        out.push((u % 256) as u8);
        out.push((u / 256) as u8);
        assert((2 * i) / 2 == i && (2 * i + 1) / 2 == i);
        assert(all[2 * i] == (u % 256) as u8 && all[2 * i + 1] == (u / 256) as u8);
        assert(out@ =~= hdrop_header() + all.take(2 * (i + 1)));
        i += 1;
    }
    assert(all.take(2 * i) =~= all);
    out
}

fn decode_lossy(us: &Vec<u16>, from: usize, to: usize) -> (r: String)
    requires
        from <= to <= us@.len(),
    ensures
        r@ == lossy(us@.subrange(from as int, to as int)),
{
    let ghost s = us@.subrange(from as int, to as int);
    let mut out = String::new();
    let mut i: usize = from;
    assert(s.skip(0) =~= s);
    while i < to
        invariant
            from <= i <= to <= us@.len(),
            s == us@.subrange(from as int, to as int),
            lossy(s) == out@ + lossy(s.skip(i - from)),
        decreases to - i,
    {
        let u: u16 = us[i];
        let ghost rest = s.skip(i - from);
        let ghost before = out@;
        assert(rest[0] == u);
        let high = 0xd800 <= u && u < 0xdc00;
        let low = 0xdc00 <= u && u < 0xe000;
        if high && i + 1 < to && 0xdc00 <= us[i + 1] && us[i + 1] < 0xe000 {
            assert(rest[1] == us@[i + 1]);
            let n: u32 = 0x10000 + (u as u32 - 0xd800) * 0x400 + (us[i + 1] as u32 - 0xdc00);
            out.push(char_of(n));
            assert(rest.skip(2) =~= s.skip(i + 2 - from));
            assert(lossy(s) =~= out@ + lossy(s.skip(i + 2 - from)));
            i += 2;
        } else {
            if high || low {
                out.push('\u{fffd}');
            } else {
                out.push(char_of(u as u32));
            }
            assert(rest.drop_first() =~= s.skip(i + 1 - from));
            assert(!(is_high(rest[0]) && rest.len() > 1 && is_low(rest[1])));
            assert(lossy(s) =~= out@ + lossy(s.skip(i + 1 - from)));
            i += 1;
        }
    }
    assert(s.skip(i - from) =~= Seq::empty());
    assert(lossy(s) =~= out@);
    out
}

/// `char::from_u32` of the standard library: the character of a scalar value,
/// `None` for a number that is none.
pub assume_specification[ char::from_u32 ](i: u32) -> (r: Option<char>)
    ensures
        r is Some <==> (i < 0xd800 || 0xe000 <= i <= 0x10ffff),
        r matches Some(c) ==> c as u32 == i,
;

fn char_of(n: u32) -> (r: char)
    requires
        n < 0xd800 || 0xe000 <= n <= 0x10ffff,
    ensures
        r as u32 == n,
{
    match char::from_u32(n) {
        Some(c) => c,
        None => '\u{fffd}',
    }
}

fn find_zero(us: &Vec<u16>, i: usize) -> (r: usize)
    requires
        i <= us@.len(),
    ensures
        r == zero_at(us@, i as int),
        i <= r <= us@.len(),
{
    let mut j: usize = i;
    while j < us.len()
        invariant
            i <= j <= us@.len(),
            zero_at(us@, i as int) == zero_at(us@, j as int),
        decreases us@.len() - j,
    {
        if us[j] == 0 {
            return j;
        }
        j += 1;
    }
    j
}

proof fn lemma_zero_at_skip(us: Seq<u16>, i: int, j: int)
    requires
        0 <= i <= us.len(),
        0 <= j <= us.len() - i,
    ensures
        zero_at(us.skip(i), j) == zero_at(us, i + j) - i,
    decreases us.len() - i - j,
{
    if j < us.len() - i && us[i + j] != 0 {
        lemma_zero_at_skip(us, i, j + 1);
    }
}

/// The entries of a list as texts.
fn list_texts(us: &Vec<u16>, wide: bool) -> (r: Vec<String>)
    ensures
        wide ==> text::texts(r@) == entries(us@).map_values(|e: Seq<u16>| lossy(e)),
        !wide && (forall|i: int| 0 <= i < us@.len() ==> #[trigger] us@[i] < 256) ==> text::texts(r@) == entries(
            us@,
        ).map_values(|e: Seq<u16>| plain_chars(e)),
{
    let mut out: Vec<String> = Vec::new();
    let mut i: usize = 0;
    let ghost all = entries(us@);
    assert(us@.skip(0) =~= us@);
    let ghost small = forall|j: int| 0 <= j < us@.len() ==> #[trigger] us@[j] < 256;
    while i < us.len()
        invariant
            i <= us@.len(),
            all == entries(us@),
            small == (forall|j: int| 0 <= j < us@.len() ==> #[trigger] us@[j] < 256),
            out@.len() + entries(us@.skip(i as int)).len() == all.len(),
            forall|k: int| 0 <= k < entries(us@.skip(i as int)).len() ==> all[out@.len() + k] == #[trigger] entries(
                us@.skip(i as int),
            )[k],
            wide ==> forall|k: int| 0 <= k < out@.len() ==> (#[trigger] out@[k])@ == lossy(all[k]),
            !wide && small ==> forall|k: int| 0 <= k < out@.len() ==> (#[trigger] out@[k])@ == plain_chars(all[k]),
        decreases us@.len() - i,
    {
        let ghost rest = us@.skip(i as int);
        let e = find_zero(us, i);
        proof {
            lemma_zero_at_skip(us@, i as int, 0);
        }
        if e == i {
            assert(entries(rest).len() == 0);
            proof {
                lemma_texts_are(out@, all, wide, small);
            }
            return out;
        }
        assert(entries(rest)[0] =~= us@.subrange(i as int, e as int));
        assert(all[out@.len() as int + 0] == entries(rest)[0]);
        let t = if wide {
            decode_lossy(us, i, e)
        } else {
            narrow(us, i, e)
        };
        let ghost before = out@;
        out.push(t);
        if e == us.len() {
            assert(entries(rest).len() == 1);
            proof {
                lemma_texts_are(out@, all, wide, small);
            }
            return out;
        }
        proof {
            let tail = us@.skip(e + 1);
            assert(rest.skip(e - i + 1) =~= tail);
            assert(entries(rest) =~= seq![rest.take(e - i)] + entries(tail));
            assert forall|k: int| 0 <= k < entries(tail).len() implies all[out@.len() + k] == #[trigger] entries(
                tail,
            )[k] by {
                assert(all[before.len() + (k + 1)] == entries(rest)[k + 1]);
            }
        }
        i = e + 1;
    }
    assert(entries(us@.skip(i as int)).len() == 0);
    proof {
        lemma_texts_are(out@, all, wide, small);
    }
    out
}

proof fn lemma_texts_are(out: Seq<String>, all: Seq<Seq<u16>>, wide: bool, small: bool)
    requires
        out.len() == all.len(),
        wide ==> forall|k: int| 0 <= k < out.len() ==> (#[trigger] out[k])@ == lossy(all[k]),
        !wide && small ==> forall|k: int| 0 <= k < out.len() ==> (#[trigger] out[k])@ == plain_chars(all[k]),
    ensures
        wide ==> text::texts(out) == all.map_values(|e: Seq<u16>| lossy(e)),
        !wide && small ==> text::texts(out) == all.map_values(|e: Seq<u16>| plain_chars(e)),
{
    if wide {
        assert(text::texts(out) =~= all.map_values(|e: Seq<u16>| lossy(e)));
    } else if small {
        assert(text::texts(out) =~= all.map_values(|e: Seq<u16>| plain_chars(e)));
    }
}

/// One character for each unit below 256; a larger unit gives its low byte.
fn narrow(us: &Vec<u16>, from: usize, to: usize) -> (r: String)
    requires
        from <= to <= us@.len(),
    ensures
        (forall|i: int| 0 <= i < us@.len() ==> #[trigger] us@[i] < 256) ==> r@ == plain_chars(
            us@.subrange(from as int, to as int),
        ),
{
    let mut out = String::new();
    let mut i: usize = from;
    let ghost s = plain_chars(us@.subrange(from as int, to as int));
    while i < to
        invariant
            from <= i <= to <= us@.len(),
            s == plain_chars(us@.subrange(from as int, to as int)),
            (forall|j: int| 0 <= j < us@.len() ==> #[trigger] us@[j] < 256) ==> out@ == s.take(i - from),
        decreases to - i,
    {
        let b: u8 = (us[i] % 256) as u8;
        out.push(b as char);
        i += 1;
        proof {
            if forall|j: int| 0 <= j < us@.len() ==> #[trigger] us@[j] < 256 {
                assert(us@[i - 1] < 256);
                assert(out@ =~= s.take(i - from));
            }
        }
    }
    assert(s.take(i - from) =~= s);
    out
}

fn read_u32(b: &[u8], i: usize) -> (r: u32)
    requires
        i + 4 <= b@.len(),
    ensures
        r == u32_at(b@, i as int),
{
    b[i] as u32 + 0x100 * (b[i + 1] as u32) + 0x1_0000 * (b[i + 2] as u32) + 0x100_0000 * (b[i + 3] as u32)
}

/// The paths in a payload.
pub fn hdrop_decode(bytes: &[u8]) -> (r: Vec<String>)
    ensures
        text::texts(r@) == hdrop_paths(bytes@),
{
    let none: Vec<String> = Vec::new();
    assert(text::texts(none@) =~= Seq::empty());
    if bytes.len() < 20 {
        return none;
    }
    let start: u32 = read_u32(bytes, 0);
    let wide = read_u32(bytes, 16) != 0;
    if start as u64 > bytes.len() as u64 {
        return none;
    }
    let start: usize = start as usize;
    let ghost list = bytes@.skip(start as int);
    let mut us: Vec<u16> = Vec::new();
    let n: usize = bytes.len();
    let mut i: usize = start;
    if wide {
        while n - i >= 2
            invariant
                start <= i <= n,
                n == bytes@.len(),
                list == bytes@.skip(start as int),
                2 * us@.len() == i - start,
                forall|k: int| 0 <= k < us@.len() ==> #[trigger] us@[k] == units_of(list)[k],
            decreases n - i,
        {
            us.push(bytes[i] as u16 + 256 * (bytes[i + 1] as u16));
            i += 2;
        }
        assert(us@ =~= units_of(list));
    } else {
        while i < n
            invariant
                start <= i <= n,
                n == bytes@.len(),
                list == bytes@.skip(start as int),
                us@.len() == i - start,
                forall|k: int| 0 <= k < us@.len() ==> #[trigger] us@[k] == list[k],
            decreases n - i,
        {
            us.push(bytes[i] as u16);
            i += 1;
        }
        assert(us@ =~= widened(list));
    }
    list_texts(&us, wide)
}

/// A payload whose effect is a move: the move bit without the copy bit. A
/// payload too short for a number counts as a copy.
pub open spec fn is_cut(effect: Option<Seq<u8>>) -> bool {
    match effect {
        Some(b) => b.len() >= 4 && u32_at(b, 0) / 2 % 2 == 1 && u32_at(b, 0) % 2 == 0,
        None => false,
    }
}

pub open spec fn opt_bytes(o: Option<Vec<u8>>) -> Option<Seq<u8>> {
    match o {
        Some(b) => Some(b@),
        None => None,
    }
}

/// The files on a clipboard that holds these payloads: `None` where there is no
/// list or it is empty.
pub fn read(list: Option<Vec<u8>>, effect: Option<Vec<u8>>) -> (r: Option<Files>)
    ensures
        r is Some <==> (opt_bytes(list) matches Some(b) && hdrop_paths(b).len() > 0),
        r matches Some(f) ==> text::texts(f.paths@) == hdrop_paths(opt_bytes(list)->0) && f.cut == is_cut(
            opt_bytes(effect),
        ),
{
    let bytes = match list {
        Some(b) => b,
        None => {
            return None;
        },
    };
    let paths = hdrop_decode(bytes.as_slice());
    assert(text::texts(paths@).len() == paths@.len());
    if paths.len() == 0 {
        return None;
    }
    let cut = match effect {
        Some(b) => {
            if b.len() >= 4 {
                let e: u32 = read_u32(b.as_slice(), 0);
                e / 2 % 2 == 1 && e % 2 == 0
            } else {
                false
            }
        },
        None => false,
    };
    Some(Files { paths, cut })
}

/// What is put on the clipboard for a cut or a copy: the list and the effect.
pub fn write(paths: &Vec<String>, cut: bool) -> (r: (Vec<u8>, Vec<u8>))
    ensures
        r.0@ == hdrop(text::texts(paths@)),
        r.1@ == seq![
            if cut {
                2u8
            } else {
                1u8
            },
            0u8,
            0u8,
            0u8,
        ],
        is_cut(Some(r.1@)) == cut,
{
    let effect: Vec<u8> = vec![
        if cut {
            2
        } else {
            1
        },
        0,
        0,
        0,
    ];
    (hdrop_encode(paths), effect)
}

/// The list of paths that other programs read: it starts at byte 20, which the
/// first number says, the fifth number says that it is UTF-16, and every unit is
/// written with its low byte first.
pub proof fn law_list_as_other_programs_read_it(paths: Seq<Seq<char>>, i: int)
    requires
        0 <= i < list_units(paths).len(),
    ensures
        hdrop(paths).len() == 20 + 2 * list_units(paths).len(),
        hdrop(paths)[0] == 20,
        forall|k: int| 1 <= k < 16 ==> #[trigger] hdrop(paths)[k] == 0,
        hdrop(paths)[16] == 1,
        forall|k: int| 17 <= k < 20 ==> #[trigger] hdrop(paths)[k] == 0,
        hdrop(paths)[20 + 2 * i] + 256 * hdrop(paths)[21 + 2 * i] == list_units(paths)[i],
{
    let us = list_units(paths);
    assert(hdrop_header().len() == 20);
    assert(unit_bytes(us)[2 * i] == (us[i] % 256) as u8);
    assert((2 * i + 1) / 2 == i && (2 * i + 1) % 2 == 1);
    assert(unit_bytes(us)[2 * i + 1] == (us[i] / 256) as u8);
    assert(hdrop(paths)[20 + 2 * i] == unit_bytes(us)[2 * i]);
    assert(hdrop(paths)[21 + 2 * i] == unit_bytes(us)[2 * i + 1]);
}

/// Every path in the list has a zero behind it, and one more zero ends the list.
pub proof fn law_zeros_part_the_paths(p: Seq<char>, rest: Seq<Seq<char>>)
    ensures
        list_units(Seq::empty()) == seq![0u16],
        list_units(seq![p] + rest) == utf16(p) + seq![0u16] + list_units(rest),
{
    assert((seq![p] + rest).drop_first() =~= rest);
    assert(utf16(p).push(0) =~= utf16(p) + seq![0u16]);
}

/// A character below 65536 is one unit of that number; any other is two, a high
/// and a low surrogate that hold the upper and the lower ten bits of what it is
/// above 65536.
pub proof fn law_units_of_characters(c: char, rest: Seq<char>)
    ensures
        c as int <= 0xffff ==> utf16(seq![c] + rest) == seq![c as u16] + utf16(rest),
        c as int > 0xffff ==> ({
            let us = utf16(seq![c] + rest);
            &&& us.len() == 2 + utf16(rest).len()
            &&& us.skip(2) == utf16(rest)
            &&& 0xd800 <= us[0] <= 0xdbff
            &&& 0xdc00 <= us[1] <= 0xdfff
            &&& 0x10000 + (us[0] - 0xd800) * 1024 + (us[1] - 0xdc00) == c as int
        }),
{
    assert((seq![c] + rest).drop_first() =~= rest);
    let us = utf16(seq![c] + rest);
    if c as int > 0xffff {
        assert(us.skip(2) =~= utf16(rest));
        let n = c as int - 0x10000;
        assert(c as int <= 0x10ffff);
        assert(0 <= n / 0x400 < 0x400 && 0 <= n % 0x400 < 0x400);
    }
}

/// Files were cut where the second bit of the effect is set and the first is not;
/// a payload too short for a number counts as a copy.
pub proof fn law_cut_is_the_move_bit(b: Seq<u8>)
    ensures
        is_cut(Some(b)) <==> b.len() >= 4 && b[0] & 2 == 2 && b[0] & 1 == 0,
        !is_cut(None),
{
    if b.len() >= 4 {
        let x: u8 = b[0];
        assert(x & 2 == 2 <==> x / 2 % 2 == 1) by (bit_vector);
        assert(x & 1 == 0 <==> x % 2 == 0) by (bit_vector);
        assert(u32_at(b, 0) % 2 == x as int % 2);
        assert(u32_at(b, 0) / 2 % 2 == x as int / 2 % 2);
    }
}

/// A unit that is no surrogate is the character of that number, a high and a low
/// surrogate together are one character, and a surrogate without its other half
/// becomes the replacement character; then the rest follows.
pub proof fn law_units_are_read(us: Seq<u16>)
    requires
        us.len() > 0,
    ensures
        us[0] < 0xd800 || us[0] > 0xdfff ==> lossy(us).len() == 1 + lossy(us.skip(1)).len() && lossy(us)[0] as int == us[0]
            && lossy(us).skip(1) == lossy(us.skip(1)),
        0xd800 <= us[0] <= 0xdbff && us.len() > 1 && 0xdc00 <= us[1] <= 0xdfff ==> lossy(us)[0] as int == 0x10000 + (us[0]
            - 0xd800) * 1024 + (us[1] - 0xdc00) && lossy(us).skip(1) == lossy(us.skip(2)),
        0xd800 <= us[0] <= 0xdfff && !(us[0] <= 0xdbff && us.len() > 1 && 0xdc00 <= us[1] <= 0xdfff) ==> lossy(us)[0]
            == '\u{fffd}' && lossy(us).skip(1) == lossy(us.skip(1)),
{
    assert(us.drop_first() =~= us.skip(1));
    if is_high(us[0]) && us.len() > 1 && is_low(us[1]) {
        assert(lossy(us).skip(1) =~= lossy(us.skip(2)));
    } else {
        assert(lossy(us).skip(1) =~= lossy(us.skip(1)));
    }
}

} // verus!
