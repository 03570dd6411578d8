//! Text as sequences of characters: the few string operations the rest of the
//! library is built from.
use vstd::prelude::*;

verus! {

/// `String::push` of the standard library: the character is appended and
/// nothing else changes.
pub assume_specification[ String::push ](s: &mut String, c: char)
    ensures
        final(s)@ == old(s)@.push(c),
;

/// What `str::to_lowercase` of the standard library makes of a text that is not
/// ASCII alone, by the text with `A`..`Z` lowered.
pub uninterp spec fn unicode_lower(s: Seq<char>) -> Seq<char>;

/// `A`..`Z` to `a`..`z`, every other character as it is.
pub open spec fn ascii_lower(c: char) -> char {
    if 'A' <= c && c <= 'Z' {
        ((c as int) + 32) as char
    } else {
        c
    }
}

/// Every character lowered by [`ascii_lower`].
pub open spec fn ascii_lower_text(s: Seq<char>) -> Seq<char> {
    Seq::new(s.len(), |i: int| ascii_lower(s[i]))
}

/// `a`..`z` to `A`..`Z`, every other character as it is.
pub open spec fn ascii_upper(c: char) -> char {
    if 'a' <= c && c <= 'z' {
        ((c as int) - 32) as char
    } else {
        c
    }
}

/// Every character raised by [`ascii_upper`].
pub open spec fn ascii_upper_text(s: Seq<char>) -> Seq<char> {
    Seq::new(s.len(), |i: int| ascii_upper(s[i]))
}

/// The same text but for the case of ASCII letters.
pub open spec fn same_but_ascii_case(a: Seq<char>, b: Seq<char>) -> bool {
    ascii_lower_text(a) == ascii_lower_text(b)
}

/// Only characters below `0x80`.
pub open spec fn all_ascii(s: Seq<char>) -> bool {
    forall|i: int| 0 <= i < s.len() ==> (#[trigger] s[i] as int) < 0x80
}

/// The text in lower case. The case of ASCII letters makes no difference to it,
/// and of an ASCII text nothing but these letters changes.
#[verifier::opaque]
pub open spec fn lower_text(s: Seq<char>) -> Seq<char> {
    if all_ascii(s) {
        ascii_lower_text(s)
    } else {
        unicode_lower(ascii_lower_text(s))
    }
}

/// An optional text by its characters.
pub open spec fn opt_text(o: Option<String>) -> Option<Seq<char>> {
    match o {
        Some(s) => Some(s@),
        None => None,
    }
}

/// A list of texts by their characters.
pub open spec fn texts(v: Seq<String>) -> Seq<Seq<char>> {
    v.map_values(|s: String| s@)
}

/// Calls `str::to_lowercase`: the Unicode lowercase of the whole text. A text of
/// ASCII characters gets `A`..`Z` mapped to `a`..`z` and keeps the rest. Of any
/// other text the result depends on the text with `A`..`Z` lowered alone: the case
/// of an ASCII letter changes neither its own lowercase nor that of a character
/// near it. What the lowercase is beyond ASCII is left to std, and so is whether
/// it is its own lowercase there.
#[verifier::external_body]
pub(crate) fn to_lower_text(s: &str) -> (r: String)
    ensures
        r@ == lower_text(s@),
        all_ascii(s@) ==> r@ == ascii_lower_text(s@),
        !all_ascii(s@) ==> r@ == unicode_lower(ascii_lower_text(s@)),
{
    s.to_lowercase()
}

/// Texts that differ in the case of ASCII letters at most are the same in lower
/// case; ASCII texts are so only then.
pub proof fn lemma_lower_text(a: Seq<char>, b: Seq<char>)
    ensures
        same_but_ascii_case(a, b) ==> lower_text(a) == lower_text(b),
        all_ascii(a) && all_ascii(b) ==> (lower_text(a) == lower_text(b) <==> same_but_ascii_case(a, b)),
        all_ascii(a) ==> lower_text(a) == ascii_lower_text(a),
{
    reveal(lower_text);
    if same_but_ascii_case(a, b) {
        let (x, y) = (ascii_lower_text(a), ascii_lower_text(b));
        assert(a.len() == x.len() && b.len() == y.len());
        assert forall|i: int| 0 <= i < a.len() implies ((#[trigger] a[i] as int) < 0x80 <==> (b[i] as int) < 0x80) by {
            assert(x[i] == y[i]);
        }
        if all_ascii(b) {
            assert forall|i: int| 0 <= i < a.len() implies (#[trigger] a[i] as int) < 0x80 by {
                assert((b[i] as int) < 0x80);
            }
        }
        if all_ascii(a) {
            assert forall|i: int| 0 <= i < b.len() implies (#[trigger] b[i] as int) < 0x80 by {
                assert((a[i] as int) < 0x80);
            }
        }
    }
}

/// A character is a scalar value.
pub proof fn lemma_scalar(c: char)
    ensures
        0 <= (c as int) < 0xd800 || 0xe000 <= (c as int) <= 0x10ffff,
{
}

/// The characters of `s`, in order.
pub fn chars_of(s: &str) -> (r: Vec<char>)
    ensures
        r@ == s@,
{
    let mut r: Vec<char> = Vec::new();
    for c in it: s.chars()
        invariant
            it.seq() == s@,
            r@ == it.seq().take(it.index() as int),
    {
        r.push(c);
        assert(r@ =~= it.seq().take(it.index() + 1));
    }
    assert(r@ =~= s@);
    r
}

/// The text that `v[from..to]` spells.
pub fn text_of(v: &Vec<char>, from: usize, to: usize) -> (r: String)
    requires
        from <= to <= v@.len(),
    ensures
        r@ == v@.subrange(from as int, to as int),
{
    let mut r = String::new();
    let mut i: usize = from;
    while i < to
        invariant
            from <= i <= to <= v@.len(),
            r@ == v@.subrange(from as int, i as int),
        decreases to - i,
    {
        r.push(v[i]);
        i += 1;
        assert(r@ =~= v@.subrange(from as int, i as int));
    }
    r
}

/// Whether two texts are the same characters.
pub fn same_text(a: &str, b: &str) -> (r: bool)
    ensures
        r == (a@ == b@),
{
    let x = a.as_bytes();
    let y = b.as_bytes();
    proof {
        vstd::utf8::encode_utf8_decode_utf8(a@);
        vstd::utf8::encode_utf8_decode_utf8(b@);
    }
    if x.len() != y.len() {
        return false;
    }
    let mut i: usize = 0;
    while i < x.len()
        invariant
            i <= x@.len(),
            x@.len() == y@.len(),
            x@ == vstd::utf8::encode_utf8(a@),
            y@ == vstd::utf8::encode_utf8(b@),
            forall|j: int| 0 <= j < i ==> #[trigger] x@[j] == y@[j],
        decreases x@.len() - i,
    {
        if x[i] != y[i] {
            return false;
        }
        i += 1;
    }
    assert(x@ =~= y@);
    true
}

/// Whether two ranges of characters are the same.
pub fn same_range(a: &Vec<char>, a0: usize, a1: usize, b: &Vec<char>, b0: usize, b1: usize) -> (r: bool)
    requires
        a0 <= a1 <= a@.len(),
        b0 <= b1 <= b@.len(),
    ensures
        r == (a@.subrange(a0 as int, a1 as int) == b@.subrange(b0 as int, b1 as int)),
{
    let ghost sa = a@.subrange(a0 as int, a1 as int);
    let ghost sb = b@.subrange(b0 as int, b1 as int);
    if a1 - a0 != b1 - b0 {
        assert(sa.len() != sb.len());
        return false;
    }
    let mut i: usize = 0;
    while i < a1 - a0
        invariant
            a0 <= a1 <= a@.len(),
            b0 <= b1 <= b@.len(),
            a1 - a0 == b1 - b0,
            i <= a1 - a0,
            sa == a@.subrange(a0 as int, a1 as int),
            sb == b@.subrange(b0 as int, b1 as int),
            forall|j: int| 0 <= j < i ==> sa[j] == sb[j],
        decreases a1 - a0 - i,
    {
        if a[a0 + i] != b[b0 + i] {
            assert(sa[i as int] != sb[i as int]);
            return false;
        }
        i += 1;
    }
    assert(sa =~= sb);
    true
}

/// One ASCII character lowered, any other as it is.
pub fn to_ascii_lower(c: char) -> (r: char)
    ensures
        r == ascii_lower(c),
{
    if 'A' <= c && c <= 'Z' {
        (c as u8 + 32) as char
    } else {
        c
    }
}

/// One ASCII character raised, any other as it is.
pub fn to_ascii_upper(c: char) -> (r: char)
    ensures
        r == ascii_upper(c),
{
    if 'a' <= c && c <= 'z' {
        (c as u8 - 32) as char
    } else {
        c
    }
}

/// The text with `a`..`z` raised.
pub fn to_ascii_upper_text(s: &str) -> (r: String)
    ensures
        r@ == ascii_upper_text(s@),
{
    let v = chars_of(s);
    let mut r = String::new();
    let mut i: usize = 0;
    while i < v.len()
        invariant
            i <= v@.len(),
            v@ == s@,
            r@ == ascii_upper_text(s@).take(i as int),
        decreases v@.len() - i,
    {
        r.push(to_ascii_upper(v[i]));
        i += 1;
        assert(r@ =~= ascii_upper_text(s@).take(i as int));
    }
    assert(r@ =~= ascii_upper_text(s@));
    r
}

/// Whether two texts differ in the case of ASCII letters at most.
pub fn same_ignoring_ascii_case(a: &str, b: &str) -> (r: bool)
    ensures
        r == same_but_ascii_case(a@, b@),
{
    same_text(to_ascii_lower_text(a).as_str(), to_ascii_lower_text(b).as_str())
}

/// The text with `A`..`Z` lowered.
pub fn to_ascii_lower_text(s: &str) -> (r: String)
    ensures
        r@ == ascii_lower_text(s@),
{
    let v = chars_of(s);
    let mut r = String::new();
    let mut i: usize = 0;
    while i < v.len()
        invariant
            i <= v@.len(),
            v@ == s@,
            r@ == ascii_lower_text(s@).take(i as int),
        decreases v@.len() - i,
    {
        r.push(to_ascii_lower(v[i]));
        i += 1;
        assert(r@ =~= ascii_lower_text(s@).take(i as int));
    }
    assert(r@ =~= ascii_lower_text(s@));
    r
}

/// The characters that Unicode calls white space.
pub open spec fn is_space(c: char) -> bool {
    ||| '\u{9}' <= c && c <= '\u{d}'
    ||| c == ' '
    ||| c == '\u{85}'
    ||| c == '\u{a0}'
    ||| c == '\u{1680}'
    ||| '\u{2000}' <= c && c <= '\u{200a}'
    ||| c == '\u{2028}'
    ||| c == '\u{2029}'
    ||| c == '\u{202f}'
    ||| c == '\u{205f}'
    ||| c == '\u{3000}'
}

/// Without the white space at its end.
pub open spec fn trim_end(s: Seq<char>) -> Seq<char>
    decreases s.len(),
{
    if s.len() > 0 && is_space(s.last()) {
        trim_end(s.drop_last())
    } else {
        s
    }
}

/// Without the white space at its start.
pub open spec fn trim_start(s: Seq<char>) -> Seq<char>
    decreases s.len(),
{
    if s.len() > 0 && is_space(s[0]) {
        trim_start(s.drop_first())
    } else {
        s
    }
}

/// Without the white space at its ends.
pub open spec fn trim(s: Seq<char>) -> Seq<char> {
    trim_end(trim_start(s))
}

pub fn white_space(c: char) -> (r: bool)
    ensures
        r == is_space(c),
{
    ('\u{9}' <= c && c <= '\u{d}') || c == ' ' || c == '\u{85}' || c == '\u{a0}' || c == '\u{1680}' || ('\u{2000}' <= c
        && c <= '\u{200a}') || c == '\u{2028}' || c == '\u{2029}' || c == '\u{202f}' || c == '\u{205f}' || c == '\u{3000}'
}

fn trimmed_end_at(v: &Vec<char>, from: usize) -> (r: usize)
    requires
        from <= v@.len(),
    ensures
        from <= r <= v@.len(),
        trim_end(v@.subrange(from as int, v@.len() as int)) == v@.subrange(from as int, r as int),
{
    let mut n: usize = v.len();
    while n > from && white_space(v[n - 1])
        invariant
            from <= n <= v@.len(),
            trim_end(v@.subrange(from as int, v@.len() as int)) == trim_end(v@.subrange(from as int, n as int)),
        decreases n,
    {
        assert(v@.subrange(from as int, n as int).drop_last() =~= v@.subrange(from as int, n - 1));
        n -= 1;
    }
    n
}

/// Without the white space at its ends.
pub fn trimmed(s: &str) -> (r: String)
    ensures
        r@ == trim(s@),
{
    let v = chars_of(s);
    let mut i: usize = 0;
    assert(v@.subrange(0, v@.len() as int) =~= v@);
    while i < v.len() && white_space(v[i])
        invariant
            i <= v@.len(),
            trim_start(v@) == trim_start(v@.subrange(i as int, v@.len() as int)),
        decreases v@.len() - i,
    {
        assert(v@.subrange(i as int, v@.len() as int).drop_first() =~= v@.subrange(i + 1, v@.len() as int));
        i += 1;
    }
    assert(trim_start(v@) == v@.subrange(i as int, v@.len() as int));
    let n = trimmed_end_at(&v, i);
    text_of(&v, i, n)
}

/// Without the white space at its end.
pub fn trimmed_end(s: &str) -> (r: String)
    ensures
        r@ == trim_end(s@),
{
    let v = chars_of(s);
    assert(v@.subrange(0, v@.len() as int) =~= v@);
    let n = trimmed_end_at(&v, 0);
    text_of(&v, 0, n)
}

/// Where `c` first stands from `i` on, or the length.
pub open spec fn first_at(s: Seq<char>, c: char, i: int) -> int
    decreases s.len() - i,
{
    if i < 0 || i >= s.len() {
        s.len() as int
    } else if s[i] == c {
        i
    } else {
        first_at(s, c, i + 1)
    }
}

pub proof fn lemma_first_at(s: Seq<char>, c: char, i: int)
    requires
        0 <= i <= s.len(),
    ensures
        i <= first_at(s, c, i) <= s.len(),
        first_at(s, c, i) < s.len() ==> s[first_at(s, c, i)] == c,
        forall|j: int| i <= j < first_at(s, c, i) ==> s[j] != c,
    decreases s.len() - i,
{
    if i < s.len() && s[i] != c {
        lemma_first_at(s, c, i + 1);
    }
}

/// The pieces between the separators from `i` on, empty ones left out.
pub open spec fn pieces_from(s: Seq<char>, sep: char, i: int) -> Seq<Seq<char>>
    decreases s.len() - i,
{
    let e = first_at(s, sep, i);
    if i < 0 || i >= s.len() || e < i {
        Seq::empty()
    } else {
        (if i < e {
            seq![s.subrange(i, e)]
        } else {
            Seq::<Seq<char>>::empty()
        }) + (if e < s.len() {
            pieces_from(s, sep, e + 1)
        } else {
            Seq::<Seq<char>>::empty()
        })
    }
}

/// The pieces between the separators, empty ones left out.
pub open spec fn pieces(s: Seq<char>, sep: char) -> Seq<Seq<char>> {
    pieces_from(s, sep, 0)
}

pub fn find_char(v: &Vec<char>, c: char, i: usize) -> (r: usize)
    requires
        i <= v@.len(),
    ensures
        r == first_at(v@, c, i as int),
        i <= r <= v@.len(),
{
    let mut j: usize = i;
    while j < v.len()
        invariant
            i <= j <= v@.len(),
            first_at(v@, c, i as int) == first_at(v@, c, j as int),
        decreases v@.len() - j,
    {
        if v[j] == c {
            return j;
        }
        j += 1;
    }
    j
}

/// The pieces between the separators, empty ones left out.
pub fn split_pieces(s: &str, sep: char) -> (r: Vec<String>)
    ensures
        texts(r@) == pieces(s@, sep),
{
    let v = chars_of(s);
    let mut out: Vec<String> = Vec::new();
    let mut i: usize = 0;
    assert(texts(out@) =~= Seq::empty());
    while i < v.len()
        invariant
            v@ == s@,
            i <= v@.len(),
            pieces(s@, sep) == texts(out@) + pieces_from(s@, sep, i as int),
        decreases v@.len() - i,
    {
        let e = find_char(&v, sep, i);
        let ghost before = texts(out@);
        if i < e {
            let t = text_of(&v, i, e);
            out.push(t);
            assert(texts(out@) =~= before.push(s@.subrange(i as int, e as int)));
        }
        if e == v.len() {
            assert(pieces(s@, sep) =~= texts(out@));
            return out;
        }
        assert(pieces(s@, sep) =~= texts(out@) + pieces_from(s@, sep, e + 1));
        i = e + 1;
    }
    assert(pieces(s@, sep) =~= texts(out@));
    out
}

/// Texts one behind the other with `sep` between.
pub open spec fn join(parts: Seq<Seq<char>>, sep: Seq<char>) -> Seq<char>
    decreases parts.len(),
{
    if parts.len() == 0 {
        Seq::empty()
    } else if parts.len() == 1 {
        parts[0]
    } else {
        join(parts.drop_last(), sep) + sep + parts.last()
    }
}

/// Texts one behind the other with `sep` between.
pub fn joined(parts: &Vec<String>, sep: &str) -> (r: String)
    ensures
        r@ == join(texts(parts@), sep@),
{
    let ghost all = texts(parts@);
    let mut out = String::new();
    let mut i: usize = 0;
    while i < parts.len()
        invariant
            all == texts(parts@),
            i <= parts@.len(),
            out@ == join(all.take(i as int), sep@),
        decreases parts@.len() - i,
    {
        if i > 0 {
            out.append(sep);
        }
        out.append(parts[i].as_str());
        i += 1;
        assert(all.take(i as int).drop_last() =~= all.take(i - 1));
        assert(out@ =~= join(all.take(i as int), sep@));
    }
    assert(all.take(i as int) =~= all);
    out
}

/// Every `a` replaced by `b`.
pub open spec fn replaced(s: Seq<char>, a: char, b: char) -> Seq<char> {
    Seq::new(
        s.len(),
        |i: int|
            if s[i] == a {
                b
            } else {
                s[i]
            },
    )
}

/// Every `a` replaced by `b`.
pub fn replace_char(s: &str, a: char, b: char) -> (r: String)
    ensures
        r@ == replaced(s@, a, b),
{
    let v = chars_of(s);
    let mut out = String::new();
    let mut i: usize = 0;
    while i < v.len()
        invariant
            v@ == s@,
            i <= v@.len(),
            out@ == replaced(s@, a, b).take(i as int),
        decreases v@.len() - i,
    {
        out.push(
            if v[i] == a {
                b
            } else {
                v[i]
            },
        );
        i += 1;
        assert(out@ =~= replaced(s@, a, b).take(i as int));
    }
    assert(out@ =~= replaced(s@, a, b));
    out
}

/// Two texts, one behind the other.
pub fn cat(a: &str, b: &str) -> (r: String)
    ensures
        r@ == a@ + b@,
{
    let mut out = a.to_owned();
    out.append(b);
    out
}

/// Three texts, one behind the other.
pub fn cat3(a: &str, b: &str, c: &str) -> (r: String)
    ensures
        r@ == a@ + b@ + c@,
{
    let mut out = a.to_owned();
    out.append(b);
    out.append(c);
    out
}

/// A copy of a list of texts.
pub fn copy_texts(v: &Vec<String>) -> (r: Vec<String>)
    ensures
        r@ == v@,
{
    let mut out: Vec<String> = Vec::new();
    let mut i: usize = 0;
    while i < v.len()
        invariant
            i <= v@.len(),
            out@ == v@.take(i as int),
        decreases v@.len() - i,
    {
        out.push(v[i].clone());
        i += 1;
        assert(out@ =~= v@.take(i as int));
    }
    assert(out@ =~= v@);
    out
}

/// Whether a list holds a text.
pub fn list_has(v: &Vec<String>, s: &str) -> (r: bool)
    ensures
        r == texts(v@).contains(s@),
{
    let mut i: usize = 0;
    while i < v.len()
        invariant
            i <= v@.len(),
            forall|j: int| 0 <= j < i ==> (#[trigger] v@[j])@ != s@,
        decreases v@.len() - i,
    {
        if same_text(v[i].as_str(), s) {
            assert(texts(v@)[i as int] == s@);
            return true;
        }
        i += 1;
    }
    proof {
        assert forall|j: int| 0 <= j < texts(v@).len() implies #[trigger] texts(v@)[j] != s@ by {
            assert(v@[j]@ != s@);
        }
    }
    false
}

proof fn lemma_first_at_moved(s: Seq<char>, c: char, i: int, j: int)
    requires
        0 <= i <= j <= s.len(),
    ensures
        first_at(s, c, j) == i + first_at(s.skip(i), c, j - i),
        j <= first_at(s, c, j) <= s.len(),
    decreases s.len() - j,
{
    if j < s.len() {
        assert(s.skip(i)[j - i] == s[j]);
        if s[j] != c {
            lemma_first_at_moved(s, c, i, j + 1);
        }
    }
}

/// Pieces go by the text from where they start.
pub proof fn lemma_pieces_moved(s: Seq<char>, sep: char, i: int, j: int)
    requires
        0 <= i <= j <= s.len(),
    ensures
        pieces_from(s, sep, j) == pieces_from(s.skip(i), sep, j - i),
    decreases s.len() - j,
{
    lemma_first_at_moved(s, sep, i, j);
    let e = first_at(s, sep, j);
    if j < s.len() {
        assert(s.skip(i).subrange(j - i, e - i) =~= s.subrange(j, e));
        if e < s.len() {
            lemma_pieces_moved(s, sep, i, e + 1);
        }
    }
}

/// The pieces of a text by its first character and the pieces of the rest.
pub proof fn lemma_pieces_by_first(s: Seq<char>, sep: char)
    requires
        s.len() > 0,
    ensures
        ({
            let t = s.drop_first();
            let (ps, qs) = (pieces(s, sep), pieces(t, sep));
            if s[0] == sep {
                ps == qs
            } else if t.len() == 0 || t[0] == sep {
                ps == seq![seq![s[0]]] + qs
            } else {
                qs.len() > 0 && ps == seq![seq![s[0]] + qs[0]] + qs.drop_first()
            }
        }),
{
    let t = s.drop_first();
    let (ps, qs) = (pieces(s, sep), pieces(t, sep));
    lemma_first_at_moved(s, sep, 0, 0);
    lemma_first_at_moved(s, sep, 1, 1);
    lemma_pieces_moved(s, sep, 1, 1);
    assert(s.skip(1) =~= t);
    let e = first_at(s, sep, 0);
    if s[0] == sep {
        assert(ps =~= qs);
    } else if t.len() == 0 {
        assert(e == 1);
        assert(s.subrange(0, 1) =~= seq![s[0]]);
        assert(qs =~= Seq::empty());
        assert(ps =~= seq![seq![s[0]]] + qs);
    } else {
        assert(t[0] == s[1]);
        let rest = if e < s.len() {
            pieces_from(s, sep, e + 1)
        } else {
            Seq::<Seq<char>>::empty()
        };
        assert(ps =~= seq![s.subrange(0, e)] + rest);
        if t[0] == sep {
            assert(e == 1);
            assert(s.subrange(0, 1) =~= seq![s[0]]);
            assert(pieces_from(s, sep, 1) =~= rest);
        } else {
            assert(first_at(s, sep, 1) == e);
            assert(e > 1) by {
                lemma_first_at_moved(s, sep, 2, 2);
            }
            assert(qs =~= seq![s.subrange(1, e)] + rest);
            assert(s.subrange(0, e) =~= seq![s[0]] + s.subrange(1, e));
            assert(qs.drop_first() =~= rest);
        }
    }
}

/// A text that can be a piece: not empty, and without the separator.
pub open spec fn is_piece(p: Seq<char>, sep: char) -> bool {
    p.len() > 0 && !p.contains(sep)
}

/// Pieces are pieces, and hold no character that the text does not.
pub proof fn lemma_pieces_sound(s: Seq<char>, sep: char, c: char)
    ensures
        forall|k: int| 0 <= k < pieces(s, sep).len() ==> is_piece(#[trigger] pieces(s, sep)[k], sep),
        !s.contains(c) ==> forall|k: int| 0 <= k < pieces(s, sep).len() ==> !(#[trigger] pieces(s, sep)[k]).contains(c),
    decreases s.len(),
{
    if s.len() > 0 {
        let t = s.drop_first();
        let (ps, qs) = (pieces(s, sep), pieces(t, sep));
        lemma_pieces_sound(t, sep, c);
        lemma_pieces_by_first(s, sep);
        if !s.contains(c) {
            assert(s[0] != c);
            assert(!t.contains(c)) by {
                if t.contains(c) {
                    let k = choose|k: int| 0 <= k < t.len() && t[k] == c;
                    assert(s[k + 1] == c);
                }
            }
        }
        assert forall|k: int| 0 <= k < ps.len() implies is_piece(#[trigger] ps[k], sep) && (!s.contains(c)
            ==> !ps[k].contains(c)) by {
            if s[0] == sep {
                assert(ps[k] == qs[k]);
            } else if t.len() == 0 || t[0] == sep {
                if k > 0 {
                    assert(ps[k] == qs[k - 1]);
                }
            } else if k > 0 {
                assert(ps[k] == qs.drop_first()[k - 1]);
                assert(ps[k] == qs[k]);
            } else {
                assert(is_piece(qs[0], sep));
                let p = ps[0];
                assert(p == seq![s[0]] + qs[0]);
                assert forall|j: int| 0 <= j < p.len() implies p[j] != sep && (!s.contains(c) ==> p[j] != c) by {
                    if j > 0 {
                        assert(p[j] == qs[0][j - 1]);
                        assert(qs[0].contains(qs[0][j - 1]));
                    }
                }
            }
        }
    }
}

/// A separator parts the pieces.
pub proof fn lemma_pieces_parted(x: Seq<char>, sep: char, y: Seq<char>)
    ensures
        pieces(x.push(sep) + y, sep) == pieces(x, sep) + pieces(y, sep),
    decreases x.len(),
{
    let s = x.push(sep) + y;
    lemma_pieces_by_first(s, sep);
    if x.len() == 0 {
        assert(s.drop_first() =~= y);
        assert(pieces(s, sep) =~= pieces(x, sep) + pieces(y, sep));
    } else {
        let z = x.drop_first();
        assert(s.drop_first() =~= z.push(sep) + y);
        lemma_pieces_parted(z, sep, y);
        lemma_pieces_by_first(x, sep);
        assert(s[0] == x[0]);
        let (ps, qs) = (pieces(z, sep), pieces(y, sep));
        if x[0] != sep && z.len() > 0 && z[0] != sep {
            assert((ps + qs).drop_first() =~= ps.drop_first() + qs);
        }
        assert(pieces(s, sep) =~= pieces(x, sep) + qs);
    }
}

/// A piece has itself as its only piece.
pub proof fn lemma_piece_alone(p: Seq<char>, sep: char)
    requires
        is_piece(p, sep),
    ensures
        pieces(p, sep) == seq![p],
    decreases p.len(),
{
    lemma_pieces_by_first(p, sep);
    let t = p.drop_first();
    assert(p.contains(p[0]));
    if t.len() > 0 {
        assert(!t.contains(sep)) by {
            if t.contains(sep) {
                let k = choose|k: int| 0 <= k < t.len() && t[k] == sep;
                assert(p[k + 1] == sep);
            }
        }
        lemma_piece_alone(t, sep);
        assert(t.contains(t[0]));
        assert(seq![p[0]] + t =~= p);
        assert(pieces(p, sep) =~= seq![p]);
    } else {
        assert(p =~= seq![p[0]]);
        assert(pieces(t, sep) =~= Seq::empty());
        assert(pieces(p, sep) =~= seq![p]);
    }
}

/// Glued pieces come apart again.
pub proof fn lemma_pieces_of_joined(ps: Seq<Seq<char>>, sep: char)
    requires
        forall|k: int| 0 <= k < ps.len() ==> is_piece(#[trigger] ps[k], sep),
    ensures
        pieces(join(ps, seq![sep]), sep) == ps,
    decreases ps.len(),
{
    if ps.len() == 0 {
        assert(pieces(join(ps, seq![sep]), sep) =~= ps);
    } else {
        lemma_piece_alone(ps.last(), sep);
        if ps.len() == 1 {
            assert(seq![ps[0]] =~= ps);
        } else {
            let before = ps.drop_last();
            assert forall|k: int| 0 <= k < before.len() implies is_piece(#[trigger] before[k], sep) by {
                assert(before[k] == ps[k]);
            }
            lemma_pieces_of_joined(before, sep);
            let x = join(before, seq![sep]);
            assert(join(ps, seq![sep]) =~= x.push(sep) + ps.last());
            lemma_pieces_parted(x, sep, ps.last());
            assert(before + seq![ps.last()] =~= ps);
        }
    }
}

/// Without the separators that are repeated or stand at the end.
pub open spec fn squeezed(s: Seq<char>, sep: char) -> Seq<char>
    decreases s.len(),
{
    if s.len() == 0 {
        s
    } else if s[0] == sep && (s.len() == 1 || s[1] == sep) {
        squeezed(s.drop_first(), sep)
    } else {
        seq![s[0]] + squeezed(s.drop_first(), sep)
    }
}

proof fn lemma_join_in_front(a: Seq<char>, ps: Seq<Seq<char>>, sep: Seq<char>)
    requires
        ps.len() > 0,
    ensures
        join(seq![a] + ps, sep) == a + sep + join(ps, sep),
        join(seq![a + ps[0]] + ps.drop_first(), sep) == a + join(ps, sep),
    decreases ps.len(),
{
    let (x, y) = (seq![a] + ps, seq![a + ps[0]] + ps.drop_first());
    if ps.len() == 1 {
        assert(x.drop_last() =~= seq![a]);
        assert(join(seq![a], sep) =~= a);
        assert(join(x, sep) =~= a + sep + join(ps, sep));
        assert(join(y, sep) =~= a + join(ps, sep));
    } else {
        let before = ps.drop_last();
        lemma_join_in_front(a, before, sep);
        assert(x.drop_last() =~= seq![a] + before);
        assert(y.drop_last() =~= seq![a + before[0]] + before.drop_first());
        assert(x.last() == ps.last() && y.last() == ps.last());
        assert(join(x, sep) =~= a + sep + join(ps, sep));
        assert(join(y, sep) =~= a + join(ps, sep));
    }
}

/// The pieces of a text glued again are the text without the separators that are
/// repeated or stand at its end, but for one at its start.
pub proof fn lemma_squeezed(s: Seq<char>, sep: char)
    ensures
        squeezed(s, sep) == (if s.len() > 0 && s[0] == sep && pieces(s, sep).len() > 0 {
            seq![sep]
        } else {
            Seq::empty()
        }) + join(pieces(s, sep), seq![sep]),
    decreases s.len(),
{
    let ps = pieces(s, sep);
    if s.len() == 0 {
        assert(ps =~= Seq::empty());
        assert(squeezed(s, sep) =~= Seq::<char>::empty() + join(ps, seq![sep]));
    } else {
        let t = s.drop_first();
        let qs = pieces(t, sep);
        lemma_squeezed(t, sep);
        lemma_pieces_by_first(s, sep);
        let glue = if s[0] == sep && ps.len() > 0 {
            seq![sep]
        } else {
            Seq::<char>::empty()
        };
        if t.len() > 0 {
            assert(t[0] == s[1]);
            lemma_pieces_by_first(t, sep);
        } else {
            assert(qs =~= Seq::empty());
        }
        if s[0] != sep {
            if t.len() == 0 || t[0] == sep {
                if qs.len() > 0 {
                    lemma_join_in_front(seq![s[0]], qs, seq![sep]);
                } else {
                    assert(ps =~= seq![seq![s[0]]]);
                    assert(join(qs, seq![sep]) =~= Seq::empty());
                }
            } else {
                lemma_join_in_front(seq![s[0]], qs, seq![sep]);
            }
        }
        assert(squeezed(s, sep) =~= glue + join(ps, seq![sep]));
    }
}

/// Where a character stands with none of its kind before is where it first stands.
pub proof fn lemma_first_at_is(s: Seq<char>, c: char, i: int, at: int)
    requires
        0 <= i <= at <= s.len(),
        forall|k: int| i <= k < at ==> s[k] != c,
        at < s.len() ==> s[at] == c,
    ensures
        first_at(s, c, i) == at,
    decreases at - i,
{
    if i < at {
        lemma_first_at_is(s, c, i + 1, at);
    }
}

/// Lowering and raising ASCII letters: a capital letter and the small one of the
/// same place in the alphabet go to each other, and nothing else changes.
pub proof fn law_ascii_case(c: char)
    ensures
        'A' <= c && c <= 'Z' ==> ascii_lower(c) as int == 'a' as int + (c as int - 'A' as int) && ascii_upper(c) == c,
        'a' <= c && c <= 'z' ==> ascii_upper(c) as int == 'A' as int + (c as int - 'a' as int) && ascii_lower(c) == c,
        !('A' <= c && c <= 'Z') && !('a' <= c && c <= 'z') ==> ascii_lower(c) == c && ascii_upper(c) == c,
        ascii_upper(ascii_lower(c)) == ascii_upper(c),
        ascii_lower(ascii_upper(c)) == ascii_lower(c),
{
}

/// The blank, the tab and the line breaks are white space; letters, digits,
/// separators, dots and what else is printed in ASCII are not.
pub proof fn law_white_space(c: char)
    ensures
        c == ' ' || c == '\t' || c == '\n' || c == '\r' ==> is_space(c),
        '!' <= c && c <= '~' ==> !is_space(c),
        is_space(c) ==> c == ' ' || c < ' ' || '\u{80}' <= c,
{
}

/// What is trimmed is the middle of the text: white space is all that is cut off
/// at its ends, and the middle begins and ends with something else.
pub proof fn law_trim_cuts_white_space_alone(s: Seq<char>) -> (r: (int, int))
    ensures
        0 <= r.0 <= r.1 <= s.len(),
        trim(s) == s.subrange(r.0, r.1),
        forall|i: int| 0 <= i < r.0 || r.1 <= i < s.len() ==> is_space(#[trigger] s[i]),
        r.0 < r.1 ==> !is_space(s[r.0]) && !is_space(s[r.1 - 1]),
    decreases s.len(),
{
    if s.len() > 0 && is_space(s[0]) {
        let t = s.drop_first();
        let (a, b) = law_trim_cuts_white_space_alone(t);
        assert(t.subrange(a, b) =~= s.subrange(a + 1, b + 1));
        assert forall|i: int| 0 <= i < a + 1 || b + 1 <= i < s.len() implies is_space(#[trigger] s[i]) by {
            if i > 0 {
                assert(t[i - 1] == s[i]);
            }
        }
        (a + 1, b + 1)
    } else {
        let b = lemma_trim_end_cuts(s);
        (0, b)
    }
}

proof fn lemma_trim_end_cuts(s: Seq<char>) -> (b: int)
    ensures
        0 <= b <= s.len(),
        trim_end(s) == s.subrange(0, b),
        forall|i: int| b <= i < s.len() ==> is_space(#[trigger] s[i]),
        0 < b ==> !is_space(s[b - 1]),
    decreases s.len(),
{
    if s.len() > 0 && is_space(s.last()) {
        let t = s.drop_last();
        let b = lemma_trim_end_cuts(t);
        assert(t.subrange(0, b) =~= s.subrange(0, b));
        assert forall|i: int| b <= i < s.len() implies is_space(#[trigger] s[i]) by {
            if i < t.len() {
                assert(t[i] == s[i]);
            }
        }
        b
    } else {
        assert(s.subrange(0, s.len() as int) =~= s);
        s.len() as int
    }
}

} // verus!
