//! Numbers, sizes, ages and dates as the explorer writes them.
use vstd::prelude::*;

verus! {

/// The decimal digit of a number below ten.
pub open spec fn digit(n: nat) -> char {
    ((n % 10) + 48) as char
}

/// A number in decimal.
pub open spec fn dec(n: nat) -> Seq<char>
    decreases n,
{
    if n < 10 {
        seq![digit(n)]
    } else {
        dec(n / 10).push(digit(n))
    }
}

/// A number in decimal holds digits alone.
pub proof fn lemma_dec_digits(n: nat, k: int)
    requires
        0 <= k < dec(n).len(),
    ensures
        '0' <= dec(n)[k] <= '9',
    decreases n,
{
    if n >= 10 && k < dec(n).len() - 1 {
        lemma_dec_digits(n / 10, k);
    }
}

/// Different numbers are different in decimal.
pub proof fn lemma_dec_names_one_number(a: nat, b: nat)
    requires
        dec(a) == dec(b),
    ensures
        a == b,
    decreases a,
{
    assert(dec(a).last() == digit(a) && dec(b).last() == digit(b));
    if a >= 10 && b >= 10 {
        assert(dec(a).drop_last() =~= dec(a / 10));
        assert(dec(b).drop_last() =~= dec(b / 10));
        lemma_dec_names_one_number(a / 10, b / 10);
    } else if a >= 10 {
        assert(dec(a / 10).len() > 0);
    } else if b >= 10 {
        assert(dec(b / 10).len() > 0);
    }
}

/// A number in decimal with zeros before it up to `width` characters.
pub open spec fn padded(n: nat, width: nat) -> Seq<char> {
    zeros((width - dec(n).len()) as int) + dec(n)
}

/// `k` zeros.
pub open spec fn zeros(k: int) -> Seq<char> {
    Seq::new(
        if k > 0 {
            k as nat
        } else {
            0
        },
        |i: int| '0',
    )
}

fn digit_char(n: u64) -> (r: char)
    ensures
        r == digit(n as nat),
{
    (48 + (n % 10) as u8) as char
}

/// A number in decimal.
pub fn decimal(n: u64) -> (r: String)
    ensures
        r@ == dec(n as nat),
{
    let mut digits: Vec<char> = Vec::new();
    let mut rest: u64 = n;
    while rest >= 10
        invariant
            dec(n as nat) == dec(rest as nat) + digits@.reverse(),
        decreases rest,
    {
        let ghost before = digits@;
        digits.push(digit_char(rest));
        assert(digits@.reverse() =~= seq![digit(rest as nat)] + before.reverse());
        assert(dec(n as nat) =~= dec(rest as nat / 10) + digits@.reverse());
        rest = rest / 10;
    }
    let mut out = String::new();
    out.push(digit_char(rest));
    assert(out@ =~= dec(rest as nat));
    let mut i: usize = digits.len();
    while i > 0
        invariant
            i <= digits@.len(),
            dec(n as nat) == out@ + digits@.take(i as int).reverse(),
        decreases i,
    {
        assert(digits@.take(i as int).reverse() =~= seq![digits@[i - 1]] + digits@.take(i - 1).reverse());
        i -= 1;
        out.push(digits[i]);
        assert(dec(n as nat) =~= out@ + digits@.take(i as int).reverse());
    }
    assert(dec(n as nat) =~= out@);
    out
}

/// A number in decimal, at least `width` characters wide.
pub fn padded_decimal(n: u64, width: usize) -> (r: String)
    ensures
        r@ == padded(n as nat, width as nat),
{
    let d = decimal(n);
    let len: usize = d.as_str().unicode_len();
    let mut out = String::new();
    let mut i: usize = len;
    assert(out@ =~= zeros(0));
    while i < width
        invariant
            len == dec(n as nat).len(),
            len <= i,
            i <= width || i == len,
            out@ == zeros(i - len),
        decreases width - i,
    {
        out.push('0');
        i += 1;
        assert(out@ =~= zeros(i - len));
    }
    assert(out@ =~= zeros(width - len));
    out.append(d.as_str());
    out
}

/// Digits in groups of three from the right, with commas between.
pub open spec fn grouped(s: Seq<char>) -> Seq<char>
    decreases s.len(),
{
    if s.len() <= 3 {
        s
    } else {
        grouped(s.take(s.len() - 3)).push(',') + s.skip(s.len() - 3)
    }
}

/// The first `i` digits of a number of `len` digits, grouped.
spec fn grouping(s: Seq<char>, len: int, i: int) -> Seq<char>
    decreases i,
{
    if i <= 0 {
        Seq::empty()
    } else {
        (if i > 1 && (len - (i - 1)) % 3 == 0 {
            grouping(s, len, i - 1).push(',')
        } else {
            grouping(s, len, i - 1)
        }).push(s[i - 1])
    }
}

proof fn lemma_grouping_prefix(s: Seq<char>, t: Seq<char>, len: int, i: int)
    requires
        0 <= i <= s.len(),
        i <= t.len(),
        s.take(i) == t.take(i),
    ensures
        grouping(s, len, i) == grouping(t, len, i),
    decreases i,
{
    if i > 0 {
        assert(s.take(i - 1) =~= s.take(i).take(i - 1));
        assert(t.take(i - 1) =~= t.take(i).take(i - 1));
        assert(s[i - 1] == s.take(i)[i - 1]);
        assert(t[i - 1] == t.take(i)[i - 1]);
        lemma_grouping_prefix(s, t, len, i - 1);
    }
}

proof fn lemma_grouping_shift(s: Seq<char>, len: int, i: int)
    ensures
        grouping(s, len, i) == grouping(s, len - 3, i),
    decreases i,
{
    if i > 0 {
        lemma_grouping_shift(s, len, i - 1);
        assert((len - (i - 1)) % 3 == (len - 3 - (i - 1)) % 3);
    }
}

proof fn lemma_grouped(s: Seq<char>)
    ensures
        grouping(s, s.len() as int, s.len() as int) == grouped(s),
    decreases s.len(),
{
    let n = s.len() as int;
    reveal_with_fuel(grouping, 4);
    if n <= 3 {
        assert(grouping(s, n, n) =~= grouped(s));
    } else {
        let head = s.take(n - 3);
        lemma_grouped(head);
        lemma_grouping_shift(s, n, n - 3);
        assert(s.take(n - 3) =~= head.take(n - 3));
        lemma_grouping_prefix(s, head, n - 3, n - 3);
        assert(grouping(s, n, n - 3) == grouped(head));
        assert((n - (n - 3)) % 3 == 0);
        assert(grouping(s, n, n - 2) == grouped(head).push(',').push(s[n - 3]));
        assert(grouping(s, n, n - 1) == grouping(s, n, n - 2).push(s[n - 2]));
        assert(grouping(s, n, n) == grouping(s, n, n - 1).push(s[n - 1]));
        assert(grouping(s, n, n) =~= grouped(s));
    }
}

/// Group digits with thousands separators: 278589 becomes `278,589`.
pub fn commas(n: u64) -> (r: String)
    ensures
        r@ == grouped(dec(n as nat)),
{
    let v = crate::text::chars_of(decimal(n).as_str());
    let len: usize = v.len();
    let mut out = String::new();
    let mut i: usize = 0;
    while i < len
        invariant
            len == v@.len(),
            i <= len,
            out@ == grouping(v@, len as int, i as int),
        decreases len - i,
    {
        if i > 0 && (len - i) % 3 == 0 {
            out.push(',');
        }
        out.push(v[i]);
        i += 1;
    }
    proof {
        lemma_grouped(v@);
    }
    out
}

/// The nearest integer to `a / b`; the even one of two that are equally near.
pub open spec fn round_half_even(a: nat, b: nat) -> nat {
    let q = a / b;
    let r = a % b;
    if 2 * r < b || (2 * r == b && q % 2 == 0) {
        q
    } else {
        q + 1
    }
}

/// The distance between neighbouring 53-bit floats around `n`.
pub open spec fn float_step(n: nat) -> nat
    decreases n,
{
    if n < 0x20_0000_0000_0000 {
        1
    } else {
        2 * float_step(n / 2)
    }
}

/// `n` as the nearest number of 53 significant bits, which is what a size is
/// reckoned with.
pub open spec fn as_float(n: nat) -> nat {
    round_half_even(n, float_step(n)) * float_step(n)
}

/// The unit a size is shown in: 0 for bytes up to 4 for terabytes, which also
/// takes what is larger.
pub open spec fn size_unit(v: nat) -> nat {
    if v < 0x400 {
        0
    } else if v < 0x10_0000 {
        1
    } else if v < 0x4000_0000 {
        2
    } else if v < 0x100_0000_0000 {
        3
    } else {
        4
    }
}

/// The bytes in one unit.
pub open spec fn unit_bytes(unit: nat) -> nat {
    if unit == 0 {
        1
    } else if unit == 1 {
        0x400
    } else if unit == 2 {
        0x10_0000
    } else if unit == 3 {
        0x4000_0000
    } else {
        0x100_0000_0000
    }
}

/// The unit's label with the space before it.
pub open spec fn unit_label(unit: nat) -> Seq<char> {
    if unit == 0 {
        " B"@
    } else if unit == 1 {
        " KB"@
    } else if unit == 2 {
        " MB"@
    } else if unit == 3 {
        " GB"@
    } else {
        " TB"@
    }
}

/// A number of tenths with one decimal.
pub open spec fn tenths(t: nat) -> Seq<char> {
    dec(t / 10).push('.').push(digit(t))
}

/// A size in the largest unit that it fills, from kilobytes on with one decimal.
pub open spec fn human_size_spec(bytes: nat) -> Seq<char> {
    let v = as_float(bytes);
    let unit = size_unit(v);
    if unit == 0 {
        dec(bytes) + unit_label(0)
    } else {
        tenths(round_half_even(10 * v, unit_bytes(unit))) + unit_label(unit)
    }
}

proof fn lemma_float_step(n: nat)
    requires
        n <= u64::MAX,
    ensures
        1 <= float_step(n) <= 2048,
        n < 0x20_0000_0000_0000 ==> float_step(n) == 1,
{
    reveal_with_fuel(float_step, 13);
}

/// Rounds to 53 significant bits.
fn to_float(n: u64) -> (r: u128)
    ensures
        r == as_float(n as nat),
        r <= 0x1_0000_0000_0000_0000,
        n < 0x400 ==> r == n,
{
    let mut step: u64 = 1;
    let mut m: u64 = n;
    proof {
        lemma_float_step(n as nat);
    }
    while m >= 0x20_0000_0000_0000
        invariant
            1 <= step,
            step * float_step(m as nat) == float_step(n as nat),
            float_step(n as nat) <= 2048,
        decreases m,
    {
        assert(float_step(m as nat) == 2 * float_step((m / 2) as nat));
        assert(step * (2 * float_step((m / 2) as nat)) == (step * 2) * float_step((m / 2) as nat))
            by (nonlinear_arith);
        assert(step * 2 <= 2048) by {
            lemma_float_step((m / 2) as nat);
            assert((step * 2) * float_step((m / 2) as nat) >= step * 2) by (nonlinear_arith)
                requires
                    float_step((m / 2) as nat) >= 1,
            ;
        }
        m = m / 2;
        step = step * 2;
    }
    assert(float_step(m as nat) == 1);
    assert(step == float_step(n as nat)) by (nonlinear_arith)
        requires
            step * float_step(m as nat) == float_step(n as nat),
            float_step(m as nat) == 1,
    ;
    let q: u64 = n / step;
    let rem: u64 = n % step;
    let up = !(2 * rem < step || (2 * rem == step && q % 2 == 0));
    let units: u128 = if up {
        q as u128 + 1
    } else {
        q as u128
    };
    proof {
        assert(n == q * step + rem) by (nonlinear_arith)
            requires
                q == n / step,
                rem == n % step,
                step >= 1,
        ;
        assert(units * step <= n + 2048) by (nonlinear_arith)
            requires
                units <= q + 1,
                n == q * step + rem,
                0 <= rem,
                step <= 2048,
        ;
        lemma_float_bound(n as nat);
    }
    let r: u128 = units * (step as u128);
    r
}

proof fn lemma_float_bound(n: nat)
    requires
        n <= u64::MAX,
    ensures
        as_float(n) <= 0x1_0000_0000_0000_0000,
{
    let s = float_step(n);
    reveal_with_fuel(float_step, 13);
    lemma_float_step(n);
    if n >= 0x20_0000_0000_0000 {
        assert(s == 2 || s == 4 || s == 8 || s == 16 || s == 32 || s == 64 || s == 128 || s == 256 || s == 512 || s
            == 1024 || s == 2048);
        let q = n / s;
        assert(q + 1 <= 0x1_0000_0000_0000_0000nat / s);
        assert((q + 1) * s <= 0x1_0000_0000_0000_0000);
        assert(round_half_even(n, s) * s <= (q + 1) * s) by (nonlinear_arith)
            requires
                round_half_even(n, s) <= q + 1,
        ;
    }
}

fn rounded(a: u128, b: u128) -> (r: u128)
    requires
        0 < b,
        a < 0x1_0000_0000_0000_0000_0000,
        b <= 0x100_0000_0000,
    ensures
        r == round_half_even(a as nat, b as nat),
{
    let q: u128 = a / b;
    let rem: u128 = a % b;
    assert(q <= a) by (nonlinear_arith)
        requires
            q == a / b,
            b > 0,
    ;
    if 2 * rem < b || (2 * rem == b && q % 2 == 0) {
        q
    } else {
        q + 1
    }
}

/// A byte count in 1024-based steps labelled the way Windows Explorer labels
/// them: `512 B`, `1.5 KB`, up to `TB`.
pub fn human_size(bytes: u64) -> (r: String)
    ensures
        r@ == human_size_spec(bytes as nat),
{
    let v = to_float(bytes);
    if v < 0x400 {
        proof {
            lemma_float_step(bytes as nat);
        }
        let mut out = decimal(bytes);
        out.append(" B");
        return out;
    }
    let (b, label): (u128, &str) = if v < 0x10_0000 {
        (0x400, " KB")
    } else if v < 0x4000_0000 {
        (0x10_0000, " MB")
    } else if v < 0x100_0000_0000 {
        (0x4000_0000, " GB")
    } else {
        (0x100_0000_0000, " TB")
    };
    let t: u128 = rounded(10 * v, b);
    proof {
        lemma_tenths_small(10 * v as nat, b as nat);
    }
    let mut out = decimal((t / 10) as u64);
    out.push('.');
    out.push(digit_char((t % 10) as u64));
    out.append(label);
    out
}

proof fn lemma_tenths_small(a: nat, b: nat)
    requires
        a <= 10 * 0x1_0000_0000_0000_0000,
        b >= 0x400,
    ensures
        round_half_even(a, b) / 10 <= u64::MAX,
{
    assert(a / b <= a / 0x400) by (nonlinear_arith)
        requires
            b >= 0x400,
    ;
}

/// Decimal digits: a number below ten is the one character that many places behind
/// `0`, and every further digit is written behind the others.
pub proof fn law_decimal_digits(n: nat, d: nat)
    requires
        d < 10,
    ensures
        dec(d) == seq![('0' as int + d) as char],
        n > 0 ==> dec(10 * n + d) == dec(n).push(('0' as int + d) as char),
{
    if n > 0 {
        assert((10 * n + d) / 10 == n && (10 * n + d) % 10 == d);
    }
}

proof fn lemma_nearest(a: nat, b: nat)
    requires
        b > 0,
    ensures
        2 * (round_half_even(a, b) * b) <= 2 * a + b,
        2 * a <= 2 * (round_half_even(a, b) * b) + b,
        2 * (round_half_even(a, b) * b) == 2 * a + b || 2 * a == 2 * (round_half_even(a, b) * b) + b ==> round_half_even(a, b)
            % 2 == 0,
{
    let q = a / b;
    let r = a % b;
    vstd::arithmetic::div_mod::lemma_fundamental_div_mod(a as int, b as int);
    assert(a == b * q + r);
    assert(q * b == b * q) by (nonlinear_arith);
    assert((q + 1) * b == b * q + b) by (nonlinear_arith);
}

/// The size of a number of bytes below 2^53, which a float holds exactly: below
/// 1024 it is said in bytes; from there on in units of 1024, 1024², 1024³ or 1024⁴
/// bytes, the largest that it fills, as the nearest tenth of that unit.
pub proof fn law_size_in_its_unit(bytes: nat)
    requires
        bytes < 0x20_0000_0000_0000,
    ensures
        bytes < 1024 ==> human_size_spec(bytes) == dec(bytes) + " B"@,
        1024 <= bytes < 1024 * 1024 ==> is_nearest_tenth(human_size_spec(bytes), bytes, 1024, " KB"@),
        1024 * 1024 <= bytes < 1024 * 1024 * 1024 ==> is_nearest_tenth(
            human_size_spec(bytes),
            bytes,
            1024 * 1024,
            " MB"@,
        ),
        1024 * 1024 * 1024 <= bytes < 1024 * 1024 * 1024 * 1024 ==> is_nearest_tenth(
            human_size_spec(bytes),
            bytes,
            1024 * 1024 * 1024,
            " GB"@,
        ),
        1024 * 1024 * 1024 * 1024 <= bytes ==> is_nearest_tenth(
            human_size_spec(bytes),
            bytes,
            1024 * 1024 * 1024 * 1024,
            " TB"@,
        ),
{
    assert(as_float(bytes) == bytes) by {
        assert(float_step(bytes) == 1);
        assert(bytes / 1 == bytes && bytes % 1 == 0);
    }
    let unit = unit_bytes(size_unit(bytes));
    lemma_nearest(10 * bytes, unit);
    let t = round_half_even(10 * bytes, unit);
    if bytes >= 1024 {
        assert(human_size_spec(bytes) == dec(t / 10).push('.').push(('0' as int + t % 10) as char) + unit_label(
            size_unit(bytes),
        ));
        assert(near(t, bytes, unit));
    }
}

/// `t` tenths of a unit are as near to the bytes as tenths can be, and of two that
/// are as near the even one.
pub open spec fn near(t: nat, bytes: nat, unit: nat) -> bool {
    &&& 2 * (t * unit) <= 20 * bytes + unit && 20 * bytes <= 2 * (t * unit) + unit
    &&& 2 * (t * unit) == 20 * bytes + unit || 20 * bytes == 2 * (t * unit) + unit ==> t % 2 == 0
}

/// The text says a number of tenths of a unit that is as near to the bytes as
/// tenths can be, with one decimal and the unit's name.
pub open spec fn is_nearest_tenth(s: Seq<char>, bytes: nat, unit: nat, name: Seq<char>) -> bool {
    exists|t: nat| #[trigger]
        near(t, bytes, unit) && s == dec(t / 10).push('.').push(('0' as int + t % 10) as char) + name
}

/// Without its commas a grouped number is the number, and the commas part it into
/// threes from the right.
pub proof fn law_groups_of_three(s: Seq<char>)
    ensures
        s.len() <= 3 ==> grouped(s) == s,
        s.len() > 3 ==> grouped(s) == grouped(s.take(s.len() - 3)) + seq![','] + s.skip(s.len() - 3),
{
    if s.len() > 3 {
        assert(grouped(s) =~= grouped(s.take(s.len() - 3)) + seq![','] + s.skip(s.len() - 3));
    }
}

} // verus!
