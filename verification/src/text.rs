//! The text of numbers and lists, as messages show them.

use vstd::arithmetic::power2::{lemma2_to64, lemma_pow2_adds, lemma_pow2_pos, lemma_pow2_strictly_increases, pow2};
use vstd::prelude::*;
use vstd::string::*;

use crate::single::{shift, split, Single, INFINITY, SIGN};
use crate::single::{lemma_aligned, lemma_div_cancel, magnitude};

verus! {

/// The text of one decimal digit.
pub open spec fn digit_text(d: nat) -> Seq<char> {
    if d == 0 {
        "0"@
    } else if d == 1 {
        "1"@
    } else if d == 2 {
        "2"@
    } else if d == 3 {
        "3"@
    } else if d == 4 {
        "4"@
    } else if d == 5 {
        "5"@
    } else if d == 6 {
        "6"@
    } else if d == 7 {
        "7"@
    } else if d == 8 {
        "8"@
    } else {
        "9"@
    }
}

/// A number in decimal, without leading zeros.
pub open spec fn decimal(n: nat) -> Seq<char>
    decreases n,
{
    if n < 10 {
        digit_text(n)
    } else {
        decimal(n / 10) + digit_text(n % 10)
    }
}

/// The ids between commas, up to the `k`-th.
pub open spec fn comma_separated(ids: Seq<u32>, k: nat) -> Seq<char>
    decreases k,
{
    if k == 0 {
        ""@
    } else if k == 1 {
        decimal(ids[0] as nat)
    } else {
        comma_separated(ids, (k - 1) as nat) + ", "@ + decimal(ids[k - 1] as nat)
    }
}

/// A list of ids in square brackets.
pub open spec fn id_list(ids: Seq<u32>) -> Seq<char> {
    "["@ + comma_separated(ids, ids.len()) + "]"@
}

pub open spec fn truth_text(b: bool) -> Seq<char> {
    if b { "true"@ } else { "false"@ }
}

/// `a / b` to the nearest whole number, a half going to the even one.
pub open spec fn half_even(a: nat, b: nat) -> nat {
    if 2 * (a % b) > b || (2 * (a % b) == b && (a / b) % 2 == 1) {
        a / b + 1
    } else {
        a / b
    }
}

/// A number with its fraction rounded off.
pub open spec fn rounded_text(x: Single) -> Seq<char> {
    if x.nan() {
        "NaN"@
    } else {
        (if x.negative() { "-"@ } else { ""@ }) + (if x.infinite() {
            "inf"@
        } else {
            decimal(half_even(magnitude(x.unsigned()), pow2(149)))
        })
    }
}

/// A number with two digits after the point.
pub open spec fn hundredths_text(x: Single) -> Seq<char> {
    if x.nan() {
        "NaN"@
    } else {
        (if x.negative() { "-"@ } else { ""@ }) + (if x.infinite() {
            "inf"@
        } else {
            let n = half_even(100 * magnitude(x.unsigned()), pow2(149));
            decimal(n / 100) + "."@ + digit_text(n / 10 % 10) + digit_text(n % 10)
        })
    }
}

/// Whether the string holds exactly this text.
pub fn is_text(s: &String, t: &str) -> (b: bool)
    ensures
        b == (s@ == t@),
{
    *s == t.to_string()
}

fn push_digit(s: &mut String, d: u8)
    requires
        d < 10,
    ensures
        final(s)@ == old(s)@ + digit_text(d as nat),
{
    if d == 0 {
        s.append("0");
    } else if d == 1 {
        s.append("1");
    } else if d == 2 {
        s.append("2");
    } else if d == 3 {
        s.append("3");
    } else if d == 4 {
        s.append("4");
    } else if d == 5 {
        s.append("5");
    } else if d == 6 {
        s.append("6");
    } else if d == 7 {
        s.append("7");
    } else if d == 8 {
        s.append("8");
    } else {
        s.append("9");
    }
}

/// Appends a number in decimal.
pub fn push_decimal(s: &mut String, n: u128)
    ensures
        final(s)@ == old(s)@ + decimal(n as nat),
    decreases n,
{
    if n >= 10 {
        push_decimal(s, n / 10);
        proof {
            assert(decimal(n as nat) == decimal((n / 10) as nat) + digit_text((n % 10) as nat));
        }
        push_digit(s, (n % 10) as u8);
        assert(s@ =~= old(s)@ + decimal(n as nat));
    } else {
        push_digit(s, n as u8);
    }
}

/// Appends a list of ids in square brackets.
pub fn push_id_list(s: &mut String, ids: &Vec<u32>)
    ensures
        final(s)@ == old(s)@ + id_list(ids@),
{
    s.append("[");
    let mut k: usize = 0;
    proof {
        reveal_strlit("");
        assert(""@ =~= Seq::<char>::empty());
        assert(s@ =~= old(s)@ + "["@ + comma_separated(ids@, 0));
    }
    while k < ids.len()
        invariant
            k <= ids.len(),
            s@ == old(s)@ + "["@ + comma_separated(ids@, k as nat),
        decreases ids.len() - k,
    {
        proof {
            reveal_strlit("");
            assert(""@ =~= Seq::<char>::empty());
        }
        if k > 0 {
            s.append(", ");
        }
        push_decimal(s, ids[k] as u128);
        k = k + 1;
        assert(s@ =~= old(s)@ + "["@ + comma_separated(ids@, k as nat));
    }
    s.append("]");
    assert(s@ =~= old(s)@ + id_list(ids@));
}

pub fn push_truth(s: &mut String, b: bool)
    ensures
        final(s)@ == old(s)@ + truth_text(b),
{
    if b {
        s.append("true");
    } else {
        s.append("false");
    }
}

proof fn lemma_half_even_cancels(a: nat, b: nat, q: nat)
    requires
        b > 0,
        q > 0,
    ensures
        half_even(a * q, b * q) == half_even(a, b),
{
    lemma_div_cancel(a as int, b as int, q as int);
    let d = a / b;
    let r = a % b;
    vstd::arithmetic::div_mod::lemma_fundamental_div_mod(a as int, b as int);
    assert(b * q > 0) by (nonlinear_arith)
        requires b > 0, q > 0;
    vstd::arithmetic::div_mod::lemma_fundamental_div_mod((a * q) as int, (b * q) as int);
    let k = (a * q) % (b * q);
    assert(k == r * q) by (nonlinear_arith)
        requires
            a == b * d + r,
            a * q == (b * q) * d + k;
    assert(2 * (r * q) > b * q <==> 2 * r > b) by (nonlinear_arith)
        requires q > 0;
    assert(2 * (r * q) == b * q <==> 2 * r == b) by (nonlinear_arith)
        requires q > 0;
}

/// A pattern of a whole number stands for `v` ones.
proof fn lemma_whole_scaled(v: nat, scale: nat)
    ensures
        half_even(scale * (v * pow2(149)), pow2(149)) == scale * v,
{
    lemma_pow2_pos(149);
    let p = pow2(149);
    assert(scale * (v * p) == (scale * v) * p) by (nonlinear_arith);
    lemma_half_even_cancels(scale * v, 1, p);
    assert(1 * p == p);
    assert((scale * v) / 1 == scale * v && (scale * v) % 1 == 0);
}

/// `scale` times a magnitude of `m` steps of 2^e units, in whole ones, a half going to the even
/// one.
fn fraction_part(m: u128, e: u32, scale: u128) -> (w: u128)
    requires
        m < 0x100_0000,
        e < 149,
        scale <= 100,
    ensures
        w == half_even(scale as nat * (m as nat * pow2(e as nat)), pow2(149)),
{
    let t: u32 = 149 - e;
    assert(m * scale < 0x1_0000_0000) by (nonlinear_arith)
        requires m < 0x100_0000, scale <= 100;
    let a: u128 = m * scale;
    let ghost p = pow2(e as nat);
    proof {
        lemma2_to64();
        lemma_pow2_pos(e as nat);
        lemma_pow2_adds(t as nat, e as nat);
        assert(scale * (m * p) == a * p) by (nonlinear_arith)
            requires a == m * scale;
        lemma_pow2_pos(t as nat);
        lemma_half_even_cancels(a as nat, pow2(t as nat), p);
    }
    if t > 100 {
        proof {
            lemma_pow2_strictly_increases(64, t as nat);
            let b = pow2(t as nat);
            assert(a as nat / b == 0 && a as nat % b == a) by (nonlinear_arith)
                requires 0 <= a < b;
        }
        return 0;
    }
    let b: u128 = shift(1, t);
    assert(b == pow2(t as nat)) by (nonlinear_arith)
        requires b == 1 * pow2(t as nat);
    let q: u128 = a / b;
    let r: u128 = a % b;
    assert(q <= a) by (nonlinear_arith)
        requires q == a / b, b > 0;
    if 2 * r > b || (2 * r == b && q % 2 == 1) { q + 1 } else { q }
}

/// Appends a number with its fraction rounded off.
pub fn push_rounded(s: &mut String, x: Single)
    ensures
        final(s)@ == old(s)@ + rounded_text(x),
{
    if x.is_nan() {
        s.append("NaN");
        return;
    }
    proof {
        reveal_strlit("");
        assert(""@ =~= Seq::<char>::empty());
    }
    if x.bits >= SIGN {
        s.append("-");
    }
    let n: u32 = x.bits % SIGN;
    if n == INFINITY {
        s.append("inf");
        assert(s@ =~= old(s)@ + rounded_text(x));
        return;
    }
    let (m, e) = split(n);
    if e >= 149 {
        let v: u128 = shift(m, e - 149);
        proof {
            lemma_aligned(m as nat, e as nat, 149);
            lemma_whole_scaled(v as nat, 1);
            assert(1 * magnitude(n as nat) == magnitude(n as nat));
        }
        push_decimal(s, v);
    } else {
        let w: u128 = fraction_part(m, e, 1);
        assert(1 * magnitude(n as nat) == magnitude(n as nat));
        push_decimal(s, w);
    }
    assert(s@ =~= old(s)@ + rounded_text(x));
}

/// Appends a number with two digits after the point.
pub fn push_hundredths(s: &mut String, x: Single)
    ensures
        final(s)@ == old(s)@ + hundredths_text(x),
{
    if x.is_nan() {
        s.append("NaN");
        return;
    }
    proof {
        reveal_strlit("");
        assert(""@ =~= Seq::<char>::empty());
    }
    if x.bits >= SIGN {
        s.append("-");
    }
    let n: u32 = x.bits % SIGN;
    if n == INFINITY {
        s.append("inf");
        assert(s@ =~= old(s)@ + hundredths_text(x));
        return;
    }
    let (m, e) = split(n);
    if e >= 149 {
        let v: u128 = shift(m, e - 149);
        proof {
            lemma_aligned(m as nat, e as nat, 149);
            lemma_whole_scaled(v as nat, 100);
            assert((100 * v) / 100 == v && (100 * v) % 10 == 0 && (100 * v) / 10 % 10 == 0);
        }
        push_decimal(s, v);
        s.append(".");
        push_digit(s, 0);
        push_digit(s, 0);
    } else {
        let w: u128 = fraction_part(m, e, 100);
        push_decimal(s, w / 100);
        s.append(".");
        push_digit(s, (w / 10 % 10) as u8);
        push_digit(s, (w % 10) as u8);
    }
    assert(s@ =~= old(s)@ + hundredths_text(x));
}

/// The characters that Unicode counts as white space.
pub open spec fn white(c: char) -> bool {
    ||| '\u{9}' <= c && c <= '\u{d}'
    ||| c == ' '
    ||| c == '\u{85}'
    ||| c == '\u{a0}'
    ||| c == '\u{1680}'
    ||| '\u{2000}' <= c && c <= '\u{200a}'
    ||| c == '\u{2028}'
    ||| c == '\u{2029}'
    ||| c == '\u{202f}'
    ||| c == '\u{205f}'
    ||| c == '\u{3000}'
}

/// The text without the white space at its start.
pub open spec fn without_lead(s: Seq<char>) -> Seq<char>
    decreases s.len(),
{
    if s.len() > 0 && white(s[0]) {
        without_lead(s.skip(1))
    } else {
        s
    }
}

/// The text without the white space at its end.
pub open spec fn without_tail(s: Seq<char>) -> Seq<char>
    decreases s.len(),
{
    if s.len() > 0 && white(s.last()) {
        without_tail(s.drop_last())
    } else {
        s
    }
}

/// The text without the white space around it.
pub open spec fn trimmed(s: Seq<char>) -> Seq<char> {
    without_tail(without_lead(s))
}

fn is_white(c: char) -> (b: bool)
    ensures
        b == white(c),
{
    (c >= '\u{9}' && c <= '\u{d}') || c == ' ' || c == '\u{85}' || c == '\u{a0}' || c == '\u{1680}' || (c >= '\u{2000}'
        && c <= '\u{200a}') || c == '\u{2028}' || c == '\u{2029}' || c == '\u{202f}' || c == '\u{205f}' || c == '\u{3000}'
}

/// The text without the white space around it.
pub fn trim<'a>(s: &'a str) -> (t: &'a str)
    ensures
        t@ == trimmed(s@),
{
    let len: usize = s.unicode_len();
    let mut from: usize = 0;
    assert(s@.skip(0) =~= s@);
    while from < len && is_white(s.get_char(from))
        invariant
            from <= len,
            len == s@.len(),
            without_lead(s@.skip(from as int)) == without_lead(s@),
        decreases len - from,
    {
        assert(s@.skip(from as int).skip(1) =~= s@.skip(from + 1));
        from = from + 1;
    }
    let ghost rest = s@.skip(from as int);
    assert(without_lead(s@) == rest);
    let mut to: usize = len;
    assert(s@.subrange(from as int, len as int) =~= rest);
    while to > from && is_white(s.get_char(to - 1))
        invariant
            from <= to <= len,
            len == s@.len(),
            without_tail(s@.subrange(from as int, to as int)) == without_tail(rest),
        decreases to,
    {
        assert(s@.subrange(from as int, to as int).drop_last() =~= s@.subrange(from as int, to - 1));
        to = to - 1;
    }
    s.substring_char(from, to)
}

/// What is left of a text has no white space at its ends.
pub proof fn law_trimmed(s: Seq<char>)
    ensures
        trimmed(s).len() > 0 ==> !white(trimmed(s)[0]) && !white(trimmed(s).last()),
        trimmed(s).len() == 0 <==> forall|i: int| 0 <= i < s.len() ==> white(#[trigger] s[i]),
{
    lemma_lead(s);
    lemma_tail(without_lead(s));
}

proof fn lemma_lead(s: Seq<char>)
    ensures
        without_lead(s).len() > 0 ==> !white(without_lead(s)[0]),
        without_lead(s).len() == 0 <==> forall|i: int| 0 <= i < s.len() ==> white(#[trigger] s[i]),
    decreases s.len(),
{
    if s.len() > 0 && white(s[0]) {
        lemma_lead(s.skip(1));
        assert forall|i: int| 0 <= i < s.len() && without_lead(s).len() == 0 implies white(#[trigger] s[i]) by {
            if i > 0 {
                assert(s.skip(1)[i - 1] == s[i]);
            }
        }
    }
}

proof fn lemma_tail(s: Seq<char>)
    ensures
        without_tail(s).len() > 0 ==> without_tail(s)[0] == s[0] && !white(without_tail(s).last()),
        without_tail(s).len() == 0 <==> forall|i: int| 0 <= i < s.len() ==> white(#[trigger] s[i]),
    decreases s.len(),
{
    if s.len() > 0 && white(s.last()) {
        lemma_tail(s.drop_last());
        assert forall|i: int| 0 <= i < s.len() && without_tail(s).len() == 0 implies white(#[trigger] s[i]) by {
            if i < s.len() - 1 {
                assert(s.drop_last()[i] == s[i]);
            }
        }
    }
}

} // verus!
