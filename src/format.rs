use vstd::prelude::*;
use vstd::string::StringExecFns;
use crate::num::Decimal;

verus! {

pub open spec fn digit_char(d: nat) -> char {
    if d == 0 { '0' } else if d == 1 { '1' } else if d == 2 { '2' } else if d == 3 { '3' }
    else if d == 4 { '4' } else if d == 5 { '5' } else if d == 6 { '6' } else if d == 7 { '7' }
    else if d == 8 { '8' } else { '9' }
}

/// The decimal digits of `n`, with no leading zero.
pub open spec fn digits_of(n: nat) -> Seq<char>
    decreases n,
{
    if n < 10 {
        seq![digit_char(n)]
    } else {
        digits_of(n / 10).push(digit_char(n % 10))
    }
}

/// The last `w` decimal digits of `n`, zeros included.
pub open spec fn padded(n: nat, w: nat) -> Seq<char>
    decreases w,
{
    if w == 0 {
        Seq::empty()
    } else {
        padded(n / 10, (w - 1) as nat).push(digit_char(n % 10))
    }
}

/// `n` without its last `w` decimal digits.
pub open spec fn shift(n: nat, w: nat) -> nat
    decreases w,
{
    if w == 0 {
        n
    } else {
        shift(n / 10, (w - 1) as nat)
    }
}

/// An integer in text.
pub open spec fn int_text(v: int) -> Seq<char> {
    if v < 0 {
        seq!['-'] + digits_of((-v) as nat)
    } else {
        digits_of(v as nat)
    }
}

/// A decimal in text: its sign, its whole part, and `.` and its fraction where the scale
/// is not zero.
pub open spec fn decimal_text(d: Decimal) -> Seq<char> {
    let m = d.mantissa as int;
    let n = (if m < 0 { -m } else { m }) as nat;
    let s = d.scale as nat;
    let sign = if m < 0 { seq!['-'] } else { Seq::<char>::empty() };
    if s == 0 {
        sign + digits_of(n)
    } else {
        sign + digits_of(shift(n, s)) + seq!['.'] + padded(n, s)
    }
}

/// A flag in text.
pub open spec fn flag_text(b: bool) -> Seq<char> {
    if b { seq!['1'] } else { seq!['0'] }
}

fn digit_str(d: u64) -> (r: &'static str)
    requires
        d < 10,
    ensures
        r@ == seq![digit_char(d as nat)],
{
    proof {
        reveal_strlit("0");
        reveal_strlit("1");
        reveal_strlit("2");
        reveal_strlit("3");
        reveal_strlit("4");
        reveal_strlit("5");
        reveal_strlit("6");
        reveal_strlit("7");
        reveal_strlit("8");
        reveal_strlit("9");
    }
    let r = if d == 0 { "0" } else if d == 1 { "1" } else if d == 2 { "2" } else if d == 3 { "3" }
    else if d == 4 { "4" } else if d == 5 { "5" } else if d == 6 { "6" } else if d == 7 { "7" }
    else if d == 8 { "8" } else { "9" };
    assert(r@ =~= seq![digit_char(d as nat)]);
    r
}

fn append_digits(out: &mut String, n: u64)
    ensures
        final(out)@ == old(out)@ + digits_of(n as nat),
    decreases n,
{
    if n >= 10 {
        append_digits(out, n / 10);
    }
    out.append(digit_str(n % 10));
    assert(final(out)@ =~= old(out)@ + digits_of(n as nat));
}

fn append_padded(out: &mut String, n: u64, w: u64)
    ensures
        final(out)@ == old(out)@ + padded(n as nat, w as nat),
    decreases w,
{
    if w > 0 {
        append_padded(out, n / 10, w - 1);
        out.append(digit_str(n % 10));
        assert(final(out)@ =~= old(out)@ + padded(n as nat, w as nat));
    } else {
        assert(final(out)@ =~= old(out)@ + padded(n as nat, w as nat));
    }
}

proof fn lemma_shift_zero(w: nat)
    ensures
        shift(0, w) == 0,
    decreases w,
{
    if w > 0 {
        lemma_shift_zero((w - 1) as nat);
    }
}

/// The last `w` digits of `n` as text, zeros included.
pub fn padded_string(n: u64, w: u64) -> (r: String)
    ensures
        r@ == padded(n as nat, w as nat),
{
    let mut out = String::new();
    append_padded(&mut out, n, w);
    assert(out@ =~= padded(n as nat, w as nat));
    out
}

/// The number of decimal digits of `n`.
pub fn digit_count(n: u64) -> (r: u64)
    ensures
        r as nat == digits_of(n as nat).len(),
    decreases n,
{
    if n < 10 {
        1
    } else {
        proof {
            lemma_digit_count_bound((n / 10) as nat);
        }
        digit_count(n / 10) + 1
    }
}

proof fn lemma_digit_count_bound(n: nat)
    ensures
        digits_of(n).len() <= n + 1,
        n >= 10 ==> digits_of(n).len() == digits_of(n / 10).len() + 1,
    decreases n,
{
    if n >= 10 {
        lemma_digit_count_bound(n / 10);
    }
}

/// A natural number as text.
pub fn nat_string(n: u64) -> (r: String)
    ensures
        r@ == digits_of(n as nat),
{
    let mut out = String::new();
    append_digits(&mut out, n);
    assert(out@ =~= digits_of(n as nat));
    out
}

/// An integer as text.
pub fn int_string(v: i64) -> (r: String)
    ensures
        r@ == int_text(v as int),
{
    let mut out = String::new();
    if v < 0 {
        out.append("-");
        proof {
            reveal_strlit("-");
        }
        let n: u64 = ((-(v + 1)) as u64) + 1;
        append_digits(&mut out, n);
    } else {
        append_digits(&mut out, v as u64);
    }
    assert(out@ =~= int_text(v as int));
    out
}

/// A decimal as text, such as `-0.05` for mantissa -5 and scale 2.
pub fn decimal_string(d: Decimal) -> (r: String)
    ensures
        r@ == decimal_text(d),
{
    let m = d.mantissa;
    let n: u64 = if m < 0 { ((-(m + 1)) as u64) + 1 } else { m as u64 };
    let mut out = String::new();
    proof {
        reveal_strlit("-");
        reveal_strlit(".");
    }
    if m < 0 {
        out.append("-");
    }
    let ghost sign = out@;
    let mut q = n;
    let mut k: u32 = 0;
    while k < d.scale && q > 0
        invariant
            k <= d.scale,
            shift(q as nat, (d.scale - k) as nat) == shift(n as nat, d.scale as nat),
        decreases d.scale - k,
    {
        q = q / 10;
        k = k + 1;
    }
    if k < d.scale {
        proof {
            lemma_shift_zero((d.scale - k) as nat);
        }
    }
    append_digits(&mut out, q);
    if d.scale > 0 {
        out.append(".");
        append_padded(&mut out, n, d.scale as u64);
    }
    assert(out@ =~= decimal_text(d));
    out
}

/// A flag as text.
pub fn flag_string(b: bool) -> (r: String)
    ensures
        r@ == flag_text(b),
{
    proof {
        reveal_strlit("1");
        reveal_strlit("0");
    }
    let r = String::from_str(if b { "1" } else { "0" });
    assert(r@ =~= flag_text(b));
    r
}

} // verus!
