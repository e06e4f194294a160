use vstd::prelude::*;
use crate::text::{chars_of, first_index, lemma_first_index_bounds};

verus! {

pub open spec fn is_digit(c: char) -> bool {
    '0' <= c && c <= '9'
}

pub open spec fn all_digits(s: Seq<char>) -> bool {
    forall|i: int| 0 <= i < s.len() ==> is_digit(#[trigger] s[i])
}

/// The number that the decimal digits `s` spell.
pub open spec fn digits_val(s: Seq<char>) -> int
    decreases s.len(),
{
    if s.len() == 0 {
        0
    } else {
        digits_val(s.drop_last()) * 10 + (s.last() as int - '0' as int)
    }
}

/// A non-empty run of decimal digits, and its value.
pub open spec fn nat_spec(s: Seq<char>) -> Option<int> {
    if s.len() > 0 && all_digits(s) {
        Some(digits_val(s))
    } else {
        None
    }
}

/// An unsigned integer in text: an optional `+` and decimal digits.
pub open spec fn unsigned_spec(s: Seq<char>) -> Option<int> {
    if s.len() > 0 && s[0] == '+' {
        nat_spec(s.drop_first())
    } else {
        nat_spec(s)
    }
}

/// A signed integer in text: an optional `+` or `-` and decimal digits.
pub open spec fn signed_spec(s: Seq<char>) -> Option<int> {
    if s.len() > 0 && s[0] == '-' {
        match nat_spec(s.drop_first()) {
            Some(v) => Some(-v),
            None => None,
        }
    } else {
        unsigned_spec(s)
    }
}

/// `v` where it lies in `lo..=hi`.
pub open spec fn within(v: Option<int>, lo: int, hi: int) -> Option<int> {
    match v {
        Some(x) => if lo <= x <= hi { Some(x) } else { None },
        None => None,
    }
}

pub proof fn lemma_digits_val_nonneg(s: Seq<char>)
    requires
        all_digits(s),
    ensures
        digits_val(s) >= 0,
    decreases s.len(),
{
    if s.len() > 0 {
        assert(all_digits(s.drop_last())) by {
            assert forall|i: int| 0 <= i < s.drop_last().len() implies is_digit(
                #[trigger] s.drop_last()[i],
            ) by {
                assert(s.drop_last()[i] == s[i]);
            }
        }
        lemma_digits_val_nonneg(s.drop_last());
        assert(is_digit(s[s.len() - 1]));
    }
}

pub proof fn lemma_digits_val_prefix(s: Seq<char>, k: int)
    requires
        all_digits(s),
        0 <= k <= s.len(),
    ensures
        digits_val(s.subrange(0, k)) <= digits_val(s),
    decreases s.len(),
{
    if k < s.len() {
        let t = s.drop_last();
        assert(all_digits(t)) by {
            assert forall|i: int| 0 <= i < t.len() implies is_digit(#[trigger] t[i]) by {
                assert(t[i] == s[i]);
            }
        }
        lemma_digits_val_prefix(t, k);
        assert(t.subrange(0, k) =~= s.subrange(0, k));
        lemma_digits_val_nonneg(t);
        assert(is_digit(s[s.len() - 1]));
    } else {
        assert(s.subrange(0, k) =~= s);
    }
}

/// Reads the digits `cs[lo..hi]` after the digits `prefix`, whose value is `acc`, while the
/// value stays within `limit`.
fn accumulate(cs: &Vec<char>, lo: usize, hi: usize, acc: u64, limit: u64, Ghost(prefix): Ghost<
    Seq<char>,
>) -> (r: Option<u64>)
    requires
        lo <= hi <= cs.len(),
        all_digits(prefix),
        all_digits(cs@.subrange(lo as int, hi as int)),
        acc == digits_val(prefix),
    ensures
        ({
            let v = digits_val(prefix + cs@.subrange(lo as int, hi as int));
            match r {
                Some(x) => x == v && v <= limit,
                None => v > limit,
            }
        }),
{
    let ghost whole = prefix + cs@.subrange(lo as int, hi as int);
    assert(all_digits(whole)) by {
        assert forall|j: int| 0 <= j < whole.len() implies is_digit(#[trigger] whole[j]) by {
            if j >= prefix.len() {
                assert(whole[j] == cs@.subrange(lo as int, hi as int)[j - prefix.len()]);
            }
        }
    }
    let mut acc = acc;
    let mut i: usize = lo;
    assert(prefix + cs@.subrange(lo as int, lo as int) =~= prefix);
    if acc > limit {
        proof {
            lemma_digits_val_prefix(whole, prefix.len() as int);
            assert(whole.subrange(0, prefix.len() as int) =~= prefix);
        }
        return None;
    }
    while i < hi
        invariant
            lo <= i <= hi <= cs.len(),
            all_digits(whole),
            all_digits(cs@.subrange(lo as int, hi as int)),
            whole == prefix + cs@.subrange(lo as int, hi as int),
            acc == digits_val(prefix + cs@.subrange(lo as int, i as int)),
            acc <= limit,
        decreases hi - i,
    {
        let ghost cur = prefix + cs@.subrange(lo as int, i as int);
        let ghost next = prefix + cs@.subrange(lo as int, i + 1);
        assert(next.drop_last() =~= cur);
        assert(next.last() == cs@[i as int]);
        assert(is_digit(cs@.subrange(lo as int, hi as int)[i - lo]));
        let d = (cs[i] as u32 - '0' as u32) as u64;
        if d > limit || acc > (limit - d) / 10 {
            proof {
                assert(whole.subrange(0, next.len() as int) =~= next);
                lemma_digits_val_prefix(whole, next.len() as int);
                if d <= limit {
                    assert(acc * 10 + d > limit) by (nonlinear_arith)
                        requires
                            acc > (limit - d) / 10,
                            d <= limit,
                    ;
                }
            }
            return None;
        }
        assert(acc * 10 + d <= limit) by (nonlinear_arith)
            requires
                acc <= (limit - d) / 10,
                d <= limit,
        ;
        acc = acc * 10 + d;
        i = i + 1;
    }
    Some(acc)
}

fn digits_all(cs: &Vec<char>, lo: usize, hi: usize) -> (r: bool)
    requires
        lo <= hi <= cs.len(),
    ensures
        r == all_digits(cs@.subrange(lo as int, hi as int)),
{
    let mut i: usize = lo;
    while i < hi
        invariant
            lo <= i <= hi <= cs.len(),
            forall|j: int| lo <= j < i ==> is_digit(#[trigger] cs@[j]),
        decreases hi - i,
    {
        if !('0' <= cs[i] && cs[i] <= '9') {
            assert(!is_digit(cs@.subrange(lo as int, hi as int)[i - lo]));
            return false;
        }
        i = i + 1;
    }
    assert forall|j: int| 0 <= j < hi - lo implies is_digit(
        #[trigger] cs@.subrange(lo as int, hi as int)[j],
    ) by {
        assert(cs@.subrange(lo as int, hi as int)[j] == cs@[lo + j]);
    }
    true
}

/// Reads the digits `cs[lo..]` as a number of at most `limit`.
fn parse_magnitude(cs: &Vec<char>, lo: usize, limit: u64) -> (r: Option<u64>)
    requires
        lo <= cs.len(),
    ensures
        match r {
            Some(x) => within(nat_spec(cs@.subrange(lo as int, cs.len() as int)), 0, limit as int)
                == Some(x as int),
            None => within(nat_spec(cs@.subrange(lo as int, cs.len() as int)), 0, limit as int) is None,
        },
        nat_spec(cs@.subrange(lo as int, cs.len() as int)) is Some ==> nat_spec(
            cs@.subrange(lo as int, cs.len() as int),
        )->0 >= 0,
{
    let n = cs.len();
    if lo == n || !digits_all(cs, lo, n) {
        return None;
    }
    let r = accumulate(cs, lo, n, 0, limit, Ghost(Seq::empty()));
    assert(Seq::<char>::empty() + cs@.subrange(lo as int, n as int) =~= cs@.subrange(lo as int, n as int));
    proof {
        lemma_digits_val_nonneg(cs@.subrange(lo as int, n as int));
    }
    r
}

/// Reads a signed integer with a value of at least `-(limit + 1)` and at most `limit`.
fn parse_signed(s: &str, limit: u64) -> (r: Option<i64>)
    requires
        limit < 0x7fff_ffff_ffff_ffff,
    ensures
        match r {
            Some(x) => within(signed_spec(s@), -(limit as int) - 1, limit as int) == Some(x as int),
            None => within(signed_spec(s@), -(limit as int) - 1, limit as int) is None,
        },
{
    let cs = chars_of(s);
    let n = cs.len();
    if n > 0 && cs[0] == '-' {
        assert(cs@.subrange(1, n as int) =~= s@.drop_first());
        match parse_magnitude(&cs, 1, limit + 1) {
            Some(m) => Some(-(m as i64)),
            None => None,
        }
    } else {
        let lo: usize = if n > 0 && cs[0] == '+' { 1 } else { 0 };
        if n > 0 {
            assert(cs@.subrange(1, n as int) =~= s@.drop_first());
        }
        assert(cs@.subrange(0, n as int) =~= s@);
        match parse_magnitude(&cs, lo, limit) {
            Some(m) => Some(m as i64),
            None => None,
        }
    }
}

/// Reads an unsigned integer of at most `limit`.
fn parse_unsigned(s: &str, limit: u64) -> (r: Option<u64>)
    ensures
        match r {
            Some(x) => within(unsigned_spec(s@), 0, limit as int) == Some(x as int),
            None => within(unsigned_spec(s@), 0, limit as int) is None,
        },
{
    let cs = chars_of(s);
    let n = cs.len();
    let lo: usize = if n > 0 && cs[0] == '+' { 1 } else { 0 };
    if n > 0 {
        assert(cs@.subrange(1, n as int) =~= s@.drop_first());
    }
    assert(cs@.subrange(0, n as int) =~= s@);
    parse_magnitude(&cs, lo, limit)
}

/// Reads a signed 32-bit integer, as `str::parse::<i32>` does.
pub fn parse_i32(s: &str) -> (r: Option<i32>)
    ensures
        match r {
            Some(x) => within(signed_spec(s@), i32::MIN as int, i32::MAX as int) == Some(x as int),
            None => within(signed_spec(s@), i32::MIN as int, i32::MAX as int) is None,
        },
{
    match parse_signed(s, 0x7fff_ffff) {
        Some(x) => Some(x as i32),
        None => None,
    }
}

/// Reads an unsigned 32-bit integer, as `str::parse::<u32>` does.
pub fn parse_u32(s: &str) -> (r: Option<u32>)
    ensures
        match r {
            Some(x) => within(unsigned_spec(s@), 0, u32::MAX as int) == Some(x as int),
            None => within(unsigned_spec(s@), 0, u32::MAX as int) is None,
        },
{
    match parse_unsigned(s, 0xffff_ffff) {
        Some(x) => Some(x as u32),
        None => None,
    }
}

/// Reads a byte, as `str::parse::<u8>` does.
pub fn parse_u8(s: &str) -> (r: Option<u8>)
    ensures
        match r {
            Some(x) => within(unsigned_spec(s@), 0, 255) == Some(x as int),
            None => within(unsigned_spec(s@), 0, 255) is None,
        },
{
    match parse_unsigned(s, 255) {
        Some(x) => Some(x as u8),
        None => None,
    }
}

/// A flag in text: `1` is true and `0` is false.
pub open spec fn bool_spec(s: Seq<char>) -> Option<bool> {
    if s == seq!['1'] {
        Some(true)
    } else if s == seq!['0'] {
        Some(false)
    } else {
        None
    }
}

/// Reads a flag written `1` or `0`.
pub fn parse_bool(s: &str) -> (r: Option<bool>)
    ensures
        r == bool_spec(s@),
{
    let cs = chars_of(s);
    if cs.len() == 1 && cs[0] == '1' {
        assert(s@ =~= seq!['1']);
        Some(true)
    } else if cs.len() == 1 && cs[0] == '0' {
        assert(s@ =~= seq!['0']);
        Some(false)
    } else {
        None
    }
}

/// A decimal number `mantissa / 10^scale`. `parse_decimal` gives it with no trailing zero
/// in its fraction; `Decimal::new` takes any mantissa and scale.
#[derive(Clone, Copy, Debug, PartialEq, Eq, Structural)]
pub struct Decimal {
    pub mantissa: i64,
    pub scale: u32,
}

impl Decimal {
    /// Makes the decimal `mantissa / 10^scale`.
    pub fn new(mantissa: i64, scale: u32) -> (r: Decimal)
        ensures
            r.mantissa == mantissa,
            r.scale == scale,
    {
        Decimal { mantissa, scale }
    }

    pub open spec fn pair(self) -> (int, int) {
        (self.mantissa as int, self.scale as int)
    }
}

/// `s` without the zeros at its end.
pub open spec fn strip_zeros(s: Seq<char>) -> Seq<char>
    decreases s.len(),
{
    if s.len() > 0 && s.last() == '0' {
        strip_zeros(s.drop_last())
    } else {
        s
    }
}

/// An unsigned decimal in text: digits, and a fraction after a `.`, with a digit in at
/// least one of the two. Its value as mantissa and scale, with no trailing zero in the
/// fraction.
pub open spec fn unsigned_decimal_spec(s: Seq<char>) -> Option<(int, int)> {
    let d = first_index(s, '.');
    let ip = if d < 0 { s } else { s.subrange(0, d) };
    let fp = if d < 0 { Seq::<char>::empty() } else { s.subrange(d + 1, s.len() as int) };
    if all_digits(ip) && all_digits(fp) && ip.len() + fp.len() > 0 {
        Some((digits_val(ip + strip_zeros(fp)), strip_zeros(fp).len() as int))
    } else {
        None
    }
}

/// A decimal in text: an optional `+` or `-` before an unsigned decimal.
pub open spec fn decimal_spec(s: Seq<char>) -> Option<(int, int)> {
    if s.len() > 0 && s[0] == '-' {
        match unsigned_decimal_spec(s.drop_first()) {
            Some(p) => Some((-p.0, p.1)),
            None => None,
        }
    } else if s.len() > 0 && s[0] == '+' {
        unsigned_decimal_spec(s.drop_first())
    } else {
        unsigned_decimal_spec(s)
    }
}

/// `v` where its mantissa fits an `i64` (and is not `i64::MIN`) and its scale a `u32`.
pub open spec fn decimal_fits(v: Option<(int, int)>) -> Option<(int, int)> {
    match v {
        Some(p) => if -0x7fff_ffff_ffff_ffff <= p.0 <= 0x7fff_ffff_ffff_ffff && 0 <= p.1
            <= u32::MAX {
            Some(p)
        } else {
            None
        },
        None => None,
    }
}

proof fn lemma_strip_zeros_prefix(s: Seq<char>)
    ensures
        strip_zeros(s) == s.subrange(0, strip_zeros(s).len() as int),
        strip_zeros(s).len() <= s.len(),
    decreases s.len(),
{
    if s.len() > 0 && s.last() == '0' {
        lemma_strip_zeros_prefix(s.drop_last());
        assert(s.drop_last().subrange(0, strip_zeros(s).len() as int) =~= s.subrange(
            0,
            strip_zeros(s).len() as int,
        ));
    } else {
        assert(s.subrange(0, s.len() as int) =~= s);
    }
}

/// Reads the unsigned decimal `cs[lo..]`, while its mantissa stays within `i64::MAX`.
#[verifier::rlimit(30)]
fn parse_unsigned_decimal(cs: &Vec<char>, lo: usize) -> (r: Option<(u64, u32)>)
    requires
        lo <= cs.len(),
    ensures
        match unsigned_decimal_spec(cs@.subrange(lo as int, cs.len() as int)) {
            Some(q) => q.0 >= 0 && match r {
                Some(p) => q == (p.0 as int, p.1 as int) && p.0 <= 0x7fff_ffff_ffff_ffff,
                None => q.0 > 0x7fff_ffff_ffff_ffff || q.1 > u32::MAX,
            },
            None => r is None,
        },
{
    let n = cs.len();
    let ghost body = cs@.subrange(lo as int, n as int);
    let mut dot: usize = lo;
    while dot < n && cs[dot] != '.'
        invariant
            lo <= dot <= n == cs.len(),
            forall|j: int| lo <= j < dot ==> cs@[j] != '.',
        decreases n - dot,
    {
        dot = dot + 1;
    }
    let ghost d = first_index(body, '.');
    proof {
        lemma_first_index_bounds(body, '.');
        if dot < n {
            assert(body[dot - lo] == '.');
            if d < 0 {
            } else if d < dot - lo {
                assert(body[d] == cs@[lo + d]);
            }
            assert(d == dot - lo);
        } else {
            if d >= 0 {
                assert(body[d] == cs@[lo + d]);
            }
            assert(d < 0);
        }
    }
    let fs: usize = if dot < n { dot + 1 } else { n };
    let ghost ip = cs@.subrange(lo as int, dot as int);
    let ghost fp = cs@.subrange(fs as int, n as int);
    proof {
        if d < 0 {
            assert(ip =~= body);
            assert(fp =~= Seq::<char>::empty());
        } else {
            assert(ip =~= body.subrange(0, d));
            assert(fp =~= body.subrange(d + 1, body.len() as int));
        }
    }
    if !digits_all(cs, lo, dot) || !digits_all(cs, fs, n) || (dot == lo && fs == n) {
        return None;
    }
    let mut fend: usize = n;
    while fend > fs && cs[fend - 1] == '0'
        invariant
            fs <= fend <= n == cs.len(),
            strip_zeros(fp) == strip_zeros(cs@.subrange(fs as int, fend as int)),
        decreases fend,
    {
        assert(cs@.subrange(fs as int, fend as int).drop_last() =~= cs@.subrange(
            fs as int,
            fend - 1,
        ));
        fend = fend - 1;
    }
    let ghost f = cs@.subrange(fs as int, fend as int);
    assert(strip_zeros(fp) == f);
    assert(all_digits(f)) by {
        assert forall|j: int| 0 <= j < f.len() implies is_digit(#[trigger] f[j]) by {
            assert(f[j] == fp[j]);
        }
    }
    proof {
        assert(all_digits(ip + f)) by {
            assert forall|j: int| 0 <= j < (ip + f).len() implies is_digit(#[trigger] (ip + f)[j]) by {
                if j >= ip.len() {
                    assert((ip + f)[j] == f[j - ip.len()]);
                }
            }
        }
        lemma_digits_val_nonneg(ip + f);
    }
    let limit: u64 = 0x7fff_ffff_ffff_ffff;
    let a = accumulate(cs, lo, dot, 0, limit, Ghost(Seq::empty()));
    assert(Seq::<char>::empty() + ip =~= ip);
    let a = match a {
        Some(a) => a,
        None => {
            proof {
                lemma_digits_val_prefix(ip + f, ip.len() as int);
                assert((ip + f).subrange(0, ip.len() as int) =~= ip);
            }
            return None;
        },
    };
    if fend - fs > 0xffff_ffff {
        return None;
    }
    match accumulate(cs, fs, fend, a, limit, Ghost(ip)) {
        Some(m) => Some((m, (fend - fs) as u32)),
        None => None,
    }
}

/// Reads a decimal number such as `-12.50`; the fraction keeps no trailing zero. Only
/// signs, digits and one point are read: an exponent (`1e5`), `inf` or `NaN` is unreadable.
pub fn parse_decimal(s: &str) -> (r: Option<Decimal>)
    ensures
        match r {
            Some(d) => decimal_fits(decimal_spec(s@)) == Some(d.pair()),
            None => decimal_fits(decimal_spec(s@)) is None,
        },
{
    let cs = chars_of(s);
    let n = cs.len();
    let neg = n > 0 && cs[0] == '-';
    let lo: usize = if n > 0 && (cs[0] == '-' || cs[0] == '+') { 1 } else { 0 };
    proof {
        if n > 0 {
            assert(cs@.subrange(1, n as int) =~= s@.drop_first());
        }
        assert(cs@.subrange(0, n as int) =~= s@);
    }
    match parse_unsigned_decimal(&cs, lo) {
        Some(p) => {
            let v: i64 = if neg { -(p.0 as i64) } else { p.0 as i64 };
            Some(Decimal { mantissa: v, scale: p.1 })
        },
        None => None,
    }
}

} // verus!
