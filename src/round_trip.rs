use vstd::prelude::*;
use crate::export::{
    base_text, color_lines, color_lines_w, color_text, key_width, difficulty_lines, editor_lines, export_lines, general_lines,
    hit_text, kv_text, metadata_lines, timing_text,
};
use crate::sections::{is_header, key_index, section_lines, sections_spec, split_state};
use crate::hit_objects::{hit_line_ok, hit_lines, hit_objects_are};
use crate::timing::timing_points_spec;
use crate::Beatmap;
use crate::hit_objects::{HitBase, HitObject, has_bit, hit_object_is, int_of};
use crate::info::{
    colors_spec, colors_view, Color, Difficulty, Editor, General, Metadata, channel, color_of, difficulty_spec, editor_spec,
    general_spec, metadata_spec, triple,
};
use crate::key_value::{key_lt, kv_entries, sort_pairs};
use crate::format::{decimal_text, digit_char, digits_of, flag_text, int_text, padded, shift};
use crate::key_value::kv_line;
use crate::num::{
    Decimal, all_digits, bool_spec, decimal_fits, decimal_spec, digits_val, is_digit, signed_spec,
    strip_zeros, unsigned_decimal_spec, unsigned_spec, within,
};
use crate::text::{first_index, lemma_first_index_bounds, lemma_split_nonempty, split_spec, trim_end_spec, trim_spec, trim_start_spec};
use crate::timing::{TimingPoint, timing_point_of, to_decimal};

verus! {

/// A decimal in its shortest form: no trailing zero in a fraction, and a mantissa whose
/// magnitude fits an `i64`.
pub open spec fn normal(d: Decimal) -> bool {
    &&& d.scale == 0 || d.mantissa % 10 != 0
    &&& d.mantissa != i64::MIN
}

proof fn lemma_digit_char(k: nat)
    requires
        k < 10,
    ensures
        is_digit(digit_char(k)),
        digit_char(k) as int - '0' as int == k,
        digit_char(k) != '.' && digit_char(k) != ',' && digit_char(k) != '-',
        (digit_char(k) == '0') == (k == 0),
{
}

proof fn lemma_digits_of(n: nat)
    ensures
        digits_of(n).len() > 0,
        all_digits(digits_of(n)),
        digits_val(digits_of(n)) == n,
    decreases n,
{
    lemma_digit_char(n % 10);
    vstd::arithmetic::div_mod::lemma_fundamental_div_mod(n as int, 10);
    if n >= 10 {
        lemma_digits_of(n / 10);
        let s = digits_of(n);
        assert(s.drop_last() =~= digits_of(n / 10));
        assert(s.last() == digit_char(n % 10));
        assert(digits_val(s) == digits_val(digits_of(n / 10)) * 10 + (n % 10));
        assert forall|i: int| 0 <= i < s.len() implies is_digit(#[trigger] s[i]) by {
            if i < s.len() - 1 {
                assert(s[i] == digits_of(n / 10)[i]);
            }
        }
    } else {
        assert(digits_of(n).drop_last() =~= Seq::<char>::empty());
        assert(digits_val(Seq::<char>::empty()) == 0);
        assert(digits_of(n).last() == digit_char(n));
    }
}

proof fn lemma_padded(a: Seq<char>, n: nat, w: nat)
    requires
        digits_val(a) == shift(n, w),
    ensures
        digits_val(a + padded(n, w)) == n,
        padded(n, w).len() == w,
        all_digits(padded(n, w)),
    decreases w,
{
    if w == 0 {
        assert(a + padded(n, w) =~= a);
    } else {
        lemma_padded(a, n / 10, (w - 1) as nat);
        lemma_digit_char(n % 10);
        assert((a + padded(n, w)).drop_last() =~= a + padded(n / 10, (w - 1) as nat));
        let p = padded(n, w);
        assert forall|i: int| 0 <= i < p.len() implies is_digit(#[trigger] p[i]) by {
            if i < p.len() - 1 {
                assert(p[i] == padded(n / 10, (w - 1) as nat)[i]);
            }
        }
    }
}

proof fn lemma_first_index_at(a: Seq<char>, c: char, r: Seq<char>)
    requires
        forall|j: int| 0 <= j < a.len() ==> a[j] != c,
    ensures
        first_index(a + seq![c] + r, c) == a.len(),
        (a + seq![c] + r).subrange(0, a.len() as int) == a,
        (a + seq![c] + r).subrange(a.len() as int + 1, (a + seq![c] + r).len() as int) == r,
{
    let l = a + seq![c] + r;
    lemma_first_index_bounds(l, c);
    let d = first_index(l, c);
    assert(l[a.len() as int] == c);
    if d >= 0 && d < a.len() {
        assert(l[d] == a[d]);
    }
    assert(l.subrange(0, a.len() as int) =~= a);
    assert(l.subrange(a.len() as int + 1, l.len() as int) =~= r);
}

proof fn lemma_no_char_in_digits(s: Seq<char>, c: char)
    requires
        all_digits(s),
        !is_digit(c),
    ensures
        forall|j: int| 0 <= j < s.len() ==> s[j] != c,
{
    assert forall|j: int| 0 <= j < s.len() implies s[j] != c by {
        assert(is_digit(s[j]));
    }
}

/// Writing an integer and reading it back gives the integer.
pub proof fn lemma_int_round_trip(v: int)
    ensures
        signed_spec(int_text(v)) == Some(v),
{
    if v < 0 {
        lemma_digits_of((-v) as nat);
        assert((seq!['-'] + digits_of((-v) as nat)).drop_first() =~= digits_of((-v) as nat));
    } else {
        lemma_digits_of(v as nat);
        assert(is_digit(digits_of(v as nat)[0]));
    }
}

/// Writing a flag and reading it back gives the flag.
pub proof fn lemma_flag_round_trip(b: bool)
    ensures
        bool_spec(flag_text(b)) == Some(b),
{
    assert(seq!['1'][0] != seq!['0'][0]);
}

proof fn lemma_unsigned_decimal(n: nat, s: nat)
    requires
        s == 0 || n % 10 != 0,
    ensures
        unsigned_decimal_spec(
            if s == 0 {
                digits_of(n)
            } else {
                digits_of(shift(n, s)) + seq!['.'] + padded(n, s)
            },
        ) == Some((n as int, s as int)),
        is_digit(
            (if s == 0 {
                digits_of(n)
            } else {
                digits_of(shift(n, s)) + seq!['.'] + padded(n, s)
            })[0],
        ),
{
    if s == 0 {
        let body = digits_of(n);
        lemma_digits_of(n);
        lemma_first_index_bounds(body, '.');
        lemma_no_char_in_digits(body, '.');
        assert(strip_zeros(Seq::<char>::empty()) == Seq::<char>::empty());
        assert(body + Seq::<char>::empty() =~= body);
    } else {
        let a = digits_of(shift(n, s));
        let p = padded(n, s);
        lemma_digits_of(shift(n, s));
        lemma_padded(a, n, s);
        lemma_no_char_in_digits(a, '.');
        lemma_first_index_at(a, '.', p);
        lemma_digit_char(n % 10);
        assert(p.last() != '0');
        assert((a + seq!['.'] + p)[0] == a[0]);
    }
}

/// Writing a decimal in its shortest form and reading it back gives the decimal.
pub proof fn lemma_decimal_round_trip(d: Decimal)
    requires
        normal(d),
    ensures
        decimal_fits(decimal_spec(decimal_text(d))) == Some(d.pair()),
{
    let m = d.mantissa as int;
    let n = (if m < 0 { -m } else { m }) as nat;
    let s = d.scale as nat;
    let body = if s == 0 { digits_of(n) } else { digits_of(shift(n, s)) + seq!['.'] + padded(n, s) };
    assert(s == 0 || n % 10 != 0) by {
        if m < 0 && s != 0 {
            assert(m % 10 != 0);
            assert((-m) % 10 != 0);
        }
    }
    lemma_unsigned_decimal(n, s);
    if m < 0 {
        assert(decimal_text(d) =~= seq!['-'] + body);
        assert((seq!['-'] + body).drop_first() =~= body);
    } else {
        assert(decimal_text(d) =~= body);
    }
}

/// Trimming `s` changes nothing when `s` is already trimmed, and a leading space goes.
proof fn lemma_trim_space(v: Seq<char>)
    ensures
        trim_spec(seq![' '] + v) == trim_spec(v),
{
    assert((seq![' '] + v).drop_first() =~= v);
}

/// A `Key: Value` line that the export writes reads back as the same key and value, where
/// the key holds no colon and neither has white space at its ends.
pub proof fn lemma_kv_round_trip(k: Seq<char>, v: Seq<char>)
    requires
        forall|j: int| 0 <= j < k.len() ==> k[j] != ':',
        trim_spec(k) == k,
        trim_spec(v) == v,
    ensures
        kv_line(kv_text(k, v)) == Some((k, v)),
{
    reveal_strlit(": ");
    assert(kv_text(k, v) =~= k + seq![':'] + (seq![' '] + v));
    crate::key_value::lemma_split_at_first_colon(k, seq![' '] + v);
    lemma_trim_space(v);
}

proof fn lemma_split_no_sep(x: Seq<char>, c: char)
    requires
        forall|j: int| 0 <= j < x.len() ==> x[j] != c,
    ensures
        split_spec(x, c) == seq![x],
    decreases x.len(),
{
    if x.len() > 0 {
        lemma_split_no_sep(x.drop_last(), c);
        assert(x.drop_last().push(x.last()) =~= x);
    } else {
        assert(x =~= Seq::<char>::empty());
    }
}

proof fn lemma_split_concat(p: Seq<char>, c: char, q: Seq<char>)
    ensures
        split_spec(p + seq![c] + q, c) == split_spec(p, c) + split_spec(q, c),
    decreases q.len(),
{
    lemma_split_nonempty(p, c);
    if q.len() == 0 {
        assert(p + seq![c] + q =~= p.push(c));
        assert((p.push(c)).drop_last() =~= p);
        assert(split_spec(p, c).push(Seq::<char>::empty()) =~= split_spec(p, c) + seq![
            Seq::<char>::empty(),
        ]);
    } else {
        let q0 = q.drop_last();
        lemma_split_concat(p, c, q0);
        lemma_split_nonempty(q0, c);
        assert((p + seq![c] + q).drop_last() =~= p + seq![c] + q0);
        let a = split_spec(p, c);
        let b = split_spec(q0, c);
        if q.last() == c {
            assert((a + b).push(Seq::<char>::empty()) =~= a + b.push(Seq::<char>::empty()));
        } else {
            assert((a + b).update((a + b).len() - 1, (a + b).last().push(q.last())) =~= a
                + b.update(b.len() - 1, b.last().push(q.last())));
        }
    }
}

proof fn lemma_int_text_shape(v: int)
    ensures
        forall|j: int| 0 <= j < int_text(v).len() ==> int_text(v)[j] != ',',
{
    let n = (if v < 0 { -v } else { v }) as nat;
    lemma_digits_of(n);
    let t = int_text(v);
    assert forall|j: int| 0 <= j < t.len() implies t[j] != ',' by {
        if v < 0 {
            if j > 0 {
                assert(t[j] == digits_of(n)[j - 1]);
                assert(is_digit(digits_of(n)[j - 1]));
            }
        } else {
            assert(is_digit(digits_of(n)[j]));
        }
    }
}

proof fn lemma_decimal_text_shape(d: Decimal)
    ensures
        forall|j: int| 0 <= j < decimal_text(d).len() ==> decimal_text(d)[j] != ',',
{
    let m = d.mantissa as int;
    let n = (if m < 0 { -m } else { m }) as nat;
    let s = d.scale as nat;
    lemma_digits_of(n);
    lemma_digits_of(shift(n, s));
    lemma_padded(digits_of(shift(n, s)), n, s);
    let t = decimal_text(d);
    let sign = if m < 0 { seq!['-'] } else { Seq::<char>::empty() };
    let a = if s == 0 { digits_of(n) } else { digits_of(shift(n, s)) };
    let rest = if s == 0 { Seq::<char>::empty() } else { seq!['.'] + padded(n, s) };
    assert(t =~= sign + a + rest);
    assert forall|j: int| 0 <= j < t.len() implies t[j] != ',' by {
        if j < sign.len() {
        } else if j < sign.len() + a.len() {
            assert(t[j] == a[j - sign.len()]);
            assert(is_digit(a[j - sign.len()]));
        } else if j > sign.len() + a.len() {
            assert(t[j] == padded(n, s)[j - sign.len() - a.len() - 1]);
            assert(is_digit(padded(n, s)[j - sign.len() - a.len() - 1]));
        }
    }
}

/// A timing point line that the export writes reads back as the same timing point, where
/// its time and beat length are decimals in their shortest form.
pub proof fn lemma_timing_round_trip(t: TimingPoint)
    requires
        normal(t.time),
        normal(t.beat_length),
    ensures
        timing_point_of(timing_text(t)) == Some(t),
{
    let x0 = decimal_text(t.time);
    let x1 = decimal_text(t.beat_length);
    let x2 = int_text(t.meter as int);
    let x3 = int_text(t.sample_set as int);
    let x4 = int_text(t.sample_index as int);
    let x5 = int_text(t.volume as int);
    let x6 = flag_text(t.uninherited);
    let x7 = int_text(t.effects as int);
    let c = seq![','];
    lemma_decimal_text_shape(t.time);
    lemma_decimal_text_shape(t.beat_length);
    lemma_int_text_shape(t.meter as int);
    lemma_int_text_shape(t.sample_set as int);
    lemma_int_text_shape(t.sample_index as int);
    lemma_int_text_shape(t.volume as int);
    lemma_int_text_shape(t.effects as int);
    lemma_split_no_sep(x0, ',');
    lemma_split_no_sep(x1, ',');
    lemma_split_no_sep(x2, ',');
    lemma_split_no_sep(x3, ',');
    lemma_split_no_sep(x4, ',');
    lemma_split_no_sep(x5, ',');
    lemma_split_no_sep(x6, ',');
    lemma_split_no_sep(x7, ',');
    let part1 = x0 + c + x1;
    let part2 = part1 + c + x2;
    let part3 = part2 + c + x3;
    let part4 = part3 + c + x4;
    let part5 = part4 + c + x5;
    let part6 = part5 + c + x6;
    let part7 = part6 + c + x7;
    lemma_split_concat(x0, ',', x1);
    lemma_split_concat(part1, ',', x2);
    lemma_split_concat(part2, ',', x3);
    lemma_split_concat(part3, ',', x4);
    lemma_split_concat(part4, ',', x5);
    lemma_split_concat(part5, ',', x6);
    lemma_split_concat(part6, ',', x7);
    assert(timing_text(t) == part7);
    let f = split_spec(part7, ',');
    assert(f =~= seq![x0, x1, x2, x3, x4, x5, x6, x7]);
    lemma_decimal_round_trip(t.time);
    lemma_decimal_round_trip(t.beat_length);
    lemma_int_round_trip(t.meter as int);
    lemma_int_round_trip(t.sample_set as int);
    lemma_int_round_trip(t.sample_index as int);
    lemma_int_round_trip(t.volume as int);
    lemma_int_round_trip(t.effects as int);
    lemma_flag_round_trip(t.uninherited);
}

proof fn lemma_unsigned_round_trip(v: int)
    requires
        v >= 0,
    ensures
        unsigned_spec(int_text(v)) == Some(v),
        forall|j: int| 0 <= j < int_text(v).len() ==> int_text(v)[j] != ',' && int_text(v)[j]
            != ':',
{
    lemma_digits_of(v as nat);
    assert(is_digit(digits_of(v as nat)[0]));
    lemma_no_char_in_digits(digits_of(v as nat), ',');
    lemma_no_char_in_digits(digits_of(v as nat), ':');
}

/// A colour that the export writes reads back as the same colour.
pub proof fn lemma_color_round_trip(c: Color)
    ensures
        color_of(color_text(c)) == Some(triple(c)),
{
    let x0 = int_text(c.0 as int);
    let x1 = int_text(c.1 as int);
    let x2 = int_text(c.2 as int);
    lemma_unsigned_round_trip(c.0 as int);
    lemma_unsigned_round_trip(c.1 as int);
    lemma_unsigned_round_trip(c.2 as int);
    lemma_split_no_sep(x0, ',');
    lemma_split_no_sep(x1, ',');
    lemma_split_no_sep(x2, ',');
    lemma_split_concat(x0, ',', x1);
    lemma_split_concat(x0 + seq![','] + x1, ',', x2);
    assert(split_spec(color_text(c), ',') =~= seq![x0, x1, x2]);
}

/// The kind that the type bits of a hit object name is its own kind, and a slider's curve
/// holds no comma.
pub open spec fn kind_fits(h: HitObject) -> bool {
    match h {
        HitObject::Circle { base } => has_bit(base.kind, 0),
        HitObject::Slider { base, curve, slides, length } => !has_bit(base.kind, 0) && has_bit(
            base.kind,
            1,
        ) && normal(length) && forall|j: int| 0 <= j < curve@.len() ==> curve@[j] != ',',
        HitObject::Spinner { base, end_time } => !has_bit(base.kind, 0) && !has_bit(base.kind, 1)
            && has_bit(base.kind, 3),
        HitObject::Hold { base, end_time } => !has_bit(base.kind, 0) && !has_bit(base.kind, 1)
            && !has_bit(base.kind, 3) && has_bit(base.kind, 7),
    }
}

proof fn lemma_base_fields(b: HitBase)
    ensures
        split_spec(base_text(b), ',') == seq![
            int_text(b.x as int),
            int_text(b.y as int),
            int_text(b.time as int),
            int_text(b.kind as int),
            int_text(b.hit_sound as int),
        ],
        int_of(int_text(b.x as int)) == Some(b.x as int),
        int_of(int_text(b.y as int)) == Some(b.y as int),
        int_of(int_text(b.time as int)) == Some(b.time as int),
        within(unsigned_spec(int_text(b.kind as int)), 0, u32::MAX as int) == Some(b.kind as int),
        int_of(int_text(b.hit_sound as int)) == Some(b.hit_sound as int),
{
    let x0 = int_text(b.x as int);
    let x1 = int_text(b.y as int);
    let x2 = int_text(b.time as int);
    let x3 = int_text(b.kind as int);
    let x4 = int_text(b.hit_sound as int);
    lemma_int_text_shape(b.x as int);
    lemma_int_text_shape(b.y as int);
    lemma_int_text_shape(b.time as int);
    lemma_int_text_shape(b.kind as int);
    lemma_int_text_shape(b.hit_sound as int);
    lemma_split_no_sep(x0, ',');
    lemma_split_no_sep(x1, ',');
    lemma_split_no_sep(x2, ',');
    lemma_split_no_sep(x3, ',');
    lemma_split_no_sep(x4, ',');
    let c = seq![','];
    lemma_split_concat(x0, ',', x1);
    lemma_split_concat(x0 + c + x1, ',', x2);
    lemma_split_concat(x0 + c + x1 + c + x2, ',', x3);
    lemma_split_concat(x0 + c + x1 + c + x2 + c + x3, ',', x4);
    assert(split_spec(base_text(b), ',') =~= seq![x0, x1, x2, x3, x4]);
    lemma_int_round_trip(b.x as int);
    lemma_int_round_trip(b.y as int);
    lemma_int_round_trip(b.time as int);
    lemma_unsigned_round_trip(b.kind as int);
    lemma_int_round_trip(b.hit_sound as int);
}

proof fn lemma_slider_round_trip(base: HitBase, curve: String, slides: i32, length: Decimal)
    requires
        kind_fits(HitObject::Slider { base, curve, slides, length }),
    ensures
        ({
            let h = HitObject::Slider { base, curve, slides, length };
            hit_object_is(split_spec(hit_text(h), ','), h)
        }),
{
    let h = HitObject::Slider { base, curve, slides, length };
    lemma_base_fields(base);
    let bt = base_text(base);
    let x6 = int_text(slides as int);
    let x7 = decimal_text(length);
    lemma_int_text_shape(slides as int);
    lemma_decimal_text_shape(length);
    lemma_split_no_sep(curve@, ',');
    lemma_split_no_sep(x6, ',');
    lemma_split_no_sep(x7, ',');
    let c = seq![','];
    lemma_split_concat(bt, ',', curve@);
    lemma_split_concat(bt + c + curve@, ',', x6);
    lemma_split_concat(bt + c + curve@ + c + x6, ',', x7);
    assert(hit_text(h) == bt + c + curve@ + c + x6 + c + x7);
    let f = split_spec(hit_text(h), ',');
    assert(f =~= split_spec(bt, ',') + seq![curve@, x6, x7]);
    lemma_int_round_trip(slides as int);
    lemma_decimal_round_trip(length);
    assert(f[5] == curve@ && f[6] == x6 && f[7] == x7);
    assert(f.subrange(0, 5) =~= split_spec(bt, ','));
}

proof fn lemma_end_time_fields(base: HitBase, end_time: i32)
    ensures
        ({
            let f = split_spec(base_text(base) + seq![','] + int_text(end_time as int), ',');
            &&& f.len() == 6
            &&& f.subrange(0, 5) == split_spec(base_text(base), ',')
            &&& int_of(f[5]) == Some(end_time as int)
            &&& int_of(split_spec(f[5], ':')[0]) == Some(end_time as int)
        }),
{
    lemma_base_fields(base);
    let bt = base_text(base);
    let x5 = int_text(end_time as int);
    lemma_int_text_shape(end_time as int);
    lemma_split_no_sep(x5, ',');
    lemma_split_concat(bt, ',', x5);
    let f = split_spec(bt + seq![','] + x5, ',');
    assert(f =~= split_spec(bt, ',') + seq![x5]);
    lemma_int_round_trip(end_time as int);
    assert(f[5] == x5);
    assert(f.subrange(0, 5) =~= split_spec(bt, ','));
    let n = (if end_time < 0 { -end_time } else { end_time as int }) as nat;
    lemma_digits_of(n);
    assert forall|j: int| 0 <= j < x5.len() implies x5[j] != ':' by {
        if end_time < 0 {
            if j > 0 {
                assert(x5[j] == digits_of(n)[j - 1]);
                assert(is_digit(digits_of(n)[j - 1]));
            }
        } else {
            assert(is_digit(digits_of(n)[j]));
        }
    }
    lemma_split_no_sep(x5, ':');
}

/// A hit object line that the export writes reads back as the same hit object, where its
/// type bits name its kind, a slider's curve holds no comma and its length is a decimal in
/// its shortest form.
#[verifier::rlimit(60)]
pub proof fn lemma_hit_object_round_trip(h: HitObject)
    requires
        kind_fits(h),
    ensures
        hit_object_is(split_spec(hit_text(h), ','), h),
{
    match h {
        HitObject::Circle { base } => {
            lemma_base_fields(base);
        },
        HitObject::Slider { base, curve, slides, length } => {
            lemma_slider_round_trip(base, curve, slides, length);
        },
        HitObject::Spinner { base, end_time } => {
            lemma_base_fields(base);
            lemma_end_time_fields(base, end_time);
            let f = split_spec(hit_text(h), ',');
            assert(f.subrange(0, 5)[0] == f[0] && f.subrange(0, 5)[1] == f[1] && f.subrange(0, 5)[2]
                == f[2] && f.subrange(0, 5)[3] == f[3] && f.subrange(0, 5)[4] == f[4]);
        },
        HitObject::Hold { base, end_time } => {
            lemma_base_fields(base);
            lemma_end_time_fields(base, end_time);
            let f = split_spec(hit_text(h), ',');
            assert(f.subrange(0, 5)[0] == f[0] && f.subrange(0, 5)[1] == f[1] && f.subrange(0, 5)[2]
                == f[2] && f.subrange(0, 5)[3] == f[3] && f.subrange(0, 5)[4] == f[4]);
        },
    }
}

/// Reading a header that no earlier section has, then lines that are neither blank nor
/// headers, adds that section with those lines.
proof fn lemma_block(pre: Seq<Seq<char>>, h: Seq<char>, blk: Seq<Seq<char>>)
    requires
        is_header(h),
        key_index(split_state(pre).0, h) < 0,
        forall|j: int| 0 <= j < blk.len() ==> (#[trigger] blk[j]).len() > 0 && !is_header(blk[j]),
    ensures
        split_state(pre.push(h) + blk) == (
            split_state(pre).0.push((h, blk)),
            split_state(pre).0.len() as int,
        ),
    decreases blk.len(),
{
    let e = split_state(pre).0;
    if blk.len() == 0 {
        assert(pre.push(h) + blk =~= pre.push(h));
        assert(pre.push(h).drop_last() =~= pre);
        assert(blk =~= Seq::<Seq<char>>::empty());
    } else {
        let b0 = blk.drop_last();
        assert(forall|j: int| 0 <= j < b0.len() ==> #[trigger] b0[j] == blk[j]);
        lemma_block(pre, h, b0);
        assert((pre.push(h) + blk).drop_last() =~= pre.push(h) + b0);
        assert(blk[blk.len() - 1].len() > 0);
        assert(b0.push(blk.last()) =~= blk);
        assert(e.push((h, b0)).update(e.len() as int, (h, b0.push(blk.last()))) =~= e.push(
            (h, blk),
        ));
    }
}

proof fn lemma_decimal_text_start(d: Decimal)
    ensures
        decimal_text(d).len() > 0,
        decimal_text(d)[0] != '[',
{
    let m = d.mantissa as int;
    let n = (if m < 0 { -m } else { m }) as nat;
    let s = d.scale as nat;
    lemma_digits_of(n);
    lemma_digits_of(shift(n, s));
    if m >= 0 {
        if s == 0 {
            assert(decimal_text(d)[0] == digits_of(n)[0]);
            assert(is_digit(digits_of(n)[0]));
        } else {
            assert(decimal_text(d)[0] == digits_of(shift(n, s))[0]);
            assert(is_digit(digits_of(shift(n, s))[0]));
        }
    }
}

proof fn lemma_int_text_start(v: int)
    ensures
        int_text(v).len() > 0,
        int_text(v)[0] != '[',
{
    let n = (if v < 0 { -v } else { v }) as nat;
    lemma_digits_of(n);
    if v >= 0 {
        assert(is_digit(digits_of(n)[0]));
    }
}

/// The timing points that the export writes read back as the same timing points, in the
/// same order, where each has its time and beat length in shortest form.
proof fn lemma_timing_lines(v: Seq<TimingPoint>)
    requires
        forall|i: int| 0 <= i < v.len() ==> normal(#[trigger] v[i].time) && normal(v[i].beat_length),
    ensures
        timing_points_spec(v.map_values(|t: TimingPoint| timing_text(t))) == v,
    decreases v.len(),
{
    if v.len() > 0 {
        let w = v.drop_last();
        assert(forall|i: int| 0 <= i < w.len() ==> #[trigger] w[i] == v[i]);
        lemma_timing_lines(w);
        lemma_timing_round_trip(v.last());
        assert(v.map_values(|t: TimingPoint| timing_text(t)).drop_last() =~= w.map_values(
            |t: TimingPoint| timing_text(t),
        ));
        assert(w.push(v.last()) =~= v);
    } else {
        assert(v.map_values(|t: TimingPoint| timing_text(t)) =~= Seq::<Seq<char>>::empty());
        assert(v =~= Seq::<TimingPoint>::empty());
    }
}

proof fn lemma_hit_lines_all(v: Seq<HitObject>)
    requires
        forall|i: int| 0 <= i < v.len() ==> kind_fits(#[trigger] v[i]),
    ensures
        hit_lines(v.map_values(|h: HitObject| hit_text(h))) == v.map_values(|h: HitObject| hit_text(h)),
    decreases v.len(),
{
    let t = v.map_values(|h: HitObject| hit_text(h));
    if v.len() > 0 {
        let w = v.drop_last();
        assert(forall|i: int| 0 <= i < w.len() ==> #[trigger] w[i] == v[i]);
        lemma_hit_lines_all(w);
        lemma_hit_object_round_trip(v.last());
        assert(hit_line_ok(t.last()));
        assert(t.drop_last() =~= w.map_values(|h: HitObject| hit_text(h)));
        assert(t.drop_last().push(t.last()) =~= t);
    } else {
        assert(t =~= Seq::<Seq<char>>::empty());
    }
}

proof fn lemma_kv_plain(k: Seq<char>, v: Seq<char>)
    requires
        k.len() > 0,
        k[0] != '[',
    ensures
        kv_text(k, v).len() > 0,
        !is_header(kv_text(k, v)),
{
    assert(kv_text(k, v)[0] == k[0]);
}


/// Whether two hit objects hold the same values.
pub open spec fn same_hit(a: HitObject, b: HitObject) -> bool {
    match (a, b) {
        (HitObject::Circle { base: x }, HitObject::Circle { base: y }) => x == y,
        (
            HitObject::Slider { base: x, curve: c, slides: s, length: l },
            HitObject::Slider { base: y, curve: d, slides: t, length: m },
        ) => x == y && c@ == d@ && s == t && l == m,
        (HitObject::Spinner { base: x, end_time: s }, HitObject::Spinner { base: y, end_time: t }) =>
            x == y && s == t,
        (HitObject::Hold { base: x, end_time: s }, HitObject::Hold { base: y, end_time: t }) => x
            == y && s == t,
        _ => false,
    }
}

/// What the round trip asks of the timing points and hit objects of a map: decimals in
/// shortest form, and type bits that name each hit object's kind.
pub open spec fn collections_fit(b: Beatmap) -> bool {
    &&& forall|i: int|
        0 <= i < b.timing_points.data@.len() ==> normal(#[trigger] b.timing_points.data@[i].time)
            && normal(b.timing_points.data@[i].beat_length)
    &&& forall|i: int|
        0 <= i < b.hit_objects.data@.len() ==> kind_fits(#[trigger] b.hit_objects.data@[i])
}

proof fn lemma_index_at(e: Seq<(Seq<char>, Seq<Seq<char>>)>, k: Seq<char>, i: int)
    requires
        0 <= i < e.len(),
        e[i].0 == k,
        forall|j: int| 0 <= j < i ==> e[j].0 != k,
    ensures
        key_index(e, k) == i,
{
    crate::sections::lemma_key_index_bounds(e, k);
}

proof fn lemma_absent(e: Seq<(Seq<char>, Seq<Seq<char>>)>, k: Seq<char>)
    requires
        forall|j: int| 0 <= j < e.len() ==> e[j].0 != k,
    ensures
        key_index(e, k) < 0,
{
    crate::sections::lemma_key_index_bounds(e, k);
}

proof fn lemma_headers()
    ensures
        "[General]"@.len() == 9,
        "[General]"@[0] == '[' && "[General]"@[1] == 'G' && "[General]"@[8] == ']',
        "[General]"@[2] == 'e',
        "[Editor]"@.len() == 8,
        "[Editor]"@[0] == '[' && "[Editor]"@[1] == 'E' && "[Editor]"@[7] == ']',
        "[Editor]"@[2] == 'd',
        "[Metadata]"@.len() == 10,
        "[Metadata]"@[0] == '[' && "[Metadata]"@[1] == 'M' && "[Metadata]"@[9] == ']',
        "[Metadata]"@[2] == 'e',
        "[Difficulty]"@.len() == 12,
        "[Difficulty]"@[0] == '[' && "[Difficulty]"@[1] == 'D' && "[Difficulty]"@[11] == ']',
        "[Difficulty]"@[2] == 'i',
        "[Events]"@.len() == 8,
        "[Events]"@[0] == '[' && "[Events]"@[1] == 'E' && "[Events]"@[7] == ']',
        "[Events]"@[2] == 'v',
        "[TimingPoints]"@.len() == 14,
        "[TimingPoints]"@[0] == '[' && "[TimingPoints]"@[1] == 'T' && "[TimingPoints]"@[13] == ']',
        "[TimingPoints]"@[2] == 'i',
        "[Colours]"@.len() == 9,
        "[Colours]"@[0] == '[' && "[Colours]"@[1] == 'C' && "[Colours]"@[8] == ']',
        "[Colours]"@[2] == 'o',
        "[HitObjects]"@.len() == 12,
        "[HitObjects]"@[0] == '[' && "[HitObjects]"@[1] == 'H' && "[HitObjects]"@[11] == ']',
        "[HitObjects]"@[2] == 'i',
{
    reveal_strlit("[General]");
    reveal_strlit("[Editor]");
    reveal_strlit("[Metadata]");
    reveal_strlit("[Difficulty]");
    reveal_strlit("[Events]");
    reveal_strlit("[TimingPoints]");
    reveal_strlit("[Colours]");
    reveal_strlit("[HitObjects]");
}

proof fn lemma_general_plain(g: General)
    ensures
        forall|j: int| 0 <= j < general_lines(g).drop_first().len() ==> (#[trigger] general_lines(g).drop_first()[j]).len() > 0
            && !is_header(general_lines(g).drop_first()[j]),
{
    reveal_strlit("AudioFilename");
    lemma_kv_plain("AudioFilename"@, g.audio_filename@);
    reveal_strlit("AudioLeadIn");
    lemma_kv_plain("AudioLeadIn"@, int_text(g.audio_lead_in as int));
    reveal_strlit("PreviewTime");
    lemma_kv_plain("PreviewTime"@, decimal_text(g.preview_time));
    reveal_strlit("Countdown");
    lemma_kv_plain("Countdown"@, int_text(g.countdown as int));
    reveal_strlit("SampleSet");
    lemma_kv_plain("SampleSet"@, g.sample_set@);
    reveal_strlit("StackLeniency");
    lemma_kv_plain("StackLeniency"@, decimal_text(g.stack_leniency));
    reveal_strlit("Mode");
    lemma_kv_plain("Mode"@, int_text(g.mode as int));
    reveal_strlit("LetterboxInBreaks");
    lemma_kv_plain("LetterboxInBreaks"@, flag_text(g.letter_box_in_breaks));
    reveal_strlit("SamplesMatchPlaybackRate");
    lemma_kv_plain("SamplesMatchPlaybackRate"@, flag_text(g.samples_match_playback_rate));
    reveal_strlit("WidescreenStoryboard");
    lemma_kv_plain("WidescreenStoryboard"@, flag_text(g.widescreen_storyboard));
}

proof fn lemma_editor_plain(g: Editor)
    ensures
        forall|j: int| 0 <= j < editor_lines(g).drop_first().len() ==> (#[trigger] editor_lines(g).drop_first()[j]).len() > 0
            && !is_header(editor_lines(g).drop_first()[j]),
{
    reveal_strlit("Bookmarks");
    lemma_kv_plain("Bookmarks"@, g.bookmarks@);
    reveal_strlit("DistanceSpacing");
    lemma_kv_plain("DistanceSpacing"@, decimal_text(g.distance_spacing));
    reveal_strlit("BeatDivisor");
    lemma_kv_plain("BeatDivisor"@, int_text(g.beat_divisor as int));
    reveal_strlit("GridSize");
    lemma_kv_plain("GridSize"@, int_text(g.grid_size as int));
    reveal_strlit("TimelineZoom");
    lemma_kv_plain("TimelineZoom"@, decimal_text(g.timeline_zoom));
}

proof fn lemma_metadata_plain(g: Metadata)
    ensures
        forall|j: int| 0 <= j < metadata_lines(g).drop_first().len() ==> (#[trigger] metadata_lines(g).drop_first()[j]).len() > 0
            && !is_header(metadata_lines(g).drop_first()[j]),
{
    reveal_strlit("Title");
    lemma_kv_plain("Title"@, g.title@);
    reveal_strlit("TitleUnicode");
    lemma_kv_plain("TitleUnicode"@, g.title_unicode@);
    reveal_strlit("Artist");
    lemma_kv_plain("Artist"@, g.artist@);
    reveal_strlit("ArtistUnicode");
    lemma_kv_plain("ArtistUnicode"@, g.artist_unicode@);
    reveal_strlit("Creator");
    lemma_kv_plain("Creator"@, g.creator@);
    reveal_strlit("Version");
    lemma_kv_plain("Version"@, g.version@);
    reveal_strlit("Source");
    lemma_kv_plain("Source"@, g.source@);
    reveal_strlit("Tags");
    lemma_kv_plain("Tags"@, g.tags@);
    reveal_strlit("BeatmapID");
    lemma_kv_plain("BeatmapID"@, int_text(g.beatmap_id as int));
    reveal_strlit("BeatmapSetID");
    lemma_kv_plain("BeatmapSetID"@, int_text(g.beatmap_set_id as int));
}

proof fn lemma_difficulty_plain(g: Difficulty)
    ensures
        forall|j: int| 0 <= j < difficulty_lines(g).drop_first().len() ==> (#[trigger] difficulty_lines(g).drop_first()[j]).len() > 0
            && !is_header(difficulty_lines(g).drop_first()[j]),
{
    reveal_strlit("HPDrainRate");
    lemma_kv_plain("HPDrainRate"@, decimal_text(g.hp_drain_rate));
    reveal_strlit("CircleSize");
    lemma_kv_plain("CircleSize"@, decimal_text(g.circle_size));
    reveal_strlit("OverallDifficulty");
    lemma_kv_plain("OverallDifficulty"@, decimal_text(g.overall_difficulty));
    reveal_strlit("ApproachRate");
    lemma_kv_plain("ApproachRate"@, decimal_text(g.approach_rate));
    reveal_strlit("SliderMultiplier");
    lemma_kv_plain("SliderMultiplier"@, decimal_text(g.slider_multiplier));
    reveal_strlit("SliderTickRate");
    lemma_kv_plain("SliderTickRate"@, decimal_text(g.slider_tick_rate));
}

proof fn lemma_bodies_plain(b: Beatmap)
    ensures
        forall|j: int| 0 <= j < general_lines(b.info.general).drop_first().len() ==> (#[trigger] general_lines(b.info.general).drop_first()[j]).len() > 0
            && !is_header(general_lines(b.info.general).drop_first()[j]),
        forall|j: int| 0 <= j < editor_lines(b.info.editor).drop_first().len() ==> (#[trigger] editor_lines(b.info.editor).drop_first()[j]).len() > 0
            && !is_header(editor_lines(b.info.editor).drop_first()[j]),
        forall|j: int| 0 <= j < metadata_lines(b.info.metadata).drop_first().len() ==> (#[trigger] metadata_lines(b.info.metadata).drop_first()[j]).len() > 0
            && !is_header(metadata_lines(b.info.metadata).drop_first()[j]),
        forall|j: int| 0 <= j < difficulty_lines(b.info.difficulty).drop_first().len() ==> (#[trigger] difficulty_lines(b.info.difficulty).drop_first()[j]).len() > 0
            && !is_header(difficulty_lines(b.info.difficulty).drop_first()[j]),
{
    lemma_general_plain(b.info.general);
    lemma_editor_plain(b.info.editor);
    lemma_metadata_plain(b.info.metadata);
    lemma_difficulty_plain(b.info.difficulty);
}

/// The sections of the exported text: one for each header, in the order written.
proof fn lemma_export_sections(b: Beatmap)
    ensures
        section_lines(sections_spec(export_lines(b)), "[TimingPoints]"@) == b.timing_points.data@.map_values(
            |t: TimingPoint| timing_text(t),
        ),
        section_lines(sections_spec(export_lines(b)), "[HitObjects]"@) == b.hit_objects.data@.map_values(
            |h: HitObject| hit_text(h),
        ),
        section_lines(sections_spec(export_lines(b)), "[General]"@) == general_lines(
            b.info.general,
        ).drop_first(),
        section_lines(sections_spec(export_lines(b)), "[Editor]"@) == editor_lines(
            b.info.editor,
        ).drop_first(),
        section_lines(sections_spec(export_lines(b)), "[Metadata]"@) == metadata_lines(
            b.info.metadata,
        ).drop_first(),
        section_lines(sections_spec(export_lines(b)), "[Difficulty]"@) == difficulty_lines(
            b.info.difficulty,
        ).drop_first(),
        section_lines(sections_spec(export_lines(b)), "[Colours]"@) == color_lines(
            b.info.colors.data@,
        ),
{
    let fmt = "osu file format v14"@;
    reveal_strlit("osu file format v14");
    let gb = general_lines(b.info.general).drop_first();
    let eb = editor_lines(b.info.editor).drop_first();
    let mb = metadata_lines(b.info.metadata).drop_first();
    let db = difficulty_lines(b.info.difficulty).drop_first();
    let tl = b.timing_points.data@.map_values(|t: TimingPoint| timing_text(t));
    let cl = color_lines(b.info.colors.data@);
    let hl = b.hit_objects.data@.map_values(|h: HitObject| hit_text(h));
    let none = Seq::<Seq<char>>::empty();
    let part0 = seq![fmt];
    let part1 = part0.push("[General]"@) + gb;
    let part2 = part1.push("[Editor]"@) + eb;
    let part3 = part2.push("[Metadata]"@) + mb;
    let part4 = part3.push("[Difficulty]"@) + db;
    let part5 = part4.push("[Events]"@) + none;
    let part6 = part5.push("[TimingPoints]"@) + tl;
    let part7 = part6.push("[Colours]"@) + cl;
    let part8 = part7.push("[HitObjects]"@) + hl;
    assert(export_lines(b) =~= part8);
    assert(part0.drop_last() =~= none);
    assert(part0.last() == fmt);
    assert(fmt[0] == 'o');
    assert(split_state(none) == (Seq::<(Seq<char>, Seq<Seq<char>>)>::empty(), -1int));
    assert(split_state(part0) == (Seq::<(Seq<char>, Seq<Seq<char>>)>::empty(), -1int));
    lemma_headers();
    lemma_bodies_plain(b);
    lemma_block(part0, "[General]"@, gb);
    let e1 = split_state(part1).0;
    lemma_absent(e1, "[Editor]"@);
    lemma_block(part1, "[Editor]"@, eb);
    let e2 = split_state(part2).0;
    lemma_absent(e2, "[Metadata]"@);
    lemma_block(part2, "[Metadata]"@, mb);
    let e3 = split_state(part3).0;
    lemma_absent(e3, "[Difficulty]"@);
    lemma_block(part3, "[Difficulty]"@, db);
    let e4 = split_state(part4).0;
    lemma_absent(e4, "[Events]"@);
    lemma_block(part4, "[Events]"@, none);
    let e5 = split_state(part5).0;
    lemma_absent(e5, "[TimingPoints]"@);
    assert forall|j: int| 0 <= j < tl.len() implies (#[trigger] tl[j]).len() > 0 && !is_header(
        tl[j],
    ) by {
        lemma_decimal_text_start(b.timing_points.data@[j].time);
    }
    lemma_block(part5, "[TimingPoints]"@, tl);
    let e6 = split_state(part6).0;
    lemma_absent(e6, "[Colours]"@);
    lemma_color_lines_plain(b.info.colors.data@, key_width(b.info.colors.data@.len()));
    lemma_block(part6, "[Colours]"@, cl);
    let e7 = split_state(part7).0;
    lemma_absent(e7, "[HitObjects]"@);
    assert forall|j: int| 0 <= j < hl.len() implies (#[trigger] hl[j]).len() > 0 && !is_header(
        hl[j],
    ) by {
        let h = b.hit_objects.data@[j];
        let base = match h {
            HitObject::Circle { base } => base,
            HitObject::Slider { base, .. } => base,
            HitObject::Spinner { base, .. } => base,
            HitObject::Hold { base, .. } => base,
        };
        lemma_int_text_start(base.x as int);
        assert(hit_text(h)[0] == base_text(base)[0]);
    }
    lemma_block(part7, "[HitObjects]"@, hl);
    let e8 = split_state(part8).0;
    crate::sections::lemma_key_index_push(e5, ("[TimingPoints]"@, tl), "[TimingPoints]"@);
    crate::sections::lemma_key_index_push(e6, ("[Colours]"@, cl), "[TimingPoints]"@);
    crate::sections::lemma_key_index_push(e7, ("[HitObjects]"@, hl), "[TimingPoints]"@);
    crate::sections::lemma_key_index_push(e7, ("[HitObjects]"@, hl), "[HitObjects]"@);
    assert(key_index(e8, "[TimingPoints]"@) == 5);
    assert(key_index(e8, "[HitObjects]"@) == 7);
    lemma_index_at(e8, "[General]"@, 0);
    lemma_index_at(e8, "[Editor]"@, 1);
    lemma_index_at(e8, "[Metadata]"@, 2);
    lemma_index_at(e8, "[Difficulty]"@, 3);
    lemma_index_at(e8, "[Colours]"@, 6);
}

/// Exporting a map and reading the text back gives the same timing points, in order, and
/// the same hit objects, in order, where the decimals of the timing points and the
/// sliders' lengths are in shortest form, each hit object's type bits name its kind, and
/// no slider's curve holds a comma.
proof fn lemma_export_import_collections(b: Beatmap, r: Beatmap)
    requires
        collections_fit(b),
        crate::beatmap_spec(r, sections_spec(export_lines(b))),
    ensures
        r.timing_points.data@ == b.timing_points.data@,
        r.hit_objects.data@.len() == b.hit_objects.data@.len(),
        forall|i: int|
            0 <= i < r.hit_objects.data@.len() ==> same_hit(
                #[trigger] r.hit_objects.data@[i],
                b.hit_objects.data@[i],
            ),
{
    lemma_export_sections(b);
    lemma_timing_lines(b.timing_points.data@);
    let hs = b.hit_objects.data@;
    lemma_hit_lines_all(hs);
    let hl = hs.map_values(|h: HitObject| hit_text(h));
    assert forall|i: int| 0 <= i < r.hit_objects.data@.len() implies same_hit(
        #[trigger] r.hit_objects.data@[i],
        hs[i],
    ) by {
        lemma_hit_object_round_trip(hs[i]);
        assert(hl[i] == hit_text(hs[i]));
    }
}

/// `s` holds no white space at either end.
pub open spec fn trimmed(s: Seq<char>) -> bool {
    trim_spec(s) == s
}

proof fn lemma_trimmed_ends(s: Seq<char>)
    requires
        s.len() > 0,
        !crate::text::is_ws(s[0]),
        !crate::text::is_ws(s.last()),
    ensures
        trimmed(s),
{
}

proof fn lemma_int_text_trimmed(v: int)
    ensures
        trimmed(int_text(v)),
{
    let n = (if v < 0 { -v } else { v }) as nat;
    lemma_digits_of(n);
    let t = int_text(v);
    assert(is_digit(digits_of(n)[0]));
    assert(is_digit(digits_of(n).last()));
    assert(t.last() == digits_of(n).last());
    lemma_trimmed_ends(t);
}

proof fn lemma_decimal_text_trimmed(d: Decimal)
    ensures
        trimmed(decimal_text(d)),
{
    let m = d.mantissa as int;
    let n = (if m < 0 { -m } else { m }) as nat;
    let s = d.scale as nat;
    lemma_digits_of(n);
    lemma_digits_of(shift(n, s));
    lemma_decimal_text_start(d);
    let t = decimal_text(d);
    if s == 0 {
        assert(t.last() == digits_of(n).last());
        assert(is_digit(digits_of(n).last()));
    } else {
        lemma_padded(digits_of(shift(n, s)), n, s);
        assert(t.last() == padded(n, s).last());
        assert(is_digit(padded(n, s).last()));
    }
    if m >= 0 {
        if s == 0 {
            assert(is_digit(digits_of(n)[0]));
        } else {
            assert(t[0] == digits_of(shift(n, s))[0]);
            assert(is_digit(digits_of(shift(n, s))[0]));
        }
    }
    lemma_trimmed_ends(t);
}

proof fn lemma_flag_text_trimmed(b: bool)
    ensures
        trimmed(flag_text(b)),
{
    lemma_trimmed_ends(flag_text(b));
}

/// What a section of `Key: Value` lines asks of its keys: each is a plain word, and no
/// two share both their length and their first character.
pub open spec fn keys_fit(ks: Seq<Seq<char>>) -> bool {
    &&& forall|i: int|
        0 <= i < ks.len() ==> (#[trigger] ks[i]).len() > 0 && trimmed(ks[i]) && forall|j: int|
            0 <= j < ks[i].len() ==> ks[i][j] != ':'
    &&& forall|i: int, j: int|
        0 <= i < j < ks.len() ==> (#[trigger] ks[i]).len() != (#[trigger] ks[j]).len() || ks[i][0]
            != ks[j][0]
}

pub open spec fn kv_block(ks: Seq<Seq<char>>, vs: Seq<Seq<char>>) -> Seq<Seq<char>> {
    Seq::new(ks.len(), |i: int| kv_text(ks[i], vs[i]))
}

pub open spec fn kv_pairs(ks: Seq<Seq<char>>, vs: Seq<Seq<char>>) -> Seq<(Seq<char>, Seq<char>)> {
    Seq::new(ks.len(), |i: int| (ks[i], vs[i]))
}

proof fn lemma_kv_block(ks: Seq<Seq<char>>, vs: Seq<Seq<char>>)
    requires
        ks.len() == vs.len(),
        keys_fit(ks),
        forall|i: int| 0 <= i < vs.len() ==> trimmed(#[trigger] vs[i]),
    ensures
        crate::key_value::kv_entries(kv_block(ks, vs)) == kv_pairs(ks, vs),
    decreases ks.len(),
{
    if ks.len() > 0 {
        let n = ks.len() - 1;
        let k0 = ks.drop_last();
        let v0 = vs.drop_last();
        assert(forall|i: int| 0 <= i < k0.len() ==> #[trigger] k0[i] == ks[i]);
        assert(forall|i: int| 0 <= i < v0.len() ==> #[trigger] v0[i] == vs[i]);
        assert(keys_fit(k0));
        lemma_kv_block(k0, v0);
        assert(kv_block(ks, vs).drop_last() =~= kv_block(k0, v0));
        assert(ks[n].len() > 0 && trimmed(ks[n]));
        lemma_kv_round_trip(ks[n], vs[n]);
        let e = kv_pairs(k0, v0);
        crate::sections::lemma_key_index_bounds(e, ks[n]);
        if key_index(e, ks[n]) >= 0 {
            let i = key_index(e, ks[n]);
            assert(e[i].0 == ks[i]);
            assert(ks[i].len() != ks[n].len() || ks[i][0] != ks[n][0]);
        }
        assert(e.push((ks[n], vs[n])) =~= kv_pairs(ks, vs));
    } else {
        assert(kv_block(ks, vs) =~= Seq::<Seq<char>>::empty());
        assert(kv_pairs(ks, vs) =~= Seq::<(Seq<char>, Seq<char>)>::empty());
    }
}

proof fn lemma_kv_lookup(ks: Seq<Seq<char>>, vs: Seq<Seq<char>>, i: int)
    requires
        ks.len() == vs.len(),
        keys_fit(ks),
        0 <= i < ks.len(),
    ensures
        crate::key_value::kv_get(kv_pairs(ks, vs), ks[i]) == Some(vs[i]),
{
    let e = kv_pairs(ks, vs);
    crate::sections::lemma_key_index_bounds(e, ks[i]);
    let f = key_index(e, ks[i]);
    assert(e[i].0 == ks[i]);
    if f != i {
        assert(f >= 0);
        if f < i {
            assert(ks[f].len() != ks[i].len() || ks[f][0] != ks[i][0]);
        }
    }
}

/// Whether two `General` records hold the same values.
pub open spec fn same_general(a: General, b: General) -> bool {
    &&& a.audio_filename@ == b.audio_filename@
    &&& a.audio_lead_in == b.audio_lead_in
    &&& a.preview_time == b.preview_time
    &&& a.countdown == b.countdown
    &&& a.sample_set@ == b.sample_set@
    &&& a.stack_leniency == b.stack_leniency
    &&& a.mode == b.mode
    &&& a.letter_box_in_breaks == b.letter_box_in_breaks
    &&& a.samples_match_playback_rate == b.samples_match_playback_rate
    &&& a.widescreen_storyboard == b.widescreen_storyboard
}

/// The `General` lines that the export writes read back as the same record.
proof fn lemma_general_round_trip(g: General, r: General)
    requires
        trimmed(g.audio_filename@),
        normal(g.preview_time),
        trimmed(g.sample_set@),
        normal(g.stack_leniency),
        general_spec(r, kv_entries(general_lines(g).drop_first())),
    ensures
        same_general(r, g),
{
    reveal_strlit("AudioFilename");
    lemma_trimmed_ends("AudioFilename"@);
    reveal_strlit("AudioLeadIn");
    lemma_trimmed_ends("AudioLeadIn"@);
    reveal_strlit("PreviewTime");
    lemma_trimmed_ends("PreviewTime"@);
    reveal_strlit("Countdown");
    lemma_trimmed_ends("Countdown"@);
    reveal_strlit("SampleSet");
    lemma_trimmed_ends("SampleSet"@);
    reveal_strlit("StackLeniency");
    lemma_trimmed_ends("StackLeniency"@);
    reveal_strlit("Mode");
    lemma_trimmed_ends("Mode"@);
    reveal_strlit("LetterboxInBreaks");
    lemma_trimmed_ends("LetterboxInBreaks"@);
    reveal_strlit("SamplesMatchPlaybackRate");
    lemma_trimmed_ends("SamplesMatchPlaybackRate"@);
    reveal_strlit("WidescreenStoryboard");
    lemma_trimmed_ends("WidescreenStoryboard"@);
    let ks = seq!["AudioFilename"@, "AudioLeadIn"@, "PreviewTime"@, "Countdown"@, "SampleSet"@, "StackLeniency"@, "Mode"@, "LetterboxInBreaks"@, "SamplesMatchPlaybackRate"@, "WidescreenStoryboard"@];
    let vs = seq![g.audio_filename@, int_text(g.audio_lead_in as int), decimal_text(g.preview_time), int_text(g.countdown as int), g.sample_set@, decimal_text(g.stack_leniency), int_text(g.mode as int), flag_text(g.letter_box_in_breaks), flag_text(g.samples_match_playback_rate), flag_text(g.widescreen_storyboard)];
    assert(keys_fit(ks));
    assert(general_lines(g).drop_first() =~= kv_block(ks, vs));
    lemma_int_text_trimmed(g.audio_lead_in as int);
    lemma_int_round_trip(g.audio_lead_in as int);
    lemma_decimal_text_trimmed(g.preview_time);
    lemma_decimal_round_trip(g.preview_time);
    lemma_int_text_trimmed(g.countdown as int);
    lemma_int_round_trip(g.countdown as int);
    lemma_decimal_text_trimmed(g.stack_leniency);
    lemma_decimal_round_trip(g.stack_leniency);
    lemma_int_text_trimmed(g.mode as int);
    lemma_int_round_trip(g.mode as int);
    lemma_flag_text_trimmed(g.letter_box_in_breaks);
    lemma_flag_round_trip(g.letter_box_in_breaks);
    lemma_flag_text_trimmed(g.samples_match_playback_rate);
    lemma_flag_round_trip(g.samples_match_playback_rate);
    lemma_flag_text_trimmed(g.widescreen_storyboard);
    lemma_flag_round_trip(g.widescreen_storyboard);
    assert(forall|i: int| 0 <= i < vs.len() ==> trimmed(#[trigger] vs[i]));
    lemma_kv_block(ks, vs);
    lemma_kv_lookup(ks, vs, 0);
    lemma_kv_lookup(ks, vs, 1);
    lemma_kv_lookup(ks, vs, 2);
    lemma_kv_lookup(ks, vs, 3);
    lemma_kv_lookup(ks, vs, 4);
    lemma_kv_lookup(ks, vs, 5);
    lemma_kv_lookup(ks, vs, 6);
    lemma_kv_lookup(ks, vs, 7);
    lemma_kv_lookup(ks, vs, 8);
    lemma_kv_lookup(ks, vs, 9);
}

/// Whether two `Editor` records hold the same values.
pub open spec fn same_editor(a: Editor, b: Editor) -> bool {
    &&& a.bookmarks@ == b.bookmarks@
    &&& a.distance_spacing == b.distance_spacing
    &&& a.beat_divisor == b.beat_divisor
    &&& a.grid_size == b.grid_size
    &&& a.timeline_zoom == b.timeline_zoom
}

/// The `Editor` lines that the export writes read back as the same record.
proof fn lemma_editor_round_trip(g: Editor, r: Editor)
    requires
        trimmed(g.bookmarks@),
        normal(g.distance_spacing),
        normal(g.timeline_zoom),
        editor_spec(r, kv_entries(editor_lines(g).drop_first())),
    ensures
        same_editor(r, g),
{
    reveal_strlit("Bookmarks");
    lemma_trimmed_ends("Bookmarks"@);
    reveal_strlit("DistanceSpacing");
    lemma_trimmed_ends("DistanceSpacing"@);
    reveal_strlit("BeatDivisor");
    lemma_trimmed_ends("BeatDivisor"@);
    reveal_strlit("GridSize");
    lemma_trimmed_ends("GridSize"@);
    reveal_strlit("TimelineZoom");
    lemma_trimmed_ends("TimelineZoom"@);
    let ks = seq!["Bookmarks"@, "DistanceSpacing"@, "BeatDivisor"@, "GridSize"@, "TimelineZoom"@];
    let vs = seq![g.bookmarks@, decimal_text(g.distance_spacing), int_text(g.beat_divisor as int), int_text(g.grid_size as int), decimal_text(g.timeline_zoom)];
    assert(keys_fit(ks));
    assert(editor_lines(g).drop_first() =~= kv_block(ks, vs));
    lemma_decimal_text_trimmed(g.distance_spacing);
    lemma_decimal_round_trip(g.distance_spacing);
    lemma_int_text_trimmed(g.beat_divisor as int);
    lemma_int_round_trip(g.beat_divisor as int);
    lemma_int_text_trimmed(g.grid_size as int);
    lemma_int_round_trip(g.grid_size as int);
    lemma_decimal_text_trimmed(g.timeline_zoom);
    lemma_decimal_round_trip(g.timeline_zoom);
    assert(forall|i: int| 0 <= i < vs.len() ==> trimmed(#[trigger] vs[i]));
    lemma_kv_block(ks, vs);
    lemma_kv_lookup(ks, vs, 0);
    lemma_kv_lookup(ks, vs, 1);
    lemma_kv_lookup(ks, vs, 2);
    lemma_kv_lookup(ks, vs, 3);
    lemma_kv_lookup(ks, vs, 4);
}

/// Whether two `Metadata` records hold the same values.
pub open spec fn same_metadata(a: Metadata, b: Metadata) -> bool {
    &&& a.title@ == b.title@
    &&& a.title_unicode@ == b.title_unicode@
    &&& a.artist@ == b.artist@
    &&& a.artist_unicode@ == b.artist_unicode@
    &&& a.creator@ == b.creator@
    &&& a.version@ == b.version@
    &&& a.source@ == b.source@
    &&& a.tags@ == b.tags@
    &&& a.beatmap_id == b.beatmap_id
    &&& a.beatmap_set_id == b.beatmap_set_id
}

/// The `Metadata` lines that the export writes read back as the same record.
proof fn lemma_metadata_round_trip(g: Metadata, r: Metadata)
    requires
        trimmed(g.title@),
        trimmed(g.title_unicode@),
        trimmed(g.artist@),
        trimmed(g.artist_unicode@),
        trimmed(g.creator@),
        trimmed(g.version@),
        trimmed(g.source@),
        trimmed(g.tags@),
        metadata_spec(r, kv_entries(metadata_lines(g).drop_first())),
    ensures
        same_metadata(r, g),
{
    reveal_strlit("Title");
    lemma_trimmed_ends("Title"@);
    reveal_strlit("TitleUnicode");
    lemma_trimmed_ends("TitleUnicode"@);
    reveal_strlit("Artist");
    lemma_trimmed_ends("Artist"@);
    reveal_strlit("ArtistUnicode");
    lemma_trimmed_ends("ArtistUnicode"@);
    reveal_strlit("Creator");
    lemma_trimmed_ends("Creator"@);
    reveal_strlit("Version");
    lemma_trimmed_ends("Version"@);
    reveal_strlit("Source");
    lemma_trimmed_ends("Source"@);
    reveal_strlit("Tags");
    lemma_trimmed_ends("Tags"@);
    reveal_strlit("BeatmapID");
    lemma_trimmed_ends("BeatmapID"@);
    reveal_strlit("BeatmapSetID");
    lemma_trimmed_ends("BeatmapSetID"@);
    let ks = seq!["Title"@, "TitleUnicode"@, "Artist"@, "ArtistUnicode"@, "Creator"@, "Version"@, "Source"@, "Tags"@, "BeatmapID"@, "BeatmapSetID"@];
    let vs = seq![g.title@, g.title_unicode@, g.artist@, g.artist_unicode@, g.creator@, g.version@, g.source@, g.tags@, int_text(g.beatmap_id as int), int_text(g.beatmap_set_id as int)];
    assert(keys_fit(ks));
    assert(metadata_lines(g).drop_first() =~= kv_block(ks, vs));
    lemma_int_text_trimmed(g.beatmap_id as int);
    lemma_int_round_trip(g.beatmap_id as int);
    lemma_int_text_trimmed(g.beatmap_set_id as int);
    lemma_int_round_trip(g.beatmap_set_id as int);
    assert(forall|i: int| 0 <= i < vs.len() ==> trimmed(#[trigger] vs[i]));
    lemma_kv_block(ks, vs);
    lemma_kv_lookup(ks, vs, 0);
    lemma_kv_lookup(ks, vs, 1);
    lemma_kv_lookup(ks, vs, 2);
    lemma_kv_lookup(ks, vs, 3);
    lemma_kv_lookup(ks, vs, 4);
    lemma_kv_lookup(ks, vs, 5);
    lemma_kv_lookup(ks, vs, 6);
    lemma_kv_lookup(ks, vs, 7);
    lemma_kv_lookup(ks, vs, 8);
    lemma_kv_lookup(ks, vs, 9);
}

/// Whether two `Difficulty` records hold the same values.
pub open spec fn same_difficulty(a: Difficulty, b: Difficulty) -> bool {
    &&& a.hp_drain_rate == b.hp_drain_rate
    &&& a.circle_size == b.circle_size
    &&& a.overall_difficulty == b.overall_difficulty
    &&& a.approach_rate == b.approach_rate
    &&& a.slider_multiplier == b.slider_multiplier
    &&& a.slider_tick_rate == b.slider_tick_rate
}

/// The `Difficulty` lines that the export writes read back as the same record.
proof fn lemma_difficulty_round_trip(g: Difficulty, r: Difficulty)
    requires
        normal(g.hp_drain_rate),
        normal(g.circle_size),
        normal(g.overall_difficulty),
        normal(g.approach_rate),
        normal(g.slider_multiplier),
        normal(g.slider_tick_rate),
        difficulty_spec(r, kv_entries(difficulty_lines(g).drop_first())),
    ensures
        same_difficulty(r, g),
{
    reveal_strlit("HPDrainRate");
    lemma_trimmed_ends("HPDrainRate"@);
    reveal_strlit("CircleSize");
    lemma_trimmed_ends("CircleSize"@);
    reveal_strlit("OverallDifficulty");
    lemma_trimmed_ends("OverallDifficulty"@);
    reveal_strlit("ApproachRate");
    lemma_trimmed_ends("ApproachRate"@);
    reveal_strlit("SliderMultiplier");
    lemma_trimmed_ends("SliderMultiplier"@);
    reveal_strlit("SliderTickRate");
    lemma_trimmed_ends("SliderTickRate"@);
    let ks = seq!["HPDrainRate"@, "CircleSize"@, "OverallDifficulty"@, "ApproachRate"@, "SliderMultiplier"@, "SliderTickRate"@];
    let vs = seq![decimal_text(g.hp_drain_rate), decimal_text(g.circle_size), decimal_text(g.overall_difficulty), decimal_text(g.approach_rate), decimal_text(g.slider_multiplier), decimal_text(g.slider_tick_rate)];
    assert(keys_fit(ks));
    assert(difficulty_lines(g).drop_first() =~= kv_block(ks, vs));
    lemma_decimal_text_trimmed(g.hp_drain_rate);
    lemma_decimal_round_trip(g.hp_drain_rate);
    lemma_decimal_text_trimmed(g.circle_size);
    lemma_decimal_round_trip(g.circle_size);
    lemma_decimal_text_trimmed(g.overall_difficulty);
    lemma_decimal_round_trip(g.overall_difficulty);
    lemma_decimal_text_trimmed(g.approach_rate);
    lemma_decimal_round_trip(g.approach_rate);
    lemma_decimal_text_trimmed(g.slider_multiplier);
    lemma_decimal_round_trip(g.slider_multiplier);
    lemma_decimal_text_trimmed(g.slider_tick_rate);
    lemma_decimal_round_trip(g.slider_tick_rate);
    assert(forall|i: int| 0 <= i < vs.len() ==> trimmed(#[trigger] vs[i]));
    lemma_kv_block(ks, vs);
    lemma_kv_lookup(ks, vs, 0);
    lemma_kv_lookup(ks, vs, 1);
    lemma_kv_lookup(ks, vs, 2);
    lemma_kv_lookup(ks, vs, 3);
    lemma_kv_lookup(ks, vs, 4);
    lemma_kv_lookup(ks, vs, 5);
}




proof fn lemma_trimmed_ends_rev(s: Seq<char>)
    requires
        s.len() > 0,
        trimmed(s),
    ensures
        !crate::text::is_ws(s[0]),
        !crate::text::is_ws(s.last()),
{
    lemma_trim_shrinks(s);
}

proof fn lemma_trim_shrinks(s: Seq<char>)
    requires
        s.len() > 0,
    ensures
        crate::text::is_ws(s[0]) ==> trim_spec(s).len() < s.len(),
        crate::text::is_ws(s.last()) ==> trim_spec(s).len() < s.len(),
{
    lemma_trim_start_len(s);
    lemma_trim_end_len(trim_start_spec(s));
    if !crate::text::is_ws(s[0]) {
        assert(trim_start_spec(s) == s);
    }
}

proof fn lemma_trim_start_len(s: Seq<char>)
    ensures
        trim_start_spec(s).len() <= s.len(),
        s.len() > 0 && crate::text::is_ws(s[0]) ==> trim_start_spec(s).len() < s.len(),
    decreases s.len(),
{
    if s.len() > 0 && crate::text::is_ws(s[0]) {
        lemma_trim_start_len(s.drop_first());
    }
}

proof fn lemma_trim_end_len(s: Seq<char>)
    ensures
        trim_end_spec(s).len() <= s.len(),
        s.len() > 0 && crate::text::is_ws(s.last()) ==> trim_end_spec(s).len() < s.len(),
    decreases s.len(),
{
    if s.len() > 0 && crate::text::is_ws(s.last()) {
        lemma_trim_end_len(s.drop_last());
    }
}





/// What the round trip asks of a map: every text field without white space at its ends,
/// every decimal in shortest form, timing points and hit objects as `collections_fit`
/// says.
pub open spec fn export_fits(b: Beatmap) -> bool {
    let g = b.info.general;
    let e = b.info.editor;
    let m = b.info.metadata;
    let d = b.info.difficulty;
    &&& collections_fit(b)
    &&& trimmed(g.audio_filename@) && trimmed(g.sample_set@)
    &&& normal(g.preview_time) && normal(g.stack_leniency)
    &&& trimmed(e.bookmarks@) && normal(e.distance_spacing) && normal(e.timeline_zoom)
    &&& trimmed(m.title@) && trimmed(m.title_unicode@) && trimmed(m.artist@) && trimmed(
        m.artist_unicode@,
    ) && trimmed(m.creator@) && trimmed(m.version@) && trimmed(m.source@) && trimmed(m.tags@)
    &&& normal(d.hp_drain_rate) && normal(d.circle_size) && normal(d.overall_difficulty) && normal(
        d.approach_rate,
    ) && normal(d.slider_multiplier) && normal(d.slider_tick_rate)
}

/// Exporting a map and reading the text back gives the same values, field for field,
/// where the map fits what `export_fits` says.
pub proof fn lemma_export_import(b: Beatmap, r: Beatmap)
    requires
        export_fits(b),
        crate::beatmap_spec(r, sections_spec(export_lines(b))),
    ensures
        same_general(r.info.general, b.info.general),
        same_editor(r.info.editor, b.info.editor),
        same_metadata(r.info.metadata, b.info.metadata),
        same_difficulty(r.info.difficulty, b.info.difficulty),
        r.info.colors.data@ == b.info.colors.data@,
        r.timing_points.data@ == b.timing_points.data@,
        r.hit_objects.data@.len() == b.hit_objects.data@.len(),
        forall|i: int|
            0 <= i < r.hit_objects.data@.len() ==> same_hit(
                #[trigger] r.hit_objects.data@[i],
                b.hit_objects.data@[i],
            ),
{
    lemma_export_sections(b);
    lemma_export_import_collections(b, r);
    lemma_general_round_trip(b.info.general, r.info.general);
    lemma_editor_round_trip(b.info.editor, r.info.editor);
    lemma_metadata_round_trip(b.info.metadata, r.info.metadata);
    lemma_difficulty_round_trip(b.info.difficulty, r.info.difficulty);
    let cs = b.info.colors.data@;
    let rs = r.info.colors.data@;
    let w = key_width(cs.len());
    lemma_key_width(cs.len());
    lemma_color_entries(cs, w);
    lemma_combo_sorted(cs, w);
    lemma_colors_back(cs, w);
    assert(colors_view(rs) == colors_view(cs));
    assert(rs.len() == colors_view(rs).len());
    assert forall|i: int| 0 <= i < rs.len() implies rs[i] == cs[i] by {
        assert(triple(rs[i]) == colors_view(rs)[i]);
        assert(triple(cs[i]) == colors_view(cs)[i]);
    }
    assert(rs =~= cs);
}

proof fn lemma_key_lt_prefix(p: Seq<char>, a: Seq<char>, b: Seq<char>)
    ensures
        key_lt(p + a, p + b) == key_lt(a, b),
    decreases p.len(),
{
    if p.len() > 0 {
        assert((p + a).drop_first() =~= p.drop_first() + a);
        assert((p + b).drop_first() =~= p.drop_first() + b);
        assert((p + a)[0] == p[0] && (p + b)[0] == p[0]);
        lemma_key_lt_prefix(p.drop_first(), a, b);
    } else {
        assert(p + a =~= a);
        assert(p + b =~= b);
    }
}


proof fn lemma_sorted_stays(e: Seq<(Seq<char>, Seq<char>)>)
    requires
        forall|i: int, j: int| 0 <= i < j < e.len() ==> !key_lt(#[trigger] e[j].0, #[trigger] e[i].0),
    ensures
        sort_pairs(e) == e,
    decreases e.len(),
{
    if e.len() > 0 {
        let w = e.drop_last();
        assert(forall|i: int| 0 <= i < w.len() ==> #[trigger] w[i] == e[i]);
        lemma_sorted_stays(w);
        let n = w.len() as int;
        assert(forall|j: int| 0 <= j < n ==> !key_lt(e.last().0, #[trigger] w[j].0)) by {
            assert forall|j: int| 0 <= j < n implies !key_lt(e.last().0, #[trigger] w[j].0) by {
                assert(w[j] == e[j]);
                assert(e.last() == e[n]);
            }
        }
        crate::key_value::lemma_insert_at(w, e.last(), n);
        assert(w.take(n).push(e.last()) + w.skip(n) =~= e);
    } else {
        assert(e =~= Seq::<(Seq<char>, Seq<char>)>::empty());
    }
}


proof fn lemma_strip_zeros_shape(s: Seq<char>)
    ensures
        strip_zeros(s).len() <= s.len(),
        strip_zeros(s) == s.subrange(0, strip_zeros(s).len() as int),
        strip_zeros(s).len() > 0 ==> strip_zeros(s).last() != '0',
    decreases s.len(),
{
    if s.len() > 0 && s.last() == '0' {
        lemma_strip_zeros_shape(s.drop_last());
        assert(s.drop_last().subrange(0, strip_zeros(s).len() as int) =~= s.subrange(
            0,
            strip_zeros(s).len() as int,
        ));
    } else {
        assert(s.subrange(0, s.len() as int) =~= s);
    }
}

proof fn lemma_unsigned_decimal_normal(s: Seq<char>)
    ensures
        unsigned_decimal_spec(s) is Some ==> ({
            let q = unsigned_decimal_spec(s)->0;
            q.1 == 0 || q.0 % 10 != 0
        }),
{
    let d = first_index(s, '.');
    let ip = if d < 0 { s } else { s.subrange(0, d) };
    let fp = if d < 0 { Seq::<char>::empty() } else { s.subrange(d + 1, s.len() as int) };
    if unsigned_decimal_spec(s) is Some {
        let f = strip_zeros(fp);
        lemma_strip_zeros_shape(fp);
        if f.len() > 0 {
            let w = ip + f;
            assert(w.drop_last().push(w.last()) =~= w);
            assert(w.last() == f.last());
            assert(is_digit(fp[f.len() - 1]));
            assert(f.last() == fp[f.len() - 1]);
            let a = digits_val(w.drop_last());
            let dg = w.last() as int - '0' as int;
            assert(1 <= dg <= 9);
            assert((a * 10 + dg) % 10 == dg) by (nonlinear_arith)
                requires
                    1 <= dg <= 9,
            ;
        }
    }
}

/// A decimal that the reader gives is in shortest form.
pub proof fn lemma_read_decimal_normal(s: Seq<char>)
    ensures
        decimal_fits(decimal_spec(s)) is Some ==> normal(to_decimal(decimal_fits(decimal_spec(s))->0)),
{
    if s.len() > 0 && (s[0] == '-' || s[0] == '+') {
        lemma_unsigned_decimal_normal(s.drop_first());
    } else {
        lemma_unsigned_decimal_normal(s);
    }
    if decimal_fits(decimal_spec(s)) is Some {
        let q = decimal_fits(decimal_spec(s))->0;
        if s.len() > 0 && s[0] == '-' && q.1 != 0 {
            let u = unsigned_decimal_spec(s.drop_first())->0;
            assert(u.0 % 10 != 0);
            assert((-u.0) % 10 != 0) by (nonlinear_arith)
                requires
                    u.0 % 10 != 0,
            ;
        }
    }
}

proof fn lemma_trim_end_prefix(s: Seq<char>)
    ensures
        trim_end_spec(s) == s.subrange(0, trim_end_spec(s).len() as int),
        trim_end_spec(s).len() > 0 ==> !crate::text::is_ws(trim_end_spec(s).last()),
    decreases s.len(),
{
    if s.len() > 0 && crate::text::is_ws(s.last()) {
        lemma_trim_end_prefix(s.drop_last());
        lemma_trim_end_len(s.drop_last());
        assert(s.drop_last().subrange(0, trim_end_spec(s).len() as int) =~= s.subrange(
            0,
            trim_end_spec(s).len() as int,
        ));
    } else {
        assert(s.subrange(0, s.len() as int) =~= s);
    }
}

proof fn lemma_trim_start_head(s: Seq<char>)
    ensures
        trim_start_spec(s).len() > 0 ==> !crate::text::is_ws(trim_start_spec(s)[0]),
    decreases s.len(),
{
    if s.len() > 0 && crate::text::is_ws(s[0]) {
        lemma_trim_start_head(s.drop_first());
    }
}

/// Trimmed text stays as it is when trimmed again.
pub proof fn lemma_trim_trimmed(s: Seq<char>)
    ensures
        trimmed(trim_spec(s)),
{
    let t = trim_start_spec(s);
    let u = trim_end_spec(t);
    lemma_trim_start_head(s);
    lemma_trim_end_prefix(t);
    lemma_trim_end_len(t);
    if u.len() > 0 {
        assert(u[0] == t[0]);
        lemma_trimmed_ends(u);
    }
}

proof fn lemma_kv_values_trimmed(lines: Seq<Seq<char>>)
    ensures
        forall|i: int|
            0 <= i < kv_entries(lines).len() ==> trimmed(#[trigger] kv_entries(lines)[i].1),
    decreases lines.len(),
{
    if lines.len() > 0 {
        lemma_kv_values_trimmed(lines.drop_last());
        let l = lines.last();
        let d = first_index(l, ':');
        lemma_first_index_bounds(l, ':');
        let e = kv_entries(lines.drop_last());
        if d >= 0 {
            lemma_trim_trimmed(l.subrange(d + 1, l.len() as int));
            let p = kv_line(l)->0;
            assert(trimmed(p.1));
            let i = key_index(e, p.0);
            crate::sections::lemma_key_index_bounds(e, p.0);
            let r = kv_entries(lines);
            assert forall|j: int| 0 <= j < r.len() implies trimmed(#[trigger] r[j].1) by {
                if i < 0 {
                    assert(r == e.push(p));
                    if j < e.len() {
                        assert(r[j] == e[j]);
                    }
                } else {
                    assert(r == e.update(i, p));
                    if j != i {
                        assert(r[j] == e[j]);
                    }
                }
            }
        }
    }
}

proof fn lemma_text_or_trimmed(e: Seq<(Seq<char>, Seq<char>)>, k: Seq<char>, default: Seq<char>)
    requires
        forall|i: int| 0 <= i < e.len() ==> trimmed(#[trigger] e[i].1),
        trimmed(default),
    ensures
        trimmed(crate::fields::text_or(e, k, default)),
{
    crate::sections::lemma_key_index_bounds(e, k);
}

/// No piece of a split holds the separator.
proof fn lemma_split_pieces(s: Seq<char>, c: char)
    ensures
        forall|i: int, j: int|
            0 <= i < split_spec(s, c).len() && 0 <= j < split_spec(s, c)[i].len() ==> split_spec(
                s,
                c,
            )[i][j] != c,
    decreases s.len(),
{
    if s.len() > 0 {
        lemma_split_pieces(s.drop_last(), c);
        lemma_split_nonempty(s.drop_last(), c);
    }
}

proof fn lemma_decimal_or_normal(e: Seq<(Seq<char>, Seq<char>)>, k: Seq<char>, dflt: Decimal, d: Decimal)
    requires
        normal(dflt),
        d.pair() == crate::fields::decimal_or(e, k, dflt.pair()),
    ensures
        normal(d),
{
    match crate::key_value::kv_get(e, k) {
        Some(v) => {
            lemma_read_decimal_normal(v);
        },
        None => {},
    }
}

proof fn lemma_hit_fits(l: Seq<char>, h: HitObject)
    requires
        hit_object_is(split_spec(l, ','), h),
    ensures
        kind_fits(h),
{
    let f = split_spec(l, ',');
    lemma_split_pieces(l, ',');
    if f.len() >= 8 {
        lemma_read_decimal_normal(f[7]);
    }
}

proof fn lemma_timing_fits(lines: Seq<Seq<char>>)
    ensures
        forall|i: int|
            0 <= i < timing_points_spec(lines).len() ==> normal(
                #[trigger] timing_points_spec(lines)[i].time,
            ) && normal(timing_points_spec(lines)[i].beat_length),
    decreases lines.len(),
{
    if lines.len() > 0 {
        lemma_timing_fits(lines.drop_last());
        let f = split_spec(lines.last(), ',');
        if f.len() >= 2 {
            lemma_read_decimal_normal(f[0]);
            lemma_read_decimal_normal(f[1]);
        }
        let w = timing_points_spec(lines.drop_last());
        let r = timing_points_spec(lines);
        match timing_point_of(lines.last()) {
            Some(t) => {
                assert(r == w.push(t));
                assert(normal(t.time) && normal(t.beat_length));
                assert forall|i: int| 0 <= i < r.len() implies normal(#[trigger] r[i].time) && normal(
                    r[i].beat_length,
                ) by {
                    if i < w.len() {
                        assert(r[i] == w[i]);
                    }
                }
            },
            None => {
                assert(r == w);
            },
        }
    }
}

/// A map that was read from text has its text fields trimmed, its decimals in shortest
/// form, and its hit objects' type bits naming their kinds: it fits what the round trip
/// asks.
pub proof fn lemma_import_fits(lines: Seq<Seq<char>>, b: Beatmap)
    requires
        crate::beatmap_spec(b, sections_spec(lines)),
    ensures
        export_fits(b),
{
    let e = sections_spec(lines);
    reveal_strlit("");
    reveal_strlit("Normal");
    lemma_trimmed_ends("Normal"@);
    assert(trimmed(""@));
    let ge = kv_entries(section_lines(e, "[General]"@));
    let ee = kv_entries(section_lines(e, "[Editor]"@));
    let me = kv_entries(section_lines(e, "[Metadata]"@));
    let de = kv_entries(section_lines(e, "[Difficulty]"@));
    lemma_kv_values_trimmed(section_lines(e, "[General]"@));
    lemma_kv_values_trimmed(section_lines(e, "[Editor]"@));
    lemma_kv_values_trimmed(section_lines(e, "[Metadata]"@));
    lemma_kv_values_trimmed(section_lines(e, "[Difficulty]"@));
    let g = b.info.general;
    let ed = b.info.editor;
    let m = b.info.metadata;
    let d = b.info.difficulty;
    lemma_text_or_trimmed(ge, "AudioFilename"@, ""@);
    lemma_text_or_trimmed(ge, "SampleSet"@, "Normal"@);
    lemma_decimal_or_normal(ge, "PreviewTime"@, Decimal { mantissa: -1i64, scale: 0u32 }, g.preview_time);
    lemma_decimal_or_normal(ge, "StackLeniency"@, Decimal { mantissa: 7i64, scale: 1u32 }, g.stack_leniency);
    lemma_text_or_trimmed(ee, "Bookmarks"@, ""@);
    lemma_decimal_or_normal(ee, "DistanceSpacing"@, Decimal { mantissa: 1i64, scale: 0u32 }, ed.distance_spacing);
    lemma_decimal_or_normal(ee, "TimelineZoom"@, Decimal { mantissa: 1i64, scale: 0u32 }, ed.timeline_zoom);
    lemma_text_or_trimmed(me, "Title"@, ""@);
    lemma_text_or_trimmed(me, "TitleUnicode"@, ""@);
    lemma_text_or_trimmed(me, "Artist"@, ""@);
    lemma_text_or_trimmed(me, "ArtistUnicode"@, ""@);
    lemma_text_or_trimmed(me, "Creator"@, ""@);
    lemma_text_or_trimmed(me, "Version"@, ""@);
    lemma_text_or_trimmed(me, "Source"@, ""@);
    lemma_text_or_trimmed(me, "Tags"@, ""@);
    lemma_decimal_or_normal(de, "HPDrainRate"@, Decimal { mantissa: 5i64, scale: 0u32 }, d.hp_drain_rate);
    lemma_decimal_or_normal(de, "CircleSize"@, Decimal { mantissa: 5i64, scale: 0u32 }, d.circle_size);
    lemma_decimal_or_normal(de, "OverallDifficulty"@, Decimal { mantissa: 5i64, scale: 0u32 }, d.overall_difficulty);
    lemma_decimal_or_normal(de, "ApproachRate"@, Decimal { mantissa: 5i64, scale: 0u32 }, d.approach_rate);
    lemma_decimal_or_normal(de, "SliderMultiplier"@, Decimal { mantissa: 14i64, scale: 1u32 }, d.slider_multiplier);
    lemma_decimal_or_normal(de, "SliderTickRate"@, Decimal { mantissa: 1i64, scale: 0u32 }, d.slider_tick_rate);
    lemma_timing_fits(section_lines(e, "[TimingPoints]"@));
    let ok = hit_lines(section_lines(e, "[HitObjects]"@));
    let hs = b.hit_objects.data@;
    assert forall|i: int| 0 <= i < hs.len() implies kind_fits(#[trigger] hs[i]) by {
        lemma_hit_fits(ok[i], hs[i]);
    }
}

/// Reading a map from text, exporting it and reading the export gives the same values,
/// field for field.
pub proof fn lemma_import_export_import(lines: Seq<Seq<char>>, b: Beatmap, r: Beatmap)
    requires
        crate::beatmap_spec(b, sections_spec(lines)),
        crate::beatmap_spec(r, sections_spec(export_lines(b))),
    ensures
        same_general(r.info.general, b.info.general),
        same_editor(r.info.editor, b.info.editor),
        same_metadata(r.info.metadata, b.info.metadata),
        same_difficulty(r.info.difficulty, b.info.difficulty),
        r.info.colors.data@ == b.info.colors.data@,
        r.timing_points.data@ == b.timing_points.data@,
        r.hit_objects.data@.len() == b.hit_objects.data@.len(),
        forall|i: int|
            0 <= i < r.hit_objects.data@.len() ==> same_hit(
                #[trigger] r.hit_objects.data@[i],
                b.hit_objects.data@[i],
            ),
{
    lemma_import_fits(lines, b);
    lemma_export_import(b, r);
}

proof fn lemma_shift_mono(a: nat, b: nat, w: nat)
    requires
        a <= b,
    ensures
        shift(a, w) <= shift(b, w),
    decreases w,
{
    if w > 0 {
        assert(a / 10 <= b / 10) by (nonlinear_arith)
            requires
                a <= b,
        ;
        lemma_shift_mono(a / 10, b / 10, (w - 1) as nat);
    }
}

proof fn lemma_key_width(n: nat)
    ensures
        key_width(n) >= 1,
        shift(n, key_width(n)) == 0,
    decreases n,
{
    if n >= 10 {
        lemma_key_width(n / 10);
        assert(key_width(n) == key_width(n / 10) + 1);
        assert(shift(n, key_width(n)) == shift(n / 10, key_width(n / 10)));
    } else {
        assert(key_width(n) == 1);
        assert(shift(n, 1) == shift(n / 10, 0));
    }
}

proof fn lemma_padded_digits(n: nat, w: nat)
    requires
        shift(n, w) == 0,
    ensures
        padded(n, w).len() == w,
        all_digits(padded(n, w)),
        digits_val(padded(n, w)) == n,
{
    lemma_padded(Seq::empty(), n, w);
    assert(Seq::<char>::empty() + padded(n, w) =~= padded(n, w));
}

proof fn lemma_key_lt_push(x: Seq<char>, y: Seq<char>, c: char, d: char)
    requires
        x.len() == y.len(),
    ensures
        key_lt(x.push(c), y.push(d)) == if x == y {
            (c as u32) < (d as u32)
        } else {
            key_lt(x, y)
        },
    decreases x.len(),
{
    if x.len() == 0 {
        assert(x =~= y);
        assert(x.push(c).drop_first() =~= Seq::<char>::empty());
        assert(y.push(d).drop_first() =~= Seq::<char>::empty());
        assert(!key_lt(Seq::<char>::empty(), Seq::<char>::empty()));
        assert(x.push(c)[0] == c && y.push(d)[0] == d);
        if c == d {
            assert(key_lt(x.push(c), y.push(d)) == key_lt(Seq::<char>::empty(), Seq::<char>::empty()));
        }
    } else {
        assert(x.push(c).drop_first() =~= x.drop_first().push(c));
        assert(y.push(d).drop_first() =~= y.drop_first().push(d));
        lemma_key_lt_push(x.drop_first(), y.drop_first(), c, d);
        assert(x.push(c)[0] == x[0] && y.push(d)[0] == y[0]);
        if x[0] == y[0] {
            assert(key_lt(x.push(c), y.push(d)) == key_lt(x.drop_first().push(c), y.drop_first().push(d)));
            assert(key_lt(x, y) == key_lt(x.drop_first(), y.drop_first()));
        } else {
            assert(x != y);
        }
        if x[0] == y[0] && x.drop_first() == y.drop_first() {
            assert forall|i: int| 0 <= i < x.len() implies x[i] == y[i] by {
                if i > 0 {
                    assert(x[i] == x.drop_first()[i - 1]);
                    assert(y[i] == y.drop_first()[i - 1]);
                }
            }
            assert(x =~= y);
        }
        if x == y {
            assert(x.drop_first() == y.drop_first());
        }
    }
}

proof fn lemma_padded_order(a: nat, b: nat, w: nat)
    requires
        a <= b,
        shift(b, w) == 0,
    ensures
        !key_lt(padded(b, w), padded(a, w)),
    decreases w,
{
    if w == 0 {
    } else {
        let w1 = (w - 1) as nat;
        lemma_shift_mono(a, b, w);
        assert(a / 10 <= b / 10) by (nonlinear_arith)
            requires
                a <= b,
        ;
        lemma_padded_order(a / 10, b / 10, w1);
        let x = padded(b / 10, w1);
        let y = padded(a / 10, w1);
        lemma_padded_digits(b / 10, w1);
        lemma_padded_digits(a / 10, w1);
        lemma_key_lt_push(x, y, digit_char(b % 10), digit_char(a % 10));
        lemma_digit_char(a % 10);
        lemma_digit_char(b % 10);
        if x == y {
            assert(a / 10 == b / 10);
            assert(a % 10 <= b % 10) by (nonlinear_arith)
                requires
                    a <= b,
                    a / 10 == b / 10,
            ;
        }
    }
}

/// The key of the `n`-th colour, its number written in `w` digits.
pub open spec fn combo_key(n: nat, w: nat) -> Seq<char> {
    "Combo"@ + padded(n, w)
}

proof fn lemma_combo_key(n: nat, w: nat)
    requires
        w >= 1,
        shift(n, w) == 0,
    ensures
        combo_key(n, w).len() > 5,
        combo_key(n, w).subrange(5, combo_key(n, w).len() as int) == padded(n, w),
        combo_key(n, w)[0] == 'C',
        !crate::text::is_ws(combo_key(n, w).last()),
        forall|j: int| 0 <= j < combo_key(n, w).len() ==> combo_key(n, w)[j] != ':',
{
    reveal_strlit("Combo");
    lemma_padded_digits(n, w);
    let k = combo_key(n, w);
    let p = padded(n, w);
    assert(k.subrange(5, k.len() as int) =~= p);
    assert(k.last() == p.last());
    assert(is_digit(p[p.len() - 1]));
    assert forall|j: int| 0 <= j < k.len() implies k[j] != ':' by {
        if j >= 5 {
            assert(k[j] == p[j - 5]);
            assert(is_digit(p[j - 5]));
        }
    }
}

proof fn lemma_combo_line(n: nat, w: nat, c: Color)
    requires
        w >= 1,
        shift(n, w) == 0,
    ensures
        kv_line("Combo"@ + padded(n, w) + " : "@ + color_text(c)) == Some(
            (combo_key(n, w), color_text(c)),
        ),
{
    reveal_strlit(" : ");
    let k = combo_key(n, w);
    lemma_combo_key(n, w);
    let t = color_text(c);
    let ks = k + seq![' '];
    assert("Combo"@ + padded(n, w) + " : "@ + t =~= ks + seq![':'] + (seq![' '] + t));
    assert forall|j: int| 0 <= j < ks.len() implies ks[j] != ':' by {
        if j < k.len() {
            assert(ks[j] == k[j]);
        }
    }
    crate::key_value::lemma_split_at_first_colon(ks, seq![' '] + t);
    lemma_trim_space(t);
    lemma_int_text_trimmed(c.0 as int);
    lemma_int_text_trimmed(c.2 as int);
    lemma_int_text_start(c.0 as int);
    assert(t[0] == int_text(c.0 as int)[0]);
    assert(t.last() == int_text(c.2 as int).last());
    lemma_trimmed_ends_rev(int_text(c.0 as int));
    lemma_trimmed_ends_rev(int_text(c.2 as int));
    lemma_trimmed_ends(t);
    assert(ks.drop_last() =~= k);
    assert(trim_start_spec(ks) == ks);
    lemma_trimmed_ends(k);
}

proof fn lemma_color_lines_plain(v: Seq<Color>, w: nat)
    ensures
        color_lines_w(v, w).len() == v.len(),
        forall|j: int|
            0 <= j < v.len() ==> (#[trigger] color_lines_w(v, w)[j]).len() > 0 && !is_header(
                color_lines_w(v, w)[j],
            ),
    decreases v.len(),
{
    reveal_strlit("Combo");
    if v.len() > 0 {
        lemma_color_lines_plain(v.drop_last(), w);
        let l = "Combo"@ + padded(v.len(), w) + " : "@ + color_text(v.last());
        assert(l[0] == 'C');
    }
}

proof fn lemma_combo_key_distinct(a: nat, b: nat, w: nat)
    requires
        a != b,
        w >= 1,
        shift(a, w) == 0,
        shift(b, w) == 0,
    ensures
        combo_key(a, w) != combo_key(b, w),
{
    lemma_combo_key(a, w);
    lemma_combo_key(b, w);
    lemma_padded_digits(a, w);
    lemma_padded_digits(b, w);
    if combo_key(a, w) == combo_key(b, w) {
        assert(padded(a, w) == padded(b, w));
    }
}

/// The pairs that the exported colour lines give: `ComboN` and the colour's text.
pub open spec fn combo_pairs(v: Seq<Color>, w: nat) -> Seq<(Seq<char>, Seq<char>)> {
    Seq::new(v.len(), |i: int| (combo_key((i + 1) as nat, w), color_text(v[i])))
}

proof fn lemma_color_entries(v: Seq<Color>, w: nat)
    requires
        w >= 1,
        shift(v.len(), w) == 0,
    ensures
        kv_entries(color_lines_w(v, w)) == combo_pairs(v, w),
    decreases v.len(),
{
    if v.len() > 0 {
        let u = v.drop_last();
        lemma_shift_mono(u.len(), v.len(), w);
        lemma_color_entries(u, w);
        lemma_combo_line(v.len(), w, v.last());
        let line = "Combo"@ + padded(v.len(), w) + " : "@ + color_text(v.last());
        let cl = color_lines_w(v, w);
        assert(cl == color_lines_w(u, w).push(line));
        assert(cl.drop_last() =~= color_lines_w(u, w));
        assert(cl.last() == line);
        let e = combo_pairs(u, w);
        let k = combo_key(v.len(), w);
        crate::sections::lemma_key_index_bounds(e, k);
        if key_index(e, k) >= 0 {
            let i = key_index(e, k);
            lemma_shift_mono((i + 1) as nat, v.len(), w);
            lemma_combo_key_distinct((i + 1) as nat, v.len(), w);
        }
        assert(forall|i: int| 0 <= i < u.len() ==> #[trigger] u[i] == v[i]);
        assert(e.push((k, color_text(v.last()))) =~= combo_pairs(v, w));
    } else {
        assert(color_lines_w(v, w) =~= Seq::<Seq<char>>::empty());
        assert(combo_pairs(v, w) =~= Seq::<(Seq<char>, Seq<char>)>::empty());
    }
}

proof fn lemma_colors_back(v: Seq<Color>, w: nat)
    ensures
        colors_spec(combo_pairs(v, w)) == colors_view(v),
    decreases v.len(),
{
    if v.len() > 0 {
        let u = v.drop_last();
        lemma_colors_back(u, w);
        assert(forall|i: int| 0 <= i < u.len() ==> #[trigger] u[i] == v[i]);
        assert(combo_pairs(v, w).drop_last() =~= combo_pairs(u, w));
        lemma_color_round_trip(v.last());
        assert(colors_view(v) =~= colors_view(u).push(triple(v.last())));
    } else {
        assert(combo_pairs(v, w) =~= Seq::<(Seq<char>, Seq<char>)>::empty());
        assert(colors_view(v) =~= Seq::<(int, int, int)>::empty());
    }
}

proof fn lemma_combo_sorted(v: Seq<Color>, w: nat)
    requires
        shift(v.len(), w) == 0,
    ensures
        sort_pairs(combo_pairs(v, w)) == combo_pairs(v, w),
{
    let e = combo_pairs(v, w);
    assert forall|i: int, j: int| 0 <= i < j < e.len() implies !key_lt(
        #[trigger] e[j].0,
        #[trigger] e[i].0,
    ) by {
        lemma_shift_mono((j + 1) as nat, v.len(), w);
        lemma_padded_order((i + 1) as nat, (j + 1) as nat, w);
        lemma_key_lt_prefix("Combo"@, padded((j + 1) as nat, w), padded((i + 1) as nat, w));
    }
    lemma_sorted_stays(e);
}

} // verus!
