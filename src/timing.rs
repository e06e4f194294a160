use vstd::prelude::*;
use crate::num::{Decimal, bool_spec, decimal_fits, decimal_spec, parse_bool, parse_decimal, parse_i32, signed_spec, within};
use crate::text::{split_on, split_spec, views};

verus! {

/// One timing point.
#[derive(Clone, Copy, Debug, PartialEq, Eq, Structural)]
pub struct TimingPoint {
    pub time: Decimal,
    pub beat_length: Decimal,
    pub meter: i32,
    pub sample_set: i32,
    pub sample_index: i32,
    pub volume: i32,
    pub uninherited: bool,
    pub effects: i32,
}

/// The `[TimingPoints]` section, in the order of its lines.
pub struct TimingPoints {
    pub data: Vec<TimingPoint>,
}

/// The 32-bit integer in the `k`-th field, or `default` where it is absent or unreadable.
pub open spec fn opt_int(f: Seq<Seq<char>>, k: int, default: int) -> int {
    if k < f.len() {
        match within(signed_spec(f[k]), i32::MIN as int, i32::MAX as int) {
            Some(x) => x,
            None => default,
        }
    } else {
        default
    }
}

/// The flag in the `k`-th field, or `default` where it is absent or unreadable.
pub open spec fn opt_flag(f: Seq<Seq<char>>, k: int, default: bool) -> bool {
    if k < f.len() {
        match bool_spec(f[k]) {
            Some(x) => x,
            None => default,
        }
    } else {
        default
    }
}

pub open spec fn to_decimal(p: (int, int)) -> Decimal {
    Decimal { mantissa: p.0 as i64, scale: p.1 as u32 }
}

/// The timing point of a line `time,beatLength,meter,sampleSet,sampleIndex,volume,
/// uninherited,effects`. The first two fields must be there and readable; the others fall
/// back to 4, 0, 0, 100, true and 0.
pub open spec fn timing_point_of(l: Seq<char>) -> Option<TimingPoint> {
    let f = split_spec(l, ',');
    if f.len() >= 2 && decimal_fits(decimal_spec(f[0])) is Some && decimal_fits(
        decimal_spec(f[1]),
    ) is Some {
        Some(
            TimingPoint {
                time: to_decimal(decimal_fits(decimal_spec(f[0]))->0),
                beat_length: to_decimal(decimal_fits(decimal_spec(f[1]))->0),
                meter: opt_int(f, 2, 4) as i32,
                sample_set: opt_int(f, 3, 0) as i32,
                sample_index: opt_int(f, 4, 0) as i32,
                volume: opt_int(f, 5, 100) as i32,
                uninherited: opt_flag(f, 6, true),
                effects: opt_int(f, 7, 0) as i32,
            },
        )
    } else {
        None
    }
}

/// The timing points of the lines, in order; a line without one is skipped.
pub open spec fn timing_points_spec(lines: Seq<Seq<char>>) -> Seq<TimingPoint>
    decreases lines.len(),
{
    if lines.len() == 0 {
        Seq::empty()
    } else {
        match timing_point_of(lines.last()) {
            Some(t) => timing_points_spec(lines.drop_last()).push(t),
            None => timing_points_spec(lines.drop_last()),
        }
    }
}

/// The integer in field `k`, or `default`.
pub fn field_i32(f: &Vec<String>, k: usize, default: i32) -> (r: i32)
    ensures
        r as int == opt_int(views(f@), k as int, default as int),
{
    if k < f.len() {
        match parse_i32(f[k].as_str()) {
            Some(x) => x,
            None => default,
        }
    } else {
        default
    }
}

/// The flag in field `k`, or `default`.
pub fn field_bool(f: &Vec<String>, k: usize, default: bool) -> (r: bool)
    ensures
        r == opt_flag(views(f@), k as int, default),
{
    if k < f.len() {
        match parse_bool(f[k].as_str()) {
            Some(x) => x,
            None => default,
        }
    } else {
        default
    }
}

/// Reads one timing point line.
pub fn timing_point_line(line: &String) -> (r: Option<TimingPoint>)
    ensures
        r == timing_point_of(line@),
{
    let f = split_on(line.as_str(), ',');
    if f.len() < 2 {
        return None;
    }
    let time = match parse_decimal(f[0].as_str()) {
        Some(t) => t,
        None => return None,
    };
    let beat_length = match parse_decimal(f[1].as_str()) {
        Some(t) => t,
        None => return None,
    };
    Some(
        TimingPoint {
            time,
            beat_length,
            meter: field_i32(&f, 2, 4),
            sample_set: field_i32(&f, 3, 0),
            sample_index: field_i32(&f, 4, 0),
            volume: field_i32(&f, 5, 100),
            uninherited: field_bool(&f, 6, true),
            effects: field_i32(&f, 7, 0),
        },
    )
}

/// Reads the `[TimingPoints]` lines, keeping their order and skipping a line that lacks
/// a readable time or beat length.
pub fn get_timing_points(section: &Vec<String>) -> (r: TimingPoints)
    ensures
        r.data@ == timing_points_spec(views(section@)),
{
    let ghost all = views(section@);
    let mut data: Vec<TimingPoint> = Vec::new();
    let mut i: usize = 0;
    assert(all.take(0) =~= Seq::<Seq<char>>::empty());
    while i < section.len()
        invariant
            i <= section.len(),
            all == views(section@),
            data@ == timing_points_spec(all.take(i as int)),
        decreases section.len() - i,
    {
        assert(all.take(i + 1).drop_last() =~= all.take(i as int));
        assert(all.take(i + 1).last() == section@[i as int]@);
        match timing_point_line(&section[i]) {
            Some(t) => data.push(t),
            None => {},
        }
        i = i + 1;
    }
    assert(all.take(section.len() as int) =~= all);
    TimingPoints { data }
}

} // verus!
