use vstd::prelude::*;
use crate::num::{Decimal, decimal_fits, decimal_spec, parse_decimal, parse_i32, parse_u32, signed_spec, unsigned_spec, within};
use crate::text::{split_on, split_spec, views};
use crate::timing::{field_i32, opt_int};

verus! {

/// What every hit object has.
#[derive(Clone, Copy, Debug, PartialEq, Eq, Structural)]
pub struct HitBase {
    pub x: i32,
    pub y: i32,
    pub time: i32,
    pub kind: u32,
    pub hit_sound: i32,
}

/// A hit object, by its kind.
pub enum HitObject {
    Circle { base: HitBase },
    Slider { base: HitBase, curve: String, slides: i32, length: Decimal },
    Spinner { base: HitBase, end_time: i32 },
    Hold { base: HitBase, end_time: i32 },
}

/// The `[HitObjects]` section, in the order of its lines.
pub struct HitObjects {
    pub data: Vec<HitObject>,
}

pub open spec fn int_of(p: Seq<char>) -> Option<int> {
    within(signed_spec(p), i32::MIN as int, i32::MAX as int)
}

/// The shared fields `x,y,time,type,hitSound` of a line's fields, where the line has all
/// five and its position, time and type are readable; an unreadable hit sound reads as 0.
pub open spec fn base_of(f: Seq<Seq<char>>) -> Option<HitBase> {
    if f.len() >= 5 && int_of(f[0]) is Some && int_of(f[1]) is Some && int_of(f[2]) is Some
        && within(unsigned_spec(f[3]), 0, u32::MAX as int) is Some {
        Some(
            HitBase {
                x: int_of(f[0])->0 as i32,
                y: int_of(f[1])->0 as i32,
                time: int_of(f[2])->0 as i32,
                kind: within(unsigned_spec(f[3]), 0, u32::MAX as int)->0 as u32,
                hit_sound: opt_int(f, 4, 0) as i32,
            },
        )
    } else {
        None
    }
}

/// Whether bit `k` of the type is set.
pub open spec fn has_bit(t: u32, k: nat) -> bool {
    (t as nat / vstd::arithmetic::power2::pow2(k)) % 2 == 1
}

/// Whether `h` is the hit object of a line with the fields `f`. The first set bit among 1
/// (circle), 2 (slider), 8 (spinner) and 128 (hold) of the type gives the kind. A slider
/// has its curve and, where readable, its number of slides (else 1) and its length (else
/// 0); a spinner
/// its end time; a hold the end time before the first `:` of its sixth field.
pub open spec fn hit_object_is(f: Seq<Seq<char>>, h: HitObject) -> bool {
    match base_of(f) {
        Some(b) => if has_bit(b.kind, 0) {
            h == HitObject::Circle { base: b }
        } else if has_bit(b.kind, 1) {
            match h {
                HitObject::Slider { base, curve, slides, length } => f.len() >= 6 && base == b
                    && curve@ == f[5] && slides as int == opt_int(f, 6, 1) && length.pair() == (
                if f.len() >= 8 && decimal_fits(decimal_spec(f[7])) is Some {
                    decimal_fits(decimal_spec(f[7]))->0
                } else {
                    (0, 0)
                }),
                _ => false,
            }
        } else if has_bit(b.kind, 3) {
            f.len() >= 6 && int_of(f[5]) is Some && h == HitObject::Spinner {
                base: b,
                end_time: int_of(f[5])->0 as i32,
            }
        } else if has_bit(b.kind, 7) {
            f.len() >= 6 && int_of(split_spec(f[5], ':')[0]) is Some && h == HitObject::Hold {
                base: b,
                end_time: int_of(split_spec(f[5], ':')[0])->0 as i32,
            }
        } else {
            false
        },
        None => false,
    }
}

/// Whether the line holds a hit object.
pub open spec fn hit_line_ok(l: Seq<char>) -> bool {
    exists|h: HitObject| hit_object_is(split_spec(l, ','), h)
}

/// The lines that hold a hit object, in order.
pub open spec fn hit_lines(lines: Seq<Seq<char>>) -> Seq<Seq<char>>
    decreases lines.len(),
{
    if lines.len() == 0 {
        Seq::empty()
    } else if hit_line_ok(lines.last()) {
        hit_lines(lines.drop_last()).push(lines.last())
    } else {
        hit_lines(lines.drop_last())
    }
}

/// Whether `v` holds the hit objects of `lines`, one for each line that holds one, in order.
pub open spec fn hit_objects_are(lines: Seq<Seq<char>>, v: Seq<HitObject>) -> bool {
    let ok = hit_lines(lines);
    &&& v.len() == ok.len()
    &&& forall|i: int| 0 <= i < v.len() ==> hit_object_is(split_spec(ok[i], ','), #[trigger] v[i])
}

fn read_i32(p: &String) -> (r: Option<i32>)
    ensures
        match r {
            Some(x) => int_of(p@) == Some(x as int),
            None => int_of(p@) is None,
        },
{
    parse_i32(p.as_str())
}

/// Reads one hit object line.
pub fn hit_object_line(line: &String) -> (r: Option<HitObject>)
    ensures
        match r {
            Some(h) => hit_object_is(split_spec(line@, ','), h),
            None => !hit_line_ok(line@),
        },
{
    let f = split_on(line.as_str(), ',');
    let ghost fv = views(f@);
    assert(fv == split_spec(line@, ','));
    if f.len() < 5 {
        return None;
    }
    assert(fv[0] == f@[0]@ && fv[1] == f@[1]@ && fv[2] == f@[2]@ && fv[3] == f@[3]@ && fv[4]
        == f@[4]@);
    let x = match read_i32(&f[0]) { Some(v) => v, None => return None };
    let y = match read_i32(&f[1]) { Some(v) => v, None => return None };
    let time = match read_i32(&f[2]) { Some(v) => v, None => return None };
    let kind = match parse_u32(f[3].as_str()) { Some(v) => v, None => return None };
    let hit_sound = field_i32(&f, 4, 0);
    let base = HitBase { x, y, time, kind, hit_sound };
    assert(base_of(fv) == Some(base));
    proof {
        vstd::arithmetic::power2::lemma2_to64();
    }
    if kind % 2 == 1 {
        return Some(HitObject::Circle { base });
    } else if (kind / 2) % 2 == 1 {
        if f.len() < 6 {
            return None;
        }
        assert(fv[5] == f@[5]@);
        let slides = field_i32(&f, 6, 1);
        let length = if f.len() >= 8 {
            assert(fv[7] == f@[7]@);
            match parse_decimal(f[7].as_str()) {
                Some(d) => d,
                None => Decimal::new(0, 0),
            }
        } else {
            Decimal::new(0, 0)
        };
        return Some(HitObject::Slider { base, curve: f[5].clone(), slides, length });
    } else if (kind / 8) % 2 == 1 {
        if f.len() < 6 {
            return None;
        }
        assert(fv[5] == f@[5]@);
        let end_time = match read_i32(&f[5]) { Some(v) => v, None => return None };
        return Some(HitObject::Spinner { base, end_time });
    } else if (kind / 128) % 2 == 1 {
        if f.len() < 6 {
            return None;
        }
        assert(fv[5] == f@[5]@);
        let g = split_on(f[5].as_str(), ':');
        proof {
            crate::text::lemma_split_nonempty(fv[5], ':');
        }
        assert(views(g@)[0] == g@[0]@);
        let end_time = match read_i32(&g[0]) { Some(v) => v, None => return None };
        return Some(HitObject::Hold { base, end_time });
    }
    None
}

/// Reads the `[HitObjects]` lines, keeping their order and skipping a line that holds no
/// hit object.
pub fn get_hit_objects(section: &Vec<String>) -> (r: HitObjects)
    ensures
        hit_objects_are(views(section@), r.data@),
{
    let ghost all = views(section@);
    let mut data: Vec<HitObject> = Vec::new();
    let mut i: usize = 0;
    assert(all.take(0) =~= Seq::<Seq<char>>::empty());
    while i < section.len()
        invariant
            i <= section.len(),
            all == views(section@),
            hit_objects_are(all.take(i as int), data@),
        decreases section.len() - i,
    {
        assert(all.take(i + 1).drop_last() =~= all.take(i as int));
        assert(all.take(i + 1).last() == section@[i as int]@);
        let ghost ok = hit_lines(all.take(i as int));
        match hit_object_line(&section[i]) {
            Some(h) => {
                let ghost before = data@;
                data.push(h);
                assert(hit_line_ok(section@[i as int]@));
                assert(hit_lines(all.take(i + 1)) == ok.push(section@[i as int]@));
                assert forall|j: int| 0 <= j < data@.len() implies hit_object_is(
                    split_spec(hit_lines(all.take(i + 1))[j], ','),
                    #[trigger] data@[j],
                ) by {
                    if j < before.len() {
                        assert(data@[j] == before[j]);
                    }
                }
            },
            None => {},
        }
        i = i + 1;
    }
    assert(all.take(section.len() as int) =~= all);
    HitObjects { data }
}

} // verus!
