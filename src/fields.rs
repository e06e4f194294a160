use vstd::prelude::*;
use vstd::string::StringExecFns;
use crate::key_value::{KeyValue, get_value, kv_get, pairs_view};
use crate::num::{Decimal, bool_spec, decimal_fits, decimal_spec, parse_bool, parse_decimal, parse_i32, signed_spec, within};
use crate::sections::{Section, lemma_key_index_bounds, section_index, section_lines, sections_view};
use crate::text::views;

verus! {

/// The lines of the section named `name`, or `empty` where there is no such section.
pub fn lines_of<'a>(sections: &'a Vec<Section>, name: &str, empty: &'a Vec<String>) -> (r: &'a Vec<
    String,
>)
    requires
        empty@.len() == 0,
    ensures
        views(r@) == section_lines(sections_view(sections@), name@),
{
    let n = String::from_str(name);
    match section_index(sections, &n) {
        Some(i) => {
            proof {
                lemma_key_index_bounds(sections_view(sections@), name@);
            }
            assert(sections_view(sections@)[i as int] == sections@[i as int].pair());
            &sections[i].lines
        },
        None => {
            assert(views(empty@) =~= Seq::empty());
            empty
        },
    }
}

/// The text under `k`, or `default`.
pub open spec fn text_or(e: Seq<(Seq<char>, Seq<char>)>, k: Seq<char>, default: Seq<char>) -> Seq<char> {
    match kv_get(e, k) {
        Some(v) => v,
        None => default,
    }
}

/// The 32-bit integer under `k`, or `default` where it is absent or unreadable.
pub open spec fn int_or(e: Seq<(Seq<char>, Seq<char>)>, k: Seq<char>, default: int) -> int {
    match kv_get(e, k) {
        Some(v) => match within(signed_spec(v), i32::MIN as int, i32::MAX as int) {
            Some(x) => x,
            None => default,
        },
        None => default,
    }
}

/// The decimal under `k`, or `default` where it is absent or unreadable.
pub open spec fn decimal_or(e: Seq<(Seq<char>, Seq<char>)>, k: Seq<char>, default: (int, int)) -> (int, int) {
    match kv_get(e, k) {
        Some(v) => match decimal_fits(decimal_spec(v)) {
            Some(x) => x,
            None => default,
        },
        None => default,
    }
}

/// The flag under `k`, or `default` where it is absent or neither `1` nor `0`.
pub open spec fn flag_or(e: Seq<(Seq<char>, Seq<char>)>, k: Seq<char>, default: bool) -> bool {
    match kv_get(e, k) {
        Some(v) => match bool_spec(v) {
            Some(x) => x,
            None => default,
        },
        None => default,
    }
}

pub fn text_field(pairs: &Vec<KeyValue>, key: &str, default: &str) -> (r: String)
    ensures
        r@ == text_or(pairs_view(pairs@), key@, default@),
{
    match get_value(pairs, key) {
        Some(v) => v.clone(),
        None => String::from_str(default),
    }
}

pub fn int_field(pairs: &Vec<KeyValue>, key: &str, default: i32) -> (r: i32)
    ensures
        r as int == int_or(pairs_view(pairs@), key@, default as int),
{
    match get_value(pairs, key) {
        Some(v) => match parse_i32(v.as_str()) {
            Some(x) => x,
            None => default,
        },
        None => default,
    }
}

pub fn decimal_field(pairs: &Vec<KeyValue>, key: &str, default: Decimal) -> (r: Decimal)
    ensures
        r.pair() == decimal_or(pairs_view(pairs@), key@, default.pair()),
{
    match get_value(pairs, key) {
        Some(v) => match parse_decimal(v.as_str()) {
            Some(x) => x,
            None => default,
        },
        None => default,
    }
}

pub fn flag_field(pairs: &Vec<KeyValue>, key: &str, default: bool) -> (r: bool)
    ensures
        r == flag_or(pairs_view(pairs@), key@, default),
{
    match get_value(pairs, key) {
        Some(v) => match parse_bool(v.as_str()) {
            Some(x) => x,
            None => default,
        },
        None => default,
    }
}

} // verus!
