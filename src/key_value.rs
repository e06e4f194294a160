use vstd::prelude::*;
use crate::text::{chars_of, find_char, first_index, lemma_first_index_bounds, substring, trim, trim_spec, views};
use vstd::string::{StrSliceExecFns, StringExecFns};
use crate::sections::{key_index, lemma_key_index_bounds};

verus! {

/// One `Key: Value` pair, both trimmed.
pub struct KeyValue {
    pub key: String,
    pub value: String,
}

impl KeyValue {
    pub open spec fn pair(self) -> (Seq<char>, Seq<char>) {
        (self.key@, self.value@)
    }
}

pub open spec fn pairs_view(v: Seq<KeyValue>) -> Seq<(Seq<char>, Seq<char>)> {
    v.map_values(|e: KeyValue| e.pair())
}

/// The pair on a line: what stands before its first colon and what stands after it, each
/// trimmed. A line without a colon has none.
pub open spec fn kv_line(l: Seq<char>) -> Option<(Seq<char>, Seq<char>)> {
    let d = first_index(l, ':');
    if d < 0 {
        None
    } else {
        Some((trim_spec(l.subrange(0, d)), trim_spec(l.subrange(d + 1, l.len() as int))))
    }
}

/// The pairs of `lines`, in order of each key's first appearance, with a later value of a
/// key in place of an earlier one.
pub open spec fn kv_entries(lines: Seq<Seq<char>>) -> Seq<(Seq<char>, Seq<char>)>
    decreases lines.len(),
{
    if lines.len() == 0 {
        Seq::empty()
    } else {
        let e = kv_entries(lines.drop_last());
        match kv_line(lines.last()) {
            Some(p) => {
                let i = key_index(e, p.0);
                if i < 0 {
                    e.push(p)
                } else {
                    e.update(i, p)
                }
            },
            None => e,
        }
    }
}

/// The value under `k`, if any.
pub open spec fn kv_get(e: Seq<(Seq<char>, Seq<char>)>, k: Seq<char>) -> Option<Seq<char>> {
    let i = key_index(e, k);
    if i < 0 {
        None
    } else {
        Some(e[i].1)
    }
}

/// A line `k:v`, where `k` holds no colon, splits at that colon, whatever `v` holds.
pub proof fn lemma_split_at_first_colon(k: Seq<char>, v: Seq<char>)
    requires
        forall|j: int| 0 <= j < k.len() ==> k[j] != ':',
    ensures
        kv_line(k + seq![':'] + v) == Some((trim_spec(k), trim_spec(v))),
{
    let l = k + seq![':'] + v;
    lemma_first_index_bounds(l, ':');
    let d = first_index(l, ':');
    assert(l[k.len() as int] == ':');
    if d >= 0 && d < k.len() {
        assert(l[d] == k[d]);
    }
    assert(d == k.len());
    assert(l.subrange(0, d) =~= k);
    assert(l.subrange(d + 1, l.len() as int) =~= v);
}

/// The pair on `line`, if it has a colon.
pub fn key_value_line(line: &String) -> (r: Option<KeyValue>)
    ensures
        match r {
            Some(p) => kv_line(line@) == Some(p.pair()),
            None => kv_line(line@) is None,
        },
{
    let s = line.as_str();
    let n = s.unicode_len();
    match find_char(s, ':') {
        Some(d) => {
            proof {
                lemma_first_index_bounds(s@, ':');
            }
            let key = substring(s, 0, d);
            let value = substring(s, d + 1, n);
            Some(KeyValue { key: trim(key.as_str()), value: trim(value.as_str()) })
        },
        None => None,
    }
}

/// The index of the pair with key `key`, if there is one.
pub fn pair_index(pairs: &Vec<KeyValue>, key: &str) -> (r: Option<usize>)
    ensures
        match r {
            Some(i) => i == key_index(pairs_view(pairs@), key@),
            None => key_index(pairs_view(pairs@), key@) < 0,
        },
{
    let ghost e = pairs_view(pairs@);
    let k = String::from_str(key);
    let mut i: usize = 0;
    while i < pairs.len()
        invariant
            i <= pairs.len(),
            e == pairs_view(pairs@),
            k@ == key@,
            forall|j: int| 0 <= j < i ==> e[j].0 != key@,
        decreases pairs.len() - i,
    {
        if pairs[i].key == k {
            assert(e[i as int] == pairs@[i as int].pair());
            proof {
                lemma_key_index_bounds(e, key@);
            }
            return Some(i);
        }
        i = i + 1;
    }
    proof {
        lemma_key_index_bounds(e, key@);
    }
    None
}

/// The `Key: Value` pairs of a section's lines; lines without a colon are skipped, and a
/// key seen again takes the later value.
pub fn get_key_value(section: &Vec<String>) -> (r: Vec<KeyValue>)
    ensures
        pairs_view(r@) == kv_entries(views(section@)),
{
    let ghost all = views(section@);
    let mut data: Vec<KeyValue> = Vec::new();
    let mut i: usize = 0;
    assert(all.take(0) =~= Seq::<Seq<char>>::empty());
    assert(pairs_view(data@) =~= Seq::empty());
    while i < section.len()
        invariant
            i <= section.len(),
            all == views(section@),
            pairs_view(data@) == kv_entries(all.take(i as int)),
        decreases section.len() - i,
    {
        let line = &section[i];
        assert(all.take(i + 1).drop_last() =~= all.take(i as int));
        assert(all.take(i + 1).last() == line@);
        let ghost ev = pairs_view(data@);
        match key_value_line(line) {
            Some(p) => {
                proof {
                    lemma_key_index_bounds(ev, p.key@);
                }
                match pair_index(&data, p.key.as_str()) {
                    Some(k) => {
                        let ghost pp = p.pair();
                        let mut p = p;
                        data.set_and_swap(k, &mut p);
                        assert(pairs_view(data@) =~= ev.update(k as int, pp));
                    },
                    None => {
                        let ghost pp = p.pair();
                        data.push(p);
                        assert(pairs_view(data@) =~= ev.push(pp));
                    },
                }
            },
            None => {},
        }
        i = i + 1;
    }
    assert(all.take(section.len() as int) =~= all);
    data
}

/// The value under `key`, if any.
pub fn get_value<'a>(pairs: &'a Vec<KeyValue>, key: &str) -> (r: Option<&'a String>)
    ensures
        match r {
            Some(v) => kv_get(pairs_view(pairs@), key@) == Some(v@),
            None => kv_get(pairs_view(pairs@), key@) is None,
        },
{
    match pair_index(pairs, key) {
        Some(i) => {
            proof {
                lemma_key_index_bounds(pairs_view(pairs@), key@);
            }
            assert(pairs_view(pairs@)[i as int] == pairs@[i as int].pair());
            Some(&pairs[i].value)
        },
        None => None,
    }
}

/// Whether `a` comes before `b` in the order of `str`: character by character, a proper
/// prefix first.
pub open spec fn key_lt(a: Seq<char>, b: Seq<char>) -> bool
    decreases a.len(),
{
    if a.len() == 0 {
        b.len() > 0
    } else if b.len() == 0 {
        false
    } else if a[0] != b[0] {
        (a[0] as u32) < (b[0] as u32)
    } else {
        key_lt(a.drop_first(), b.drop_first())
    }
}

/// `s` with `x` put before the first pair whose key comes after its own.
pub open spec fn insert_sorted(s: Seq<(Seq<char>, Seq<char>)>, x: (Seq<char>, Seq<char>)) -> Seq<
    (Seq<char>, Seq<char>),
>
    decreases s.len(),
{
    if s.len() == 0 {
        seq![x]
    } else if key_lt(x.0, s[0].0) {
        seq![x] + s
    } else {
        seq![s[0]] + insert_sorted(s.drop_first(), x)
    }
}

/// The pairs in the order of their keys; pairs whose keys tie keep their order.
pub open spec fn sort_pairs(e: Seq<(Seq<char>, Seq<char>)>) -> Seq<(Seq<char>, Seq<char>)>
    decreases e.len(),
{
    if e.len() == 0 {
        Seq::empty()
    } else {
        insert_sorted(sort_pairs(e.drop_last()), e.last())
    }
}

/// Whether `a` comes before `b` in the order of `str`.
pub fn key_less(a: &String, b: &String) -> (r: bool)
    ensures
        r == key_lt(a@, b@),
{
    let x = chars_of(a.as_str());
    let y = chars_of(b.as_str());
    let mut i: usize = 0;
    assert(a@.skip(0) =~= a@);
    assert(b@.skip(0) =~= b@);
    while i < x.len() && i < y.len() && x[i] == y[i]
        invariant
            i <= x.len() && i <= y.len(),
            x@ == a@ && y@ == b@,
            key_lt(a@, b@) == key_lt(a@.skip(i as int), b@.skip(i as int)),
        decreases x.len() - i,
    {
        assert(a@.skip(i as int).drop_first() =~= a@.skip(i + 1));
        assert(b@.skip(i as int).drop_first() =~= b@.skip(i + 1));
        i = i + 1;
    }
    if i == x.len() {
        i < y.len()
    } else if i == y.len() {
        false
    } else {
        (x[i] as u32) < (y[i] as u32)
    }
}

pub proof fn lemma_insert_at(s: Seq<(Seq<char>, Seq<char>)>, x: (Seq<char>, Seq<char>), p: int)
    requires
        0 <= p <= s.len(),
        forall|j: int| 0 <= j < p ==> !key_lt(x.0, #[trigger] s[j].0),
        p < s.len() ==> key_lt(x.0, s[p].0),
    ensures
        insert_sorted(s, x) == s.take(p).push(x) + s.skip(p),
    decreases s.len(),
{
    if s.len() == 0 {
        assert(s.take(p).push(x) + s.skip(p) =~= seq![x]);
    } else if p == 0 {
        assert(s.take(p).push(x) + s.skip(p) =~= seq![x] + s);
    } else {
        let t = s.drop_first();
        assert(forall|j: int| 0 <= j < p - 1 ==> #[trigger] t[j] == s[j + 1]);
        assert(!key_lt(x.0, s[0].0));
        lemma_insert_at(t, x, p - 1);
        assert(seq![s[0]] + (t.take(p - 1).push(x) + t.skip(p - 1)) =~= s.take(p).push(x) + s.skip(p));
    }
}

/// The order in which the pairs come when sorted by key: `pairs[r[0]]` first, and so on.
pub fn key_order(pairs: &Vec<KeyValue>) -> (r: Vec<usize>)
    ensures
        forall|i: int| 0 <= i < r.len() ==> #[trigger] r@[i] < pairs.len(),
        r@.map_values(|i: usize| pairs_view(pairs@)[i as int]) == sort_pairs(pairs_view(pairs@)),
{
    let ghost e = pairs_view(pairs@);
    let mut order: Vec<usize> = Vec::new();
    let mut k: usize = 0;
    assert(e.take(0) =~= Seq::empty());
    assert(order@.map_values(|i: usize| e[i as int]) =~= Seq::empty());
    while k < pairs.len()
        invariant
            k <= pairs.len(),
            e == pairs_view(pairs@),
            forall|i: int| 0 <= i < order.len() ==> #[trigger] order@[i] < k,
            order@.map_values(|i: usize| e[i as int]) == sort_pairs(e.take(k as int)),
        decreases pairs.len() - k,
    {
        let ghost s = order@.map_values(|i: usize| e[i as int]);
        assert(e.take(k + 1).drop_last() =~= e.take(k as int));
        assert(e.take(k + 1).last() == e[k as int]);
        assert(e[k as int] == pairs@[k as int].pair());
        let mut p: usize = 0;
        while p < order.len() && !key_less(&pairs[k].key, &pairs[order[p]].key)
            invariant
                p <= order.len(),
                k < pairs.len(),
                e == pairs_view(pairs@),
                forall|i: int| 0 <= i < order.len() ==> #[trigger] order@[i] < k,
                s == order@.map_values(|i: usize| e[i as int]),
                forall|j: int| 0 <= j < p ==> !key_lt(e[k as int].0, #[trigger] s[j].0),
            decreases order.len() - p,
        {
            assert(s[p as int] == e[order@[p as int] as int]);
            assert(e[order@[p as int] as int] == pairs@[order@[p as int] as int].pair());
            p = p + 1;
        }
        if p < order.len() {
            assert(e[order@[p as int] as int] == pairs@[order@[p as int] as int].pair());
        }
        proof {
            lemma_insert_at(s, e[k as int], p as int);
        }
        let ghost before = order@;
        order.insert(p, k);
        assert(order@.map_values(|i: usize| e[i as int]) =~= s.take(p as int).push(e[k as int])
            + s.skip(p as int));
        assert forall|i: int| 0 <= i < order.len() implies #[trigger] order@[i] < k + 1 by {
            if i < p {
                assert(order@[i] == before[i]);
            } else if i > p {
                assert(order@[i] == before[i - 1]);
            }
        }
        k = k + 1;
    }
    assert(e.take(pairs.len() as int) =~= e);
    order
}

} // verus!
