use vstd::prelude::*;
use crate::text::{chars_of, views};

verus! {

/// A section of the text: its header line, brackets included, and the lines under it.
pub struct Section {
    pub name: String,
    pub lines: Vec<String>,
}

impl Section {
    pub open spec fn pair(self) -> (Seq<char>, Seq<Seq<char>>) {
        (self.name@, views(self.lines@))
    }
}

pub open spec fn sections_view(v: Seq<Section>) -> Seq<(Seq<char>, Seq<Seq<char>>)> {
    v.map_values(|s: Section| s.pair())
}

/// A header line: it starts with `[` and ends with `]`.
pub open spec fn is_header(l: Seq<char>) -> bool {
    l.len() > 0 && l[0] == '[' && l.last() == ']'
}

/// The index of the first entry named `k`, or -1 where there is none.
pub open spec fn key_index<V>(e: Seq<(Seq<char>, V)>, k: Seq<char>) -> int
    decreases e.len(),
{
    if e.len() == 0 {
        -1
    } else if e[0].0 == k {
        0
    } else {
        let r = key_index(e.drop_first(), k);
        if r < 0 { -1 } else { r + 1 }
    }
}

/// What the entries say of `k`: the first entry of that name wins.
pub open spec fn entries_map<V>(e: Seq<(Seq<char>, V)>) -> Map<Seq<char>, V>
    decreases e.len(),
{
    if e.len() == 0 {
        Map::empty()
    } else {
        entries_map(e.drop_first()).insert(e[0].0, e[0].1)
    }
}

/// The sections after reading `lines`, in order of first appearance, and the index of the
/// section that is open (-1 before the first header).
pub open spec fn split_state(lines: Seq<Seq<char>>) -> (Seq<(Seq<char>, Seq<Seq<char>>)>, int)
    decreases lines.len(),
{
    if lines.len() == 0 {
        (Seq::empty(), -1)
    } else {
        let (e, cur) = split_state(lines.drop_last());
        let l = lines.last();
        if l.len() == 0 {
            (e, cur)
        } else if is_header(l) {
            let i = key_index(e, l);
            if i < 0 {
                (e.push((l, Seq::empty())), e.len() as int)
            } else {
                (e.update(i, (l, Seq::empty())), i)
            }
        } else if 0 <= cur < e.len() {
            (e.update(cur, (e[cur].0, e[cur].1.push(l))), cur)
        } else {
            (e, cur)
        }
    }
}

/// The lines of the section named `name`; none where there is no such section.
pub open spec fn section_lines(e: Seq<(Seq<char>, Seq<Seq<char>>)>, name: Seq<char>) -> Seq<Seq<char>> {
    let i = key_index(e, name);
    if i < 0 {
        Seq::empty()
    } else {
        e[i].1
    }
}

/// The sections of `lines`.
pub open spec fn sections_spec(lines: Seq<Seq<char>>) -> Seq<(Seq<char>, Seq<Seq<char>>)> {
    split_state(lines).0
}

pub proof fn lemma_key_index_bounds<V>(e: Seq<(Seq<char>, V)>, k: Seq<char>)
    ensures
        -1 <= key_index(e, k) < e.len(),
        key_index(e, k) >= 0 ==> e[key_index(e, k)].0 == k,
        forall|j: int| 0 <= j < key_index(e, k) ==> e[j].0 != k,
        key_index(e, k) < 0 ==> forall|j: int| 0 <= j < e.len() ==> e[j].0 != k,
    decreases e.len(),
{
    if e.len() > 0 && e[0].0 != k {
        lemma_key_index_bounds(e.drop_first(), k);
        assert forall|j: int| 0 < j < e.len() implies e[j] == e.drop_first()[j - 1] by {}
    }
}

pub proof fn lemma_split_state_cur(lines: Seq<Seq<char>>)
    ensures
        -1 <= split_state(lines).1 < split_state(lines).0.len(),
    decreases lines.len(),
{
    if lines.len() > 0 {
        lemma_split_state_cur(lines.drop_last());
        let e = split_state(lines.drop_last()).0;
        lemma_key_index_bounds(e, lines.last());
    }
}

/// Whether `line` is a header: its first character is `[` and its last is `]`.
pub fn is_section_line(line: &String) -> (r: bool)
    ensures
        r == is_header(line@),
{
    let cs = chars_of(line.as_str());
    cs.len() > 0 && cs[0] == '[' && cs[cs.len() - 1] == ']'
}

/// The index of the section named `name`, if there is one.
pub fn section_index(sections: &Vec<Section>, name: &String) -> (r: Option<usize>)
    ensures
        match r {
            Some(i) => i == key_index(sections_view(sections@), name@),
            None => key_index(sections_view(sections@), name@) < 0,
        },
{
    let ghost e = sections_view(sections@);
    let mut i: usize = 0;
    while i < sections.len()
        invariant
            i <= sections.len(),
            e == sections_view(sections@),
            forall|j: int| 0 <= j < i ==> e[j].0 != name@,
        decreases sections.len() - i,
    {
        if sections[i].name == *name {
            assert(e[i as int] == sections@[i as int].pair());
            proof {
                lemma_key_index_bounds(e, name@);
            }
            return Some(i);
        }
        i = i + 1;
    }
    proof {
        lemma_key_index_bounds(e, name@);
    }
    None
}

/// Groups `lines` under their headers. Blank lines and lines before the first header are
/// dropped; a header seen again starts its section afresh.
pub fn get_sections(lines: &Vec<String>) -> (r: Vec<Section>)
    ensures
        sections_view(r@) == sections_spec(views(lines@)),
{
    let ghost all = views(lines@);
    let mut data: Vec<Section> = Vec::new();
    let mut cur: Option<usize> = None;
    let mut i: usize = 0;
    assert(all.take(0) =~= Seq::<Seq<char>>::empty());
    assert(sections_view(data@) =~= Seq::empty());
    while i < lines.len()
        invariant
            i <= lines.len(),
            all == views(lines@),
            sections_view(data@) == split_state(all.take(i as int)).0,
            match cur {
                Some(c) => c as int == split_state(all.take(i as int)).1 && c < data.len(),
                None => split_state(all.take(i as int)).1 < 0,
            },
        decreases lines.len() - i,
    {
        let line = &lines[i];
        assert(all.take(i + 1).drop_last() =~= all.take(i as int));
        assert(all.take(i + 1).last() == line@);
        proof {
            lemma_split_state_cur(all.take(i as int));
        }
        let ghost before = data@;
        let ghost ev = sections_view(before);
        proof {
            lemma_key_index_bounds(ev, line@);
        }
        if line.as_str().is_empty() {
        } else if is_section_line(line) {
            match section_index(&data, line) {
                Some(k) => {
                    let mut fresh = Section { name: line.clone(), lines: Vec::new() };
                    data.set_and_swap(k, &mut fresh);
                    assert(views(data@[k as int].lines@) =~= Seq::empty());
                    assert(sections_view(data@) =~= ev.update(k as int, (line@, Seq::empty())));
                    cur = Some(k);
                },
                None => {
                    let k = data.len();
                    data.push(Section { name: line.clone(), lines: Vec::new() });
                    assert(views(data@[k as int].lines@) =~= Seq::empty());
                    assert(sections_view(data@) =~= ev.push((line@, Seq::empty())));
                    cur = Some(k);
                },
            }
        } else {
            match cur {
                Some(c) => {
                    let mut sec = Section { name: String::new(), lines: Vec::new() };
                    data.set_and_swap(c, &mut sec);
                    sec.lines.push(line.clone());
                    assert(views(sec.lines@) =~= ev[c as int].1.push(line@));
                    data.set_and_swap(c, &mut sec);
                    assert(sections_view(data@) =~= ev.update(
                        c as int,
                        (ev[c as int].0, ev[c as int].1.push(line@)),
                    ));
                },
                None => {},
            }
        }
        i = i + 1;
    }
    assert(all.take(lines.len() as int) =~= all);
    data
}

pub proof fn lemma_key_index_update<V>(e: Seq<(Seq<char>, V)>, i: int, v: V, k: Seq<char>)
    requires
        0 <= i < e.len(),
    ensures
        key_index(e.update(i, (e[i].0, v)), k) == key_index(e, k),
    decreases e.len(),
{
    let u = e.update(i, (e[i].0, v));
    if e.len() > 0 && e[0].0 != k && i > 0 {
        assert(u.drop_first() =~= e.drop_first().update(i - 1, (e.drop_first()[i - 1].0, v)));
        lemma_key_index_update(e.drop_first(), i - 1, v, k);
    } else if e.len() > 0 && e[0].0 != k {
        assert(u.drop_first() =~= e.drop_first());
    }
}

pub proof fn lemma_key_index_push<V>(e: Seq<(Seq<char>, V)>, x: (Seq<char>, V), k: Seq<char>)
    ensures
        key_index(e.push(x), k) == if key_index(e, k) >= 0 {
            key_index(e, k)
        } else if x.0 == k {
            e.len() as int
        } else {
            -1
        },
    decreases e.len(),
{
    if e.len() > 0 && e[0].0 != k {
        assert(e.push(x).drop_first() =~= e.drop_first().push(x));
        lemma_key_index_push(e.drop_first(), x, k);
    } else if e.len() == 0 {
        assert(e.push(x).drop_first() =~= e);
    }
}

/// What the two runs agree on once header `h` has been read in both.
spec fn same_after(s1: (Seq<(Seq<char>, Seq<Seq<char>>)>, int), s2: (
    Seq<(Seq<char>, Seq<Seq<char>>)>,
    int,
), h: Seq<char>) -> bool {
    &&& key_index(s1.0, h) >= 0
    &&& key_index(s2.0, h) >= 0
    &&& s1.0[key_index(s1.0, h)].1 == s2.0[key_index(s2.0, h)].1
    &&& 0 <= s1.1 < s1.0.len()
    &&& 0 <= s2.1 < s2.0.len()
    &&& s1.0[s1.1].0 == s2.0[s2.1].0
    &&& key_index(s1.0, s1.0[s1.1].0) == s1.1
    &&& key_index(s2.0, s2.0[s2.1].0) == s2.1
}

proof fn lemma_header_read(lines: Seq<Seq<char>>)
    requires
        lines.len() > 0,
        is_header(lines.last()),
    ensures
        ({
            let s = split_state(lines);
            let h = lines.last();
            &&& 0 <= s.1 < s.0.len()
            &&& s.0[s.1] == (h, Seq::<Seq<char>>::empty())
            &&& key_index(s.0, h) == s.1
        }),
{
    let e = split_state(lines.drop_last()).0;
    let h = lines.last();
    lemma_key_index_bounds(e, h);
    let i = key_index(e, h);
    if i < 0 {
        lemma_key_index_push(e, (h, Seq::empty()), h);
    } else {
        lemma_key_index_update(e, i, Seq::empty(), h);
    }
}

proof fn lemma_same_after_line(a: Seq<Seq<char>>, b: Seq<Seq<char>>, h: Seq<char>, l: Seq<char>)
    requires
        same_after(split_state(a), split_state(b), h),
    ensures
        same_after(split_state(a.push(l)), split_state(b.push(l)), h),
{
    assert(a.push(l).drop_last() =~= a);
    assert(b.push(l).drop_last() =~= b);
    let (e1, c1) = split_state(a);
    let (e2, c2) = split_state(b);
    lemma_key_index_bounds(e1, h);
    lemma_key_index_bounds(e2, h);
    lemma_key_index_bounds(e1, l);
    lemma_key_index_bounds(e2, l);
    if l.len() == 0 {
    } else if is_header(l) {
        lemma_header_read(a.push(l));
        lemma_header_read(b.push(l));
        let i1 = key_index(e1, l);
        let i2 = key_index(e2, l);
        if i1 < 0 {
            lemma_key_index_push(e1, (l, Seq::empty()), h);
        } else {
            lemma_key_index_update(e1, i1, Seq::empty(), h);
        }
        if i2 < 0 {
            lemma_key_index_push(e2, (l, Seq::empty()), h);
        } else {
            lemma_key_index_update(e2, i2, Seq::empty(), h);
        }
    } else {
        let n1 = e1.update(c1, (e1[c1].0, e1[c1].1.push(l)));
        let n2 = e2.update(c2, (e2[c2].0, e2[c2].1.push(l)));
        lemma_key_index_update(e1, c1, e1[c1].1.push(l), h);
        lemma_key_index_update(e2, c2, e2[c2].1.push(l), h);
        lemma_key_index_update(e1, c1, e1[c1].1.push(l), e1[c1].0);
        lemma_key_index_update(e2, c2, e2[c2].1.push(l), e2[c2].0);
    }
}

proof fn lemma_same_after_all(a: Seq<Seq<char>>, h: Seq<char>, b: Seq<Seq<char>>)
    requires
        is_header(h),
    ensures
        same_after(split_state(a.push(h) + b), split_state(seq![h] + b), h),
    decreases b.len(),
{
    if b.len() == 0 {
        assert(a.push(h) + b =~= a.push(h));
        assert(seq![h] + b =~= seq![h]);
        lemma_header_read(a.push(h));
        lemma_header_read(seq![h]);
    } else {
        let l = b.last();
        lemma_same_after_all(a, h, b.drop_last());
        assert(a.push(h) + b =~= (a.push(h) + b.drop_last()).push(l));
        assert(seq![h] + b =~= (seq![h] + b.drop_last()).push(l));
        lemma_same_after_line(a.push(h) + b.drop_last(), seq![h] + b.drop_last(), h, l);
    }
}

/// A header seen again drops what stood under it before: the section holds what follows
/// its last occurrence, as if nothing had come before that.
pub proof fn lemma_repeated_header(a: Seq<Seq<char>>, h: Seq<char>, b: Seq<Seq<char>>)
    requires
        is_header(h),
    ensures
        section_lines(sections_spec(a.push(h) + b), h) == section_lines(
            sections_spec(seq![h] + b),
            h,
        ),
{
    lemma_same_after_all(a, h, b);
}

/// A line `[x]` is a header, whatever `x` holds; a line that does not start with `[`, or
/// does not end with `]`, is not.
pub proof fn lemma_header_shape(x: Seq<char>, l: Seq<char>)
    ensures
        is_header(seq!['['] + x + seq![']']),
        (l.len() == 0 || l[0] != '[' || l.last() != ']') ==> !is_header(l),
{
    let w = seq!['['] + x + seq![']'];
    assert(w[0] == '[');
    assert(w.last() == ']');
}

/// Without a header line there are no sections.
pub proof fn lemma_no_header_no_sections(lines: Seq<Seq<char>>)
    requires
        forall|i: int| 0 <= i < lines.len() ==> !is_header(#[trigger] lines[i]),
    ensures
        sections_spec(lines).len() == 0,
        split_state(lines).1 < 0,
    decreases lines.len(),
{
    if lines.len() > 0 {
        let p = lines.drop_last();
        assert forall|i: int| 0 <= i < p.len() implies !is_header(#[trigger] p[i]) by {
            assert(p[i] == lines[i]);
        }
        lemma_no_header_no_sections(p);
        assert(!is_header(lines[lines.len() - 1]));
    }
}

/// The sections of the lines are named by exactly their header lines: `k` names a section
/// when, and only when, some line is `k` and `k` is a header.
pub proof fn lemma_section_names(lines: Seq<Seq<char>>, k: Seq<char>)
    ensures
        key_index(sections_spec(lines), k) >= 0 <==> (is_header(k) && exists|i: int|
            0 <= i < lines.len() && #[trigger] lines[i] == k),
    decreases lines.len(),
{
    if lines.len() == 0 {
    } else {
        let p = lines.drop_last();
        let l = lines.last();
        lemma_section_names(p, k);
        lemma_split_state_cur(p);
        let (e, cur) = split_state(p);
        lemma_key_index_bounds(e, l);
        if l.len() == 0 {
        } else if is_header(l) {
            let i = key_index(e, l);
            if i < 0 {
                lemma_key_index_push(e, (l, Seq::empty()), k);
            } else {
                lemma_key_index_update(e, i, Seq::<Seq<char>>::empty(), k);
                assert(e[i].0 == l);
            }
        } else if 0 <= cur < e.len() {
            lemma_key_index_update(e, cur, e[cur].1.push(l), k);
        }
        if exists|i: int| 0 <= i < lines.len() && #[trigger] lines[i] == k {
            let i = choose|i: int| 0 <= i < lines.len() && #[trigger] lines[i] == k;
            if i < p.len() {
                assert(p[i] == lines[i]);
            }
        }
        if exists|i: int| 0 <= i < p.len() && #[trigger] p[i] == k {
            let i = choose|i: int| 0 <= i < p.len() && #[trigger] p[i] == k;
            assert(lines[i] == p[i]);
        }
        assert(lines[lines.len() - 1] == l);
    }
}

} // verus!
