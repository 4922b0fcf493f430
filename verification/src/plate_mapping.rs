//! The rows a plate's sidebar lists: the nodes inside the plate and the dataset
//! column each observes.
use crate::numbers::chars_of;
use crate::plate_geometry::{inside, PlateBounds, Point};
use crate::text::{decimal, push_decimal, push_str};
use std::collections::HashMap;
use vstd::prelude::*;

verus! {

broadcast use {vstd::std_specs::hash::group_hash_axioms, vstd::seq_lib::group_seq_properties};

/// The entity and graph id of each of the first `end` nodes that lie in `bounds`,
/// in the given order.
pub open spec fn contained(nodes: Seq<(u64, u32, Point)>, bounds: PlateBounds, end: int) -> Seq<(u64, u32)>
    decreases end,
{
    if end <= 0 {
        Seq::empty()
    } else if inside(bounds, nodes[end - 1].2) {
        contained(nodes, bounds, end - 1).push((nodes[end - 1].0, nodes[end - 1].1))
    } else {
        contained(nodes, bounds, end - 1)
    }
}

/// The ids are in non-decreasing order.
pub open spec fn ids_sorted(s: Seq<(u64, u32)>) -> bool {
    forall|i: int, j: int| 0 <= i < j < s.len() ==> s[i].1 <= s[j].1
}

/// The nodes inside the plate, borders included, ordered by graph id; `nodes`
/// lists each node's entity, graph id and position.
pub fn plate_contents(bounds: PlateBounds, nodes: &Vec<(u64, u32, Point)>) -> (contents: Vec<(u64, u32)>)
    ensures
        ids_sorted(contents@),
        contents@.to_multiset() == contained(nodes@, bounds, nodes@.len() as int).to_multiset(),
{
    broadcast use vstd::seq_lib::group_to_multiset_ensures;
    let mut found: Vec<(u64, u32)> = Vec::new();
    let mut i: usize = 0;
    while i < nodes.len()
        invariant
            i <= nodes@.len(),
            found@ == contained(nodes@, bounds, i as int),
        decreases nodes@.len() - i,
    {
        let (entity, id, position) = nodes[i];
        if bounds.contains_point(position) {
            found.push((entity, id));
        }
        i = i + 1;
    }
    let mut sorted: Vec<(u64, u32)> = Vec::new();
    let mut i: usize = 0;
    while i < found.len()
        invariant
            i <= found@.len(),
            ids_sorted(sorted@),
            sorted@.to_multiset() == found@.take(i as int).to_multiset(),
        decreases found@.len() - i,
    {
        let x = found[i];
        let mut pos: usize = 0;
        while pos < sorted.len() && sorted[pos].1 <= x.1
            invariant
                pos <= sorted@.len(),
                forall|k: int| 0 <= k < pos ==> sorted@[k].1 <= x.1,
            decreases sorted@.len() - pos,
        {
            pos = pos + 1;
        }
        let ghost before = sorted@;
        sorted.insert(pos, x);
        proof {
            assert(sorted@ == before.insert(pos as int, x));
            assert forall|a: int, b: int| 0 <= a < b < sorted@.len() implies sorted@[a].1 <= sorted@[b].1 by {
                if b < pos {
                } else if b == pos {
                } else if a < pos {
                    assert(sorted@[b] == before[b - 1]);
                    if pos < before.len() {
                        assert(before[pos as int].1 > x.1);
                        assert(before[pos as int].1 <= before[b - 1].1);
                    }
                } else if a == pos {
                    assert(sorted@[b] == before[b - 1]);
                    assert(before[pos as int].1 > x.1);
                    assert(before[pos as int].1 <= before[b - 1].1);
                } else {
                }
            }
            assert(found@.take(i + 1) =~= found@.take(i as int).push(x));
        }
        i = i + 1;
    }
    assert(found@.take(found@.len() as int) =~= found@);
    sorted
}

/// The column a node observes when nothing is mapped to it.
pub open spec fn unobserved() -> Seq<char> {
    "unobserved"@
}

/// Keeps the mapping of the nodes still inside the plate, drops the others, and
/// maps each node newly inside to `unobserved`.
pub fn refresh_mapping(mapping: &mut HashMap<u64, String>, contents: &Vec<(u64, u32)>)
    ensures
        forall|e: u64| #[trigger] final(mapping)@.contains_key(e) <==> exists|k: int| 0 <= k < contents@.len() && contents@[k].0 == e,
        forall|e: u64| #[trigger] final(mapping)@.contains_key(e) ==> final(mapping)@[e]@ == (if old(mapping)@.contains_key(e) {
            old(mapping)@[e]@
        } else {
            unobserved()
        }),
{
    proof { reveal_strlit("unobserved"); }
    let mut refreshed: HashMap<u64, String> = HashMap::new();
    let mut k: usize = 0;
    while k < contents.len()
        invariant
            k <= contents@.len(),
            forall|e: u64| #[trigger] refreshed@.contains_key(e) <==> exists|q: int| 0 <= q < k && contents@[q].0 == e,
            forall|e: u64| #[trigger] refreshed@.contains_key(e) ==> refreshed@[e]@ == (if old(mapping)@.contains_key(e) {
                old(mapping)@[e]@
            } else {
                unobserved()
            }),
            *mapping == *old(mapping),
        decreases contents@.len() - k,
    {
        let entity = contents[k].0;
        let column = match mapping.get(&entity) {
            Some(c) => c.clone(),
            None => String::from_str("unobserved"),
        };
        refreshed.insert(entity, column);
        proof {
            assert forall|e: u64| #[trigger] refreshed@.contains_key(e) implies exists|q: int| 0 <= q < k + 1 && contents@[q].0 == e by {
                if e != entity {
                    let q = choose|q: int| 0 <= q < k && contents@[q].0 == e;
                    assert(0 <= q < k + 1 && contents@[q].0 == e);
                } else {
                    assert(contents@[k as int].0 == e);
                }
            }
        }
        k = k + 1;
    }
    *mapping = refreshed;
}

/// Maps every node of the plate to `unobserved`, as when the plate gets another
/// dataset: the nodes stay, their columns are forgotten.
pub fn reset_mapping(mapping: &mut HashMap<u64, String>)
    ensures
        final(mapping)@.dom() == old(mapping)@.dom(),
        forall|e: u64| #[trigger] final(mapping)@.contains_key(e) ==> final(mapping)@[e]@ == unobserved(),
{
    proof { reveal_strlit("unobserved"); }
    let mut keys: Vec<u64> = Vec::new();
    for k in it: mapping.keys()
        invariant
            keys@.len() == it.index(),
            forall|i: int| 0 <= i < it.index() ==> keys@[i] == *it.seq()[i],
            it.seq().unref().to_set() == mapping@.dom(),
        ensures
            keys@ =~= it.seq().unref(),
    {
        keys.push(*k);
    }
    assert(keys@.to_set() == mapping@.dom());
    let mut reset: HashMap<u64, String> = HashMap::new();
    let mut i: usize = 0;
    while i < keys.len()
        invariant
            i <= keys@.len(),
            reset@.dom() == keys@.take(i as int).to_set(),
            forall|e: u64| #[trigger] reset@.contains_key(e) ==> reset@[e]@ == unobserved(),
        decreases keys@.len() - i,
    {
        reset.insert(keys[i], String::from_str("unobserved"));
        proof {
            assert(keys@.take(i + 1) =~= keys@.take(i as int).push(keys@[i as int]));
            assert(reset@.dom() =~= keys@.take(i + 1).to_set());
        }
        i = i + 1;
    }
    assert(keys@.take(keys@.len() as int) =~= keys@);
    *mapping = reset;
}

/// Maps `node` to `column` when the plate holds it; returns whether it did (and
/// changes nothing when not).
pub fn select_plate_mapping(mapping: &mut HashMap<u64, String>, node: u64, column: String) -> (set: bool)
    ensures
        set == old(mapping)@.contains_key(node),
        set ==> final(mapping)@ == old(mapping)@.insert(node, column),
        !set ==> final(mapping)@ == old(mapping)@,
{
    if mapping.contains_key(&node) {
        mapping.insert(node, column);
        true
    } else {
        false
    }
}

/// `a` comes no later than `b` when texts are ordered character by character,
/// by code point (for UTF-8 text the order of its bytes).
pub open spec fn text_le(a: Seq<char>, b: Seq<char>) -> bool
    decreases a.len(),
{
    if a.len() == 0 {
        true
    } else if b.len() == 0 {
        false
    } else if a[0] != b[0] {
        a[0] < b[0]
    } else {
        text_le(a.drop_first(), b.drop_first())
    }
}

proof fn lemma_text_le_total(a: Seq<char>, b: Seq<char>)
    ensures
        text_le(a, b) || text_le(b, a),
    decreases a.len(),
{
    if a.len() > 0 && b.len() > 0 && a[0] == b[0] {
        lemma_text_le_total(a.drop_first(), b.drop_first());
    }
}

proof fn lemma_text_le_trans(a: Seq<char>, b: Seq<char>, c: Seq<char>)
    requires
        text_le(a, b),
        text_le(b, c),
    ensures
        text_le(a, c),
    decreases a.len(),
{
    if a.len() > 0 && a[0] == b[0] && b[0] == c[0] {
        lemma_text_le_trans(a.drop_first(), b.drop_first(), c.drop_first());
    }
}

fn chars_le(a: &Vec<char>, b: &Vec<char>) -> (r: bool)
    ensures
        r == text_le(a@, b@),
{
    let mut i: usize = 0;
    proof {
        assert(a@.skip(0) =~= a@);
        assert(b@.skip(0) =~= b@);
    }
    while i < a.len() && i < b.len() && a[i] == b[i]
        invariant
            i <= a@.len(),
            i <= b@.len(),
            text_le(a@, b@) == text_le(a@.skip(i as int), b@.skip(i as int)),
        decreases a@.len() - i,
    {
        proof {
            assert(a@.skip(i as int).drop_first() =~= a@.skip(i + 1));
            assert(b@.skip(i as int).drop_first() =~= b@.skip(i + 1));
        }
        i = i + 1;
    }
    if i == a.len() {
        true
    } else if i == b.len() {
        false
    } else {
        assert(a@.skip(i as int)[0] == a@[i as int]);
        assert(b@.skip(i as int)[0] == b@[i as int]);
        a[i] < b[i]
    }
}

/// The texts of `s`.
pub open spec fn texts(s: Seq<String>) -> Seq<Seq<char>> {
    s.map_values(|x: String| x@)
}

/// Texts in order: each comes no later than every one after it.
pub open spec fn texts_sorted(t: Seq<Seq<char>>) -> bool {
    forall|i: int, j: int| 0 <= i < j < t.len() ==> text_le(#[trigger] t[i], #[trigger] t[j])
}

/// The entries of the menu that maps a plate node to a column: `unobserved`
/// first, then every column of the plate's dataset in order.
pub fn plate_mapping_menu(columns: &Vec<String>) -> (menu: Vec<String>)
    ensures
        menu@.len() == columns@.len() + 1,
        menu@[0]@ == unobserved(),
        texts_sorted(texts(menu@.skip(1))),
        texts(menu@.skip(1)).to_multiset() == texts(columns@).to_multiset(),
{
    broadcast use {vstd::seq_lib::to_multiset_build, vstd::seq_lib::to_multiset_insert};
    let mut sorted: Vec<String> = Vec::new();
    let mut i: usize = 0;
    while i < columns.len()
        invariant
            i <= columns@.len(),
            sorted@.len() == i,
            texts_sorted(texts(sorted@)),
            texts(sorted@).to_multiset() == texts(columns@.take(i as int)).to_multiset(),
        decreases columns@.len() - i,
    {
        let key = chars_of(columns[i].as_str());
        let mut p: usize = 0;
        while p < sorted.len() && chars_le(&chars_of(sorted[p].as_str()), &key)
            invariant
                p <= sorted@.len(),
                i < columns@.len(),
                key@ == columns@[i as int]@,
                texts_sorted(texts(sorted@)),
                forall|k: int| 0 <= k < p ==> text_le(#[trigger] sorted@[k]@, key@),
            decreases sorted@.len() - p,
        {
            p = p + 1;
        }
        let ghost before = sorted@;
        let x = columns[i].clone();
        sorted.insert(p, x);
        proof {
            let t = texts(before);
            assert(texts(sorted@) =~= t.insert(p as int, key@));
            assert(texts(columns@.take(i + 1)) =~= texts(columns@.take(i as int)).push(key@));
            if p < before.len() {
                lemma_text_le_total(before[p as int]@, key@);
            }
            assert forall|a: int, b: int| 0 <= a < b < sorted@.len() implies text_le(#[trigger] texts(sorted@)[a], #[trigger] texts(sorted@)[b]) by {
                if a < p && b == p {
                    assert(text_le(before[a]@, key@));
                } else if a == p && b > p {
                    if b - 1 == p {
                        lemma_text_le_total(t[p as int], t[p as int]);
                    } else {
                        assert(text_le(t[p as int], t[b - 1]));
                    }
                    lemma_text_le_trans(key@, t[p as int], t[b - 1]);
                } else if a < p && b > p {
                    assert(text_le(t[a], t[b - 1]));
                } else if a > p {
                    assert(text_le(t[a - 1], t[b - 1]));
                } else {
                    assert(text_le(t[a], t[b]));
                }
            }
        }
        i = i + 1;
    }
    assert(columns@.take(columns@.len() as int) =~= columns@);
    let mut menu: Vec<String> = Vec::new();
    menu.push(String::from_str("unobserved"));
    proof { reveal_strlit("unobserved"); }
    let mut k: usize = 0;
    while k < sorted.len()
        invariant
            k <= sorted@.len(),
            menu@.len() == k + 1,
            menu@[0]@ == unobserved(),
            menu@.skip(1) == sorted@.take(k as int),
        decreases sorted@.len() - k,
    {
        let ghost before = menu@;
        menu.push(sorted[k].clone());
        proof {
            assert(menu@.skip(1) =~= before.skip(1).push(sorted@[k as int]));
            assert(sorted@.take(k + 1) =~= sorted@.take(k as int).push(sorted@[k as int]));
        }
        k = k + 1;
    }
    assert(sorted@.take(sorted@.len() as int) =~= sorted@);
    assert(menu@.skip(1) =~= sorted@);
    menu
}

/// The label of a row of the plate's sidebar: a named random node as `name ~
/// distribution`, an unnamed one as `var id {id} ~ distribution`, a scalar as
/// `scalar {id}`.
pub open spec fn row_label(id: u32, random: Option<(Option<Seq<char>>, Seq<char>)>) -> Seq<char> {
    match random {
        Some((Some(name), dist)) => name + " ~ "@ + dist,
        Some((None, dist)) => "var id "@ + decimal(id as nat) + " ~ "@ + dist,
        None => "scalar "@ + decimal(id as nat),
    }
}

/// The label of one row of a plate's sidebar; `random` gives a random node's
/// name and distribution, `None` stands for a scalar node.
pub fn plate_row_label(id: u32, random: Option<(Option<&str>, &str)>) -> (label: String)
    ensures
        label@ == row_label(id, match random {
            Some((name, dist)) => Some((match name { Some(n) => Some(n@), None => None }, dist@)),
            None => None,
        }),
{
    proof { reveal_strlit(" ~ "); reveal_strlit("var id "); reveal_strlit("scalar "); }
    let mut label = String::new();
    match random {
        Some((Some(name), dist)) => {
            push_str(&mut label, name);
            push_str(&mut label, " ~ ");
            push_str(&mut label, dist);
        },
        Some((None, dist)) => {
            push_str(&mut label, "var id ");
            push_decimal(&mut label, id as u64);
            push_str(&mut label, " ~ ");
            push_str(&mut label, dist);
        },
        None => {
            push_str(&mut label, "scalar ");
            push_decimal(&mut label, id as u64);
        },
    }
    label
}

} // verus!
