//! Plate rectangles on the canvas and the plate hierarchy they imply: which
//! plates and nodes each plate directly contains.
use crate::graph_ir::PlateIR;
use crate::text::{decimal, push_decimal, push_str};
use crate::util::{nondecreasing, sort_ids};
use std::collections::HashMap;
use vstd::prelude::*;

verus! {

broadcast use {vstd::std_specs::hash::group_hash_axioms, vstd::seq_lib::group_seq_properties};

/// The order key of a binary32 coordinate given by its bit pattern: keys compare
/// as the finite numbers they stand for, and both zeros get the key 0.
pub open spec fn coordinate_key_spec(bits: u32) -> i64 {
    if bits >= 0x8000_0000u32 {
        (0 - (bits - 0x8000_0000u32)) as i64
    } else {
        bits as i64
    }
}

/// The order key of a binary32 coordinate given by its bit pattern.
pub fn coordinate_key(bits: u32) -> (key: i64)
    ensures
        key == coordinate_key_spec(bits),
{
    if bits >= 0x8000_0000u32 {
        let magnitude: u32 = bits - 0x8000_0000u32;
        0i64 - (magnitude as i64)
    } else {
        bits as i64
    }
}

/// A canvas point, each coordinate held as its order key.
#[derive(Clone, Copy, Debug, PartialEq, Eq, Structural)]
pub struct Point {
    pub x: i64,
    pub y: i64,
}

impl Point {
    /// The point with the binary32 coordinates of bit patterns `x_bits` and `y_bits`.
    pub fn from_bits(x_bits: u32, y_bits: u32) -> (p: Point)
        ensures
            p.x == coordinate_key_spec(x_bits),
            p.y == coordinate_key_spec(y_bits),
    {
        Point { x: coordinate_key(x_bits), y: coordinate_key(y_bits) }
    }
}

/// An axis-aligned plate rectangle given by its lower-left and upper-right corners.
#[derive(Clone, Copy, Debug, PartialEq, Eq, Structural)]
pub struct PlateBounds {
    pub min: Point,
    pub max: Point,
}

/// `p` lies in `b`, borders included.
pub open spec fn inside(b: PlateBounds, p: Point) -> bool {
    b.min.x <= p.x <= b.max.x && b.min.y <= p.y <= b.max.y
}

/// `o` lies in `b`: both of its corners do.
pub open spec fn encloses(b: PlateBounds, o: PlateBounds) -> bool {
    inside(b, o.min) && inside(b, o.max)
}

/// The open interiors of `a` and `b` intersect.
pub open spec fn interiors_overlap(a: PlateBounds, b: PlateBounds) -> bool {
    a.min.x < b.max.x && a.max.x > b.min.x && a.min.y < b.max.y && a.max.y > b.min.y
}

impl PlateBounds {
    /// The rectangle spanned by two opposite corners.
    pub fn from_points(a: Point, b: Point) -> (r: PlateBounds)
        ensures
            r.min.x == (if a.x <= b.x { a.x } else { b.x }),
            r.min.y == (if a.y <= b.y { a.y } else { b.y }),
            r.max.x == (if a.x <= b.x { b.x } else { a.x }),
            r.max.y == (if a.y <= b.y { b.y } else { a.y }),
    {
        PlateBounds {
            min: Point { x: if a.x <= b.x { a.x } else { b.x }, y: if a.y <= b.y { a.y } else { b.y } },
            max: Point { x: if a.x <= b.x { b.x } else { a.x }, y: if a.y <= b.y { b.y } else { a.y } },
        }
    }

    /// Whether `point` lies in the rectangle, borders included.
    pub fn contains_point(self, point: Point) -> (r: bool)
        ensures
            r == inside(self, point),
    {
        point.x >= self.min.x && point.x <= self.max.x && point.y >= self.min.y && point.y <= self.max.y
    }

    /// Whether `other` lies in the rectangle.
    pub fn contains_bounds(self, other: PlateBounds) -> (r: bool)
        ensures
            r == encloses(self, other),
    {
        self.contains_point(other.min) && self.contains_point(other.max)
    }
}

/// Plates `a` and `b` cover the same rectangle.
pub open spec fn identical(a: PlateBounds, b: PlateBounds) -> bool {
    encloses(a, b) && encloses(b, a)
}

/// The interiors of plates `a` and `b` meet while neither encloses the other.
pub open spec fn partially_overlapping(a: PlateBounds, b: PlateBounds) -> bool {
    interiors_overlap(a, b) && !encloses(a, b) && !encloses(b, a)
}

/// Entry `k` is a plate inside entry `i`: another id and an enclosed rectangle.
pub open spec fn contained_in(plates: Seq<(u32, PlateBounds, usize)>, i: int, k: int) -> bool {
    plates[k].0 != plates[i].0 && encloses(plates[i].1, plates[k].1)
}

/// Entry `k` is a direct child of entry `i`: inside it, and inside no other plate
/// that lies inside it.
pub open spec fn direct_child(plates: Seq<(u32, PlateBounds, usize)>, i: int, k: int) -> bool {
    &&& contained_in(plates, i, k)
    &&& forall|m: int| 0 <= m < plates.len() && #[trigger] contained_in(plates, i, m) && plates[m].0 != plates[k].0
        ==> !encloses(plates[m].1, plates[k].1)
}

/// Position `p` is directly in entry `i`: inside it, and inside no plate that lies
/// inside it.
pub open spec fn direct_member(plates: Seq<(u32, PlateBounds, usize)>, i: int, p: Point) -> bool {
    &&& inside(plates[i].1, p)
    &&& forall|m: int| 0 <= m < plates.len() && #[trigger] contained_in(plates, i, m) ==> !inside(plates[m].1, p)
}

/// The ids of the direct children of entry `i` among the first `end` entries, in order.
pub open spec fn child_ids(plates: Seq<(u32, PlateBounds, usize)>, i: int, end: int) -> Seq<u32>
    decreases end,
{
    if end <= 0 {
        Seq::empty()
    } else if direct_child(plates, i, end - 1) {
        child_ids(plates, i, end - 1).push(plates[end - 1].0)
    } else {
        child_ids(plates, i, end - 1)
    }
}

/// The ids of the first `end` nodes that lie directly in entry `i`, in order.
pub open spec fn member_ids(plates: Seq<(u32, PlateBounds, usize)>, nodes: Seq<(u32, Point)>, i: int, end: int) -> Seq<u32>
    decreases end,
{
    if end <= 0 {
        Seq::empty()
    } else if direct_member(plates, i, nodes[end - 1].1) {
        member_ids(plates, nodes, i, end - 1).push(nodes[end - 1].0)
    } else {
        member_ids(plates, nodes, i, end - 1)
    }
}

/// `ir` is the plate of entry `i`: its id and extent, its direct child plates and
/// direct nodes each sorted by id, and no dataset or mapping yet.
pub open spec fn plate_ir_of(plates: Seq<(u32, PlateBounds, usize)>, nodes: Seq<(u32, Point)>, i: int, ir: PlateIR) -> bool {
    &&& ir.id == plates[i].0
    &&& ir.n == plates[i].2
    &&& nondecreasing(ir.plates@)
    &&& ir.plates@.to_multiset() == child_ids(plates, i, plates.len() as int).to_multiset()
    &&& nondecreasing(ir.nodes@)
    &&& ir.nodes@.to_multiset() == member_ids(plates, nodes, i, nodes.len() as int).to_multiset()
    &&& ir.data@.len() == 0
    &&& ir.mapping@.len() == 0
}

/// Entries `i` and `j` cover the same rectangle or overlap partially.
pub open spec fn pair_bad(plates: Seq<(u32, PlateBounds, usize)>, i: int, j: int) -> bool {
    identical(plates[i].1, plates[j].1) || partially_overlapping(plates[i].1, plates[j].1)
}

/// Some pair of entries covers the same rectangle or overlaps partially.
pub open spec fn bad_pair(plates: Seq<(u32, PlateBounds, usize)>) -> bool {
    exists|i: int, j: int| 0 <= i < j < plates.len() && #[trigger] pair_bad(plates, i, j)
}

/// The error for a pair of plates that cover the same rectangle.
pub open spec fn identical_message(a: u32, b: u32) -> Seq<char> {
    "plates "@ + decimal(a as nat) + " and "@ + decimal(b as nat) + " have identical bounds"@
}

/// The error for a pair of plates that overlap partially.
pub open spec fn overlap_message(a: u32, b: u32) -> Seq<char> {
    "plates "@ + decimal(a as nat) + " and "@ + decimal(b as nat)
        + " partially overlap; plates must be disjoint or fully nested"@
}

/// The error for a node listed by two plates.
pub open spec fn shared_node_message(node: u32, first: u32, second: u32) -> Seq<char> {
    "node "@ + decimal(node as nat) + " belongs to multiple sibling plates: "@ + decimal(first as nat) + " and "@
        + decimal(second as nat)
}

/// Whether entry `k` is a direct child of entry `i`.
fn is_direct_child(plates: &Vec<(u32, PlateBounds, usize)>, i: usize, k: usize) -> (r: bool)
    requires
        i < plates@.len(),
        k < plates@.len(),
    ensures
        r == direct_child(plates@, i as int, k as int),
{
    if !(plates[k].0 != plates[i].0 && plates[i].1.contains_bounds(plates[k].1)) {
        return false;
    }
    let mut m: usize = 0;
    while m < plates.len()
        invariant
            i < plates@.len(),
            k < plates@.len(),
            m <= plates@.len(),
            forall|q: int| 0 <= q < m && #[trigger] contained_in(plates@, i as int, q) && plates@[q].0 != plates@[k as int].0
                ==> !encloses(plates@[q].1, plates@[k as int].1),
        decreases plates@.len() - m,
    {
        if plates[m].0 != plates[i].0 && plates[i].1.contains_bounds(plates[m].1) && plates[m].0 != plates[k].0
            && plates[m].1.contains_bounds(plates[k].1) {
            proof { assert(contained_in(plates@, i as int, m as int)); }
            return false;
        }
        m = m + 1;
    }
    true
}

/// Whether position `p` lies directly in entry `i`.
fn is_direct_member(plates: &Vec<(u32, PlateBounds, usize)>, i: usize, p: Point) -> (r: bool)
    requires
        i < plates@.len(),
    ensures
        r == direct_member(plates@, i as int, p),
{
    if !plates[i].1.contains_point(p) {
        return false;
    }
    let mut m: usize = 0;
    while m < plates.len()
        invariant
            i < plates@.len(),
            m <= plates@.len(),
            forall|q: int| 0 <= q < m && #[trigger] contained_in(plates@, i as int, q) ==> !inside(plates@[q].1, p),
        decreases plates@.len() - m,
    {
        if plates[m].0 != plates[i].0 && plates[i].1.contains_bounds(plates[m].1) && plates[m].1.contains_point(p) {
            proof { assert(contained_in(plates@, i as int, m as int)); }
            return false;
        }
        m = m + 1;
    }
    true
}

/// The plate of entry `i`.
pub(crate) fn plate_ir_at(plates: &Vec<(u32, PlateBounds, usize)>, nodes: &Vec<(u32, Point)>, i: usize) -> (ir: PlateIR)
    requires
        i < plates@.len(),
    ensures
        plate_ir_of(plates@, nodes@, i as int, ir),
{
    let mut children: Vec<u32> = Vec::new();
    let mut k: usize = 0;
    while k < plates.len()
        invariant
            i < plates@.len(),
            k <= plates@.len(),
            children@ == child_ids(plates@, i as int, k as int),
        decreases plates@.len() - k,
    {
        if is_direct_child(plates, i, k) {
            children.push(plates[k].0);
        }
        k = k + 1;
    }
    let mut members: Vec<u32> = Vec::new();
    let mut t: usize = 0;
    while t < nodes.len()
        invariant
            i < plates@.len(),
            t <= nodes@.len(),
            members@ == member_ids(plates@, nodes@, i as int, t as int),
        decreases nodes@.len() - t,
    {
        if is_direct_member(plates, i, nodes[t].1) {
            members.push(nodes[t].0);
        }
        t = t + 1;
    }
    PlateIR {
        id: plates[i].0,
        n: plates[i].2,
        nodes: sort_ids(&members),
        plates: sort_ids(&children),
        data: Vec::new(),
        mapping: HashMap::new(),
    }
}

/// No later entry has the id of entry `i`.
pub open spec fn last_entry(plates: Seq<(u32, PlateBounds, usize)>, i: int) -> bool {
    0 <= i < plates.len() && forall|j: int| i < j < plates.len() ==> plates[j].0 != plates[i].0
}

/// How often entry `i` lists node `n` as a direct member.
pub open spec fn lists(plates: Seq<(u32, PlateBounds, usize)>, nodes: Seq<(u32, Point)>, i: int, n: u32) -> nat {
    member_ids(plates, nodes, i, nodes.len() as int).to_multiset().count(n)
}

/// Node `n` is listed twice: by two plates, or twice by one.
pub open spec fn shared_by(plates: Seq<(u32, PlateBounds, usize)>, nodes: Seq<(u32, Point)>, n: u32, i1: int, i2: int) -> bool {
    &&& last_entry(plates, i1)
    &&& last_entry(plates, i2)
    &&& if i1 == i2 { lists(plates, nodes, i1, n) >= 2 } else { lists(plates, nodes, i1, n) >= 1 && lists(plates, nodes, i2, n) >= 1 }
}

/// Two positions of `s` hold `n` exactly when `n` occurs at least twice.
proof fn lemma_two_positions(s: Seq<u32>, n: u32)
    ensures
        s.to_multiset().count(n) >= 2 <==> exists|a: int, b: int| 0 <= a < b < s.len() && s[a] == n && s[b] == n,
        s.to_multiset().count(n) >= 1 <==> s.contains(n),
{
    broadcast use vstd::seq_lib::group_to_multiset_ensures;
    broadcast use vstd::multiset::group_multiset_axioms;
    if s.contains(n) {
        let a = choose|a: int| 0 <= a < s.len() && s[a] == n;
        let r = s.remove(a);
        assert(r.to_multiset() == s.to_multiset().remove(n));
        if exists|a2: int, b: int| 0 <= a2 < b < s.len() && s[a2] == n && s[b] == n {
            let (a2, b) = choose|a2: int, b: int| 0 <= a2 < b < s.len() && s[a2] == n && s[b] == n;
            let r2 = s.remove(a2);
            assert(r2.to_multiset() == s.to_multiset().remove(n));
            assert(r2[b - 1] == n);
            assert(r2.contains(n));
        }
        if s.to_multiset().count(n) >= 2 {
            assert(r.to_multiset().count(n) >= 1);
            assert(r.contains(n));
            let c = choose|c: int| 0 <= c < r.len() && r[c] == n;
            if c < a {
                assert(s[c] == n);
            } else {
                assert(s[c + 1] == n);
            }
        }
    }
}

/// The last entry with the id of entry `q`.
proof fn lemma_last_from(plates: Seq<(u32, PlateBounds, usize)>, q: int) -> (i: int)
    requires
        0 <= q < plates.len(),
    ensures
        last_entry(plates, i),
        plates[i].0 == plates[q].0,
    decreases plates.len() - q,
{
    if exists|j: int| q < j < plates.len() && plates[j].0 == plates[q].0 {
        let j = choose|j: int| q < j < plates.len() && plates[j].0 == plates[q].0;
        lemma_last_from(plates, j)
    } else {
        q
    }
}

/// A node met twice while listing the plates of `m` is shared by their entries.
proof fn lemma_shared_witness(
    plates: Seq<(u32, PlateBounds, usize)>,
    nodes: Seq<(u32, Point)>,
    m: Map<u32, PlateIR>,
    n: u32,
    prev: u32,
    p: u32,
    t: int,
)
    requires
        forall|p2: u32| #[trigger] m.contains_key(p2) <==> exists|q: int| 0 <= q < plates.len() && plates[q].0 == p2,
        forall|q: int| #[trigger] last_entry(plates, q) ==> plate_ir_of(plates, nodes, q, m[plates[q].0]),
        m.contains_key(prev),
        m.contains_key(p),
        m[prev].nodes@.contains(n),
        0 <= t < m[p].nodes@.len(),
        m[p].nodes@[t] == n,
        prev == p ==> m[p].nodes@.take(t).contains(n),
    ensures
        exists|i1: int, i2: int| #[trigger] shared_by(plates, nodes, n, i1, i2) && plates[i1].0 == prev && plates[i2].0 == p,
{
    let q1 = choose|q: int| 0 <= q < plates.len() && plates[q].0 == prev;
    let q2 = choose|q: int| 0 <= q < plates.len() && plates[q].0 == p;
    let i1 = lemma_last_from(plates, q1);
    let i2 = lemma_last_from(plates, q2);
    assert(plate_ir_of(plates, nodes, i1, m[prev]));
    assert(plate_ir_of(plates, nodes, i2, m[p]));
    lemma_two_positions(m[prev].nodes@, n);
    lemma_two_positions(m[p].nodes@, n);
    if prev == p {
        if i1 != i2 {
            if i1 < i2 { assert(plates[i2].0 != plates[i1].0); } else { assert(plates[i1].0 != plates[i2].0); }
        }
        let b = choose|b: int| 0 <= b < t && m[p].nodes@.take(t)[b] == n;
        assert(m[p].nodes@[b] == n);
        assert(lists(plates, nodes, i1, n) >= 2);
    } else {
        assert(m[p].nodes@.contains(n));
    }
    assert(shared_by(plates, nodes, n, i1, i2));
}

/// No node is shared once every listed node had a single place.
proof fn lemma_shared_listed(
    plates: Seq<(u32, PlateBounds, usize)>,
    nodes: Seq<(u32, Point)>,
    m: Map<u32, PlateIR>,
    ids: Seq<u32>,
    n: u32,
    i1: int,
    i2: int,
)
    requires
        ids.to_set() == m.dom(),
        forall|p2: u32| #[trigger] m.contains_key(p2) <==> exists|q: int| 0 <= q < plates.len() && plates[q].0 == p2,
        forall|q: int| #[trigger] last_entry(plates, q) ==> plate_ir_of(plates, nodes, q, m[plates[q].0]),
        forall|c: int| 0 <= c < ids.len() ==> #[trigger] m[ids[c]].nodes@.no_duplicates(),
        forall|c1: int, c2: int, x: u32| 0 <= c1 < c2 < ids.len() && #[trigger] m[ids[c1]].nodes@.contains(x)
            ==> !(#[trigger] m[ids[c2]].nodes@.contains(x)),
    ensures
        !shared_by(plates, nodes, n, i1, i2),
{
    if !shared_by(plates, nodes, n, i1, i2) {
        return;
    }
    let p1 = plates[i1].0;
    let p2 = plates[i2].0;
    assert(m.contains_key(p1));
    assert(m.contains_key(p2));
    assert(plate_ir_of(plates, nodes, i1, m[p1]));
    assert(plate_ir_of(plates, nodes, i2, m[p2]));
    lemma_two_positions(m[p1].nodes@, n);
    lemma_two_positions(m[p2].nodes@, n);
    assert(ids.to_set().contains(p1));
    assert(ids.to_set().contains(p2));
    let c1 = choose|c: int| 0 <= c < ids.len() && ids[c] == p1;
    let c2 = choose|c: int| 0 <= c < ids.len() && ids[c] == p2;
    if i1 == i2 {
        let (a, b) = choose|a: int, b: int| 0 <= a < b < m[p1].nodes@.len() && m[p1].nodes@[a] == n && m[p1].nodes@[b] == n;
        assert(m[ids[c1]].nodes@.no_duplicates());
    } else {
        if i1 < i2 { assert(plates[i2].0 != plates[i1].0); } else { assert(plates[i1].0 != plates[i2].0); }
        assert(c1 != c2);
        if c1 < c2 {
            assert(m[ids[c1]].nodes@.contains(n));
        } else {
            assert(m[ids[c2]].nodes@.contains(n));
        }
    }
}

/// The pair of entries `i` and `j` violates the nesting rule.
fn check_pair(plates: &Vec<(u32, PlateBounds, usize)>, i: usize, j: usize) -> (result: Result<(), String>)
    requires
        i < j < plates@.len(),
    ensures
        result is Ok <==> !(identical(plates@[i as int].1, plates@[j as int].1) || partially_overlapping(plates@[i as int].1, plates@[j as int].1)),
        result matches Err(msg) ==> (identical(plates@[i as int].1, plates@[j as int].1)
            && msg@ == identical_message(plates@[i as int].0, plates@[j as int].0))
            || (partially_overlapping(plates@[i as int].1, plates@[j as int].1)
            && msg@ == overlap_message(plates@[i as int].0, plates@[j as int].0)),
{
    let (left_id, left, _) = plates[i];
    let (right_id, right, _) = plates[j];
    let left_contains_right = left.contains_bounds(right);
    let right_contains_left = right.contains_bounds(left);
    proof {
        reveal_strlit("plates ");
        reveal_strlit(" and ");
        reveal_strlit(" have identical bounds");
        reveal_strlit(" partially overlap; plates must be disjoint or fully nested");
    }
    if left_contains_right && right_contains_left {
        let mut msg = String::new();
        push_str(&mut msg, "plates ");
        push_decimal(&mut msg, left_id as u64);
        push_str(&mut msg, " and ");
        push_decimal(&mut msg, right_id as u64);
        push_str(&mut msg, " have identical bounds");
        return Err(msg);
    }
    let interiors = left.min.x < right.max.x && left.max.x > right.min.x && left.min.y < right.max.y && left.max.y > right.min.y;
    if interiors && !left_contains_right && !right_contains_left {
        let mut msg = String::new();
        push_str(&mut msg, "plates ");
        push_decimal(&mut msg, left_id as u64);
        push_str(&mut msg, " and ");
        push_decimal(&mut msg, right_id as u64);
        push_str(&mut msg, " partially overlap; plates must be disjoint or fully nested");
        return Err(msg);
    }
    Ok(())
}

/// The plates are disjoint or nested, and no node is listed twice.
pub open spec fn layout_ok(plates: Seq<(u32, PlateBounds, usize)>, nodes: Seq<(u32, Point)>) -> bool {
    !bad_pair(plates) && !exists|n: u32, i1: int, i2: int| #[trigger] shared_by(plates, nodes, n, i1, i2)
}

/// `msg` reports an identical or partially overlapping pair of plates, or, where
/// there is none, a node that two plates list.
pub open spec fn layout_error(plates: Seq<(u32, PlateBounds, usize)>, nodes: Seq<(u32, Point)>, msg: Seq<char>) -> bool {
    if bad_pair(plates) {
        exists|i: int, j: int| 0 <= i < j < plates.len() && #[trigger] pair_bad(plates, i, j) && {
            ||| identical(plates[i].1, plates[j].1) && msg == identical_message(plates[i].0, plates[j].0)
            ||| partially_overlapping(plates[i].1, plates[j].1) && msg == overlap_message(plates[i].0, plates[j].0)
        }
    } else {
        exists|n: u32, i1: int, i2: int| #[trigger] shared_by(plates, nodes, n, i1, i2)
            && msg == shared_node_message(n, plates[i1].0, plates[i2].0)
    }
}

/// Builds the plate of every entry from the rectangles: each plate lists the plates
/// inside it that no other plate inside it encloses, and the nodes inside it that
/// lie in no plate inside it. Plates must be disjoint or nested: an identical or a
/// partially overlapping pair is refused, and so is a node that two plates list.
/// An id given to several entries takes the last one.
pub fn compile_plate_irs(plates: &Vec<(u32, PlateBounds, usize)>, nodes: &Vec<(u32, Point)>) -> (result: Result<HashMap<u32, PlateIR>, String>)
    ensures
        result is Ok <==> layout_ok(plates@, nodes@),
        result matches Ok(m) ==> {
            &&& forall|p: u32| #[trigger] m@.contains_key(p) <==> exists|i: int| 0 <= i < plates@.len() && plates@[i].0 == p
            &&& forall|i: int| #[trigger] last_entry(plates@, i) ==> plate_ir_of(plates@, nodes@, i, m@[plates@[i].0])
        },
        result matches Err(msg) ==> layout_error(plates@, nodes@, msg@),
{
    let mut i: usize = 0;
    while i < plates.len()
        invariant
            i <= plates@.len(),
            forall|a: int, b: int| 0 <= a < i && a < b < plates@.len()
                ==> !#[trigger] pair_bad(plates@, a, b),
        decreases plates@.len() - i,
    {
        let mut j: usize = i + 1;
        while j < plates.len()
            invariant
                i < plates@.len(),
                i + 1 <= j <= plates@.len(),
                forall|a: int, b: int| 0 <= a < i && a < b < plates@.len()
                    ==> !#[trigger] pair_bad(plates@, a, b),
                forall|b: int| i < b < j ==> !#[trigger] pair_bad(plates@, i as int, b),
            decreases plates@.len() - j,
        {
            match check_pair(plates, i, j) {
                Ok(()) => {},
                Err(msg) => {
                    proof {
                        assert(pair_bad(plates@, i as int, j as int));
                    }
                    return Err(msg);
                },
            }
            j = j + 1;
        }
        i = i + 1;
    }
    proof {
        assert(!bad_pair(plates@));
    }
    let mut m: HashMap<u32, PlateIR> = HashMap::new();
    let mut k: usize = 0;
    while k < plates.len()
        invariant
            k <= plates@.len(),
            !bad_pair(plates@),
            forall|p: u32| #[trigger] m@.contains_key(p) <==> exists|q: int| 0 <= q < k && plates@[q].0 == p,
            forall|q: int| 0 <= q < k && (forall|j: int| q < j < k ==> plates@[j].0 != plates@[q].0)
                ==> #[trigger] plate_ir_of(plates@, nodes@, q, m@[plates@[q].0]),
        decreases plates@.len() - k,
    {
        let ir = plate_ir_at(plates, nodes, k);
        m.insert(plates[k].0, ir);
        proof {
            assert forall|p: u32| #[trigger] m@.contains_key(p) <==> exists|q: int| 0 <= q < k + 1 && plates@[q].0 == p by {
                if m@.contains_key(p) && p != plates@[k as int].0 {
                    let q = choose|q: int| 0 <= q < k && plates@[q].0 == p;
                }
            }
        }
        k = k + 1;
    }
    proof {
        assert forall|q: int| #[trigger] last_entry(plates@, q) implies plate_ir_of(plates@, nodes@, q, m@[plates@[q].0]) by {}
    }
    let ids = crate::util::sorted_keys(&m);
    let mut owners: HashMap<u32, u32> = HashMap::new();
    let mut a: usize = 0;
    while a < ids.len()
        invariant
            a <= ids@.len(),
            ids@.to_set() == m@.dom(),
            crate::util::strictly_increasing(ids@),
            !bad_pair(plates@),
            forall|p: u32| #[trigger] m@.contains_key(p) <==> exists|q: int| 0 <= q < plates@.len() && plates@[q].0 == p,
            forall|q: int| #[trigger] last_entry(plates@, q) ==> plate_ir_of(plates@, nodes@, q, m@[plates@[q].0]),
            forall|n: u32| #[trigger] owners@.contains_key(n) ==> m@.contains_key(owners@[n]) && m@[owners@[n]].nodes@.contains(n)
                && exists|c: int| 0 <= c < a && ids@[c] == owners@[n],
            forall|c: int, t: int| 0 <= c < a && 0 <= t < m@[ids@[c]].nodes@.len()
                ==> #[trigger] owners@.contains_key(m@[ids@[c]].nodes@[t]),
            forall|c: int| 0 <= c < a ==> #[trigger] m@[ids@[c]].nodes@.no_duplicates(),
            forall|c1: int, c2: int, n: u32| 0 <= c1 < c2 < a && #[trigger] m@[ids@[c1]].nodes@.contains(n)
                ==> !(#[trigger] m@[ids@[c2]].nodes@.contains(n)),
        decreases ids@.len() - a,
    {
        let p = ids[a];
        proof { assert(ids@.to_set().contains(p)); }
        let ir = m.get(&p).unwrap();
        let mut t: usize = 0;
        while t < ir.nodes.len()
            invariant
                a < ids@.len(),
                p == ids@[a as int],
                *ir == m@[p],
                m@.contains_key(p),
                t <= ir.nodes@.len(),
                ids@.to_set() == m@.dom(),
                crate::util::strictly_increasing(ids@),
                !bad_pair(plates@),
                forall|p2: u32| #[trigger] m@.contains_key(p2) <==> exists|q: int| 0 <= q < plates@.len() && plates@[q].0 == p2,
                forall|q: int| #[trigger] last_entry(plates@, q) ==> plate_ir_of(plates@, nodes@, q, m@[plates@[q].0]),
                forall|n: u32| #[trigger] owners@.contains_key(n) ==> m@.contains_key(owners@[n]) && m@[owners@[n]].nodes@.contains(n)
                    && exists|c: int| 0 <= c <= a && ids@[c] == owners@[n],
                forall|c: int, u: int| 0 <= c < a && 0 <= u < m@[ids@[c]].nodes@.len()
                    ==> #[trigger] owners@.contains_key(m@[ids@[c]].nodes@[u]),
                forall|u: int| 0 <= u < t ==> #[trigger] owners@.contains_key(ir.nodes@[u]) && owners@[ir.nodes@[u]] == p,
                forall|n: u32| #[trigger] owners@.contains_key(n) && owners@[n] == p ==> ir.nodes@.take(t as int).contains(n),
                ir.nodes@.take(t as int).no_duplicates(),
                forall|c: int| 0 <= c < a ==> #[trigger] m@[ids@[c]].nodes@.no_duplicates(),
                forall|c1: int, c2: int, n: u32| 0 <= c1 < c2 < a && #[trigger] m@[ids@[c1]].nodes@.contains(n)
                    ==> !(#[trigger] m@[ids@[c2]].nodes@.contains(n)),
                forall|c: int, n: u32| 0 <= c < a && #[trigger] m@[ids@[c]].nodes@.contains(n) ==> !ir.nodes@.take(t as int).contains(n),
            decreases ir.nodes@.len() - t,
        {
            let n = ir.nodes[t];
            match owners.get(&n) {
                Some(prev) => {
                    let prev = *prev;
                    let mut msg = String::new();
                    push_str(&mut msg, "node ");
                    push_decimal(&mut msg, n as u64);
                    push_str(&mut msg, " belongs to multiple sibling plates: ");
                    push_decimal(&mut msg, prev as u64);
                    push_str(&mut msg, " and ");
                    push_decimal(&mut msg, p as u64);
                    proof {
                        reveal_strlit("node ");
                        reveal_strlit(" belongs to multiple sibling plates: ");
                        reveal_strlit(" and ");
                        lemma_shared_witness(plates@, nodes@, m@, n, prev, p, t as int);
                    }
                    return Err(msg);
                },
                None => {},
            }
            owners.insert(n, p);
            proof {
                assert(ir.nodes@.take(t + 1) =~= ir.nodes@.take(t as int).push(n));
            }
            t = t + 1;
        }
        proof {
            assert(ir.nodes@.take(ir.nodes@.len() as int) =~= ir.nodes@);
        }
        a = a + 1;
    }
    proof {
        assert forall|n: u32, i1: int, i2: int| !#[trigger] shared_by(plates@, nodes@, n, i1, i2) by {
            lemma_shared_listed(plates@, nodes@, m@, ids@, n, i1, i2);
        }
    }
    Ok(m)
}

} // verus!
