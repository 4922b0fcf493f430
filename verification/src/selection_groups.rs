//! Joining the selections made in one context into a single selection per context.
use crate::posterior_views::{
    counted_paths, draws_ok, find_entry, lemma_counted_paths, projection, selection_ok, weight_for, InstanceDraws,
    SelectionContext,
};
use vstd::prelude::*;

verus! {

broadcast use vstd::seq_lib::group_seq_properties;

/// Some entry is for `path`.
pub open spec fn has_path(entries: Seq<InstanceDraws>, path: Seq<usize>) -> bool {
    exists|a: int| 0 <= a < entries.len() && (#[trigger] entries[a]).path@ == path
}

/// Some entry for `path` holds draw `d`.
pub open spec fn has_draw(entries: Seq<InstanceDraws>, path: Seq<usize>, d: usize) -> bool {
    exists|a: int| 0 <= a < entries.len() && (#[trigger] entries[a]).path@ == path && entries[a].draws@.contains(d)
}

/// A copy of the draws of one instance.
fn copy_entry(e: &InstanceDraws) -> (c: InstanceDraws)
    ensures
        c.path@ == e.path@,
        c.draws@ == e.draws@,
{
    InstanceDraws { path: crate::util::copy_usizes(&e.path), draws: crate::util::copy_usizes(&e.draws) }
}

/// Adds the draws of `e` to the entries, joining them with the entry of the same path.
fn merge_entry(entries: &mut Vec<InstanceDraws>, e: &InstanceDraws)
    requires
        draws_ok(old(entries)@),
        e.draws@.no_duplicates(),
    ensures
        draws_ok(final(entries)@),
        forall|path: Seq<usize>| #[trigger] has_path(final(entries)@, path) == (has_path(old(entries)@, path) || path == e.path@),
        forall|path: Seq<usize>, d: usize| #[trigger] has_draw(final(entries)@, path, d)
            == (has_draw(old(entries)@, path, d) || (path == e.path@ && e.draws@.contains(d))),
        forall|a: int| 0 <= a < final(entries)@.len() ==> has_path(old(entries)@, (#[trigger] final(entries)@[a]).path@)
            || final(entries)@[a].path@ == e.path@,
{
    let ghost before = entries@;
    match find_entry(entries, &e.path) {
        Some(p) => {
            let mut entry = entries.remove(p);
            let ghost old_draws = entry.draws@;
            let mut j: usize = 0;
            while j < e.draws.len()
                invariant
                    j <= e.draws@.len(),
                    e.draws@.no_duplicates(),
                    old_draws.no_duplicates(),
                    entry.draws@.no_duplicates(),
                    forall|x: usize| #![trigger entry.draws@.contains(x)] #![trigger old_draws.contains(x)]
                        entry.draws@.contains(x) <==> (old_draws.contains(x) || e.draws@.take(j as int).contains(x)),
                    entry.path@ == e.path@,
                decreases e.draws@.len() - j,
            {
                let d = e.draws[j];
                let ghost prior = entry.draws@;
                if !crate::util::contains_usize(&entry.draws, d) {
                    entry.draws.push(d);
                    proof {
                        assert forall|x: usize| entry.draws@.contains(x) <==> (prior.contains(x) || x == d) by {
                            if entry.draws@.contains(x) {
                                let q = choose|q: int| 0 <= q < entry.draws@.len() && entry.draws@[q] == x;
                                if q < prior.len() { assert(prior[q] == x); }
                            }
                            if prior.contains(x) {
                                let q = choose|q: int| 0 <= q < prior.len() && prior[q] == x;
                                assert(entry.draws@[q] == x);
                            }
                            if x == d { assert(entry.draws@[prior.len() as int] == x); }
                        }
                    }
                }
                proof {
                    assert(e.draws@.take(j + 1) =~= e.draws@.take(j as int).push(d));
                    assert forall|x: usize| e.draws@.take(j + 1).contains(x) <==> (e.draws@.take(j as int).contains(x) || x == d) by {
                        let t = e.draws@.take(j + 1);
                        if t.contains(x) {
                            let q = choose|q: int| 0 <= q < t.len() && t[q] == x;
                            if q < j { assert(e.draws@.take(j as int)[q] == x); }
                        }
                        if e.draws@.take(j as int).contains(x) {
                            let q = choose|q: int| 0 <= q < j && e.draws@.take(j as int)[q] == x;
                            assert(t[q] == x);
                        }
                        if x == d { assert(t[j as int] == x); }
                    }
                    assert forall|x: usize| entry.draws@.contains(x) <==> (old_draws.contains(x) || e.draws@.take(j + 1).contains(x)) by {
                        assert(prior.contains(x) <==> (old_draws.contains(x) || e.draws@.take(j as int).contains(x)));
                        if !prior.contains(d) {
                            assert(entry.draws@.contains(x) <==> (prior.contains(x) || x == d));
                        } else {
                            assert(entry.draws@ == prior);
                        }
                    }
                }
                j = j + 1;
            }
            proof { assert(e.draws@.take(e.draws@.len() as int) =~= e.draws@); }
            entries.insert(p, entry);
            proof {
                let after = entries@;
                assert forall|a: int| 0 <= a < after.len() && a != p implies after[a] == before[a] by {}
                assert forall|x: int, y: int| 0 <= x < y < after.len() implies (#[trigger] after[x]).path@ != (#[trigger] after[y]).path@ by {
                    assert(before[x].path@ != before[y].path@);
                }
                assert forall|path: Seq<usize>| #[trigger] has_path(after, path) == (has_path(before, path) || path == e.path@) by {
                    if has_path(before, path) {
                        let b = choose|b: int| 0 <= b < before.len() && (#[trigger] before[b]).path@ == path;
                        assert(after[b].path@ == path);
                    }
                    if path == e.path@ {
                        assert(after[p as int].path@ == path);
                    }
                    if has_path(after, path) {
                        let b = choose|b: int| 0 <= b < after.len() && (#[trigger] after[b]).path@ == path;
                        assert(before[b].path@ == path);
                    }
                }
                assert forall|path: Seq<usize>, d: usize| #[trigger] has_draw(after, path, d)
                    == (has_draw(before, path, d) || (path == e.path@ && e.draws@.contains(d))) by {
                    if has_draw(before, path, d) {
                        let b = choose|b: int| 0 <= b < before.len() && (#[trigger] before[b]).path@ == path && before[b].draws@.contains(d);
                        assert(after[b].path@ == path);
                        if b == p {
                            assert(after[b].draws@.contains(d));
                        }
                    }
                    if path == e.path@ && e.draws@.contains(d) {
                        assert(after[p as int].draws@.contains(d));
                    }
                    if has_draw(after, path, d) {
                        let b = choose|b: int| 0 <= b < after.len() && (#[trigger] after[b]).path@ == path && after[b].draws@.contains(d);
                        if b != p {
                            assert(before[b] == after[b]);
                        }
                    }
                }
                assert forall|a: int| 0 <= a < after.len() implies has_path(before, (#[trigger] after[a]).path@)
                    || after[a].path@ == e.path@ by {
                    assert(before[a].path@ == after[a].path@);
                }
            }
        },
        None => {
            entries.push(copy_entry(e));
            proof {
                let after = entries@;
                let n = before.len() as int;
                assert forall|x: int, y: int| 0 <= x < y < after.len() implies (#[trigger] after[x]).path@ != (#[trigger] after[y]).path@ by {
                    if y < n {
                        assert(before[x].path@ != before[y].path@);
                    } else {
                        assert(after[x] == before[x]);
                    }
                }
                assert forall|path: Seq<usize>| #[trigger] has_path(after, path) == (has_path(before, path) || path == e.path@) by {
                    if has_path(before, path) {
                        let b = choose|b: int| 0 <= b < before.len() && (#[trigger] before[b]).path@ == path;
                        assert(after[b] == before[b]);
                    }
                    if path == e.path@ {
                        assert(after[n].path@ == path);
                    }
                    if has_path(after, path) {
                        let b = choose|b: int| 0 <= b < after.len() && (#[trigger] after[b]).path@ == path;
                        if b < n { assert(after[b] == before[b]); }
                    }
                }
                assert forall|path: Seq<usize>, d: usize| #[trigger] has_draw(after, path, d)
                    == (has_draw(before, path, d) || (path == e.path@ && e.draws@.contains(d))) by {
                    if has_draw(before, path, d) {
                        let b = choose|b: int| 0 <= b < before.len() && (#[trigger] before[b]).path@ == path && before[b].draws@.contains(d);
                        assert(after[b] == before[b]);
                    }
                    if path == e.path@ && e.draws@.contains(d) {
                        assert(after[n].draws@.contains(d));
                    }
                    if has_draw(after, path, d) {
                        let b = choose|b: int| 0 <= b < after.len() && (#[trigger] after[b]).path@ == path && after[b].draws@.contains(d);
                        if b < n { assert(after[b] == before[b]); }
                    }
                }
                assert forall|a: int| 0 <= a < after.len() implies has_path(before, (#[trigger] after[a]).path@)
                    || after[a].path@ == e.path@ by {
                    if a < n { assert(after[a] == before[a]); }
                }
            }
        },
    }
}

/// Two lists of index paths are equal path by path.
pub open spec fn paths_eq(a: Seq<Vec<usize>>, b: Seq<Vec<usize>>) -> bool {
    a.len() == b.len() && forall|i: int| 0 <= i < a.len() ==> (#[trigger] a[i])@ == b[i]@
}

/// Two selections were made in the same context: the same plates and the same
/// instance paths.
#[verifier::opaque]
pub open spec fn same_context(x: SelectionContext, y: SelectionContext) -> bool {
    x.context_plate_ids@ == y.context_plate_ids@ && paths_eq(x.context_instance_paths@, y.context_instance_paths@)
}

/// Some selection of the context of `g` has an entry for `path`.
pub open spec fn group_has_path(sels: Seq<SelectionContext>, g: SelectionContext, path: Seq<usize>) -> bool {
    exists|i: int| 0 <= i < sels.len() && same_context(#[trigger] sels[i], g) && has_path(sels[i].draws_by_instance@, path)
}

/// Some selection of the context of `g` selects draw `d` at `path`.
pub open spec fn group_has_draw(sels: Seq<SelectionContext>, g: SelectionContext, path: Seq<usize>, d: usize) -> bool {
    exists|i: int| 0 <= i < sels.len() && same_context(#[trigger] sels[i], g) && has_draw(sels[i].draws_by_instance@, path, d)
}

/// Every group is a well-formed selection.
#[verifier::opaque]
pub open spec fn groups_valid(groups: Seq<SelectionContext>) -> bool {
    forall|g: int| 0 <= g < groups.len() ==> selection_ok(#[trigger] groups[g])
}

/// Every group has the context of some selection.
#[verifier::opaque]
pub open spec fn groups_from(sels: Seq<SelectionContext>, groups: Seq<SelectionContext>) -> bool {
    forall|g: int| 0 <= g < groups.len() ==> exists|i: int| 0 <= i < sels.len() && same_context(sels[i], #[trigger] groups[g])
}

/// Every selection has a group of its context.
#[verifier::opaque]
pub open spec fn sels_grouped(sels: Seq<SelectionContext>, groups: Seq<SelectionContext>) -> bool {
    forall|i: int| 0 <= i < sels.len() ==> exists|g: int| 0 <= g < groups.len() && same_context(#[trigger] sels[i], groups[g])
}

/// No two groups have the same context.
#[verifier::opaque]
pub open spec fn groups_distinct(groups: Seq<SelectionContext>) -> bool {
    forall|a: int, b: int| 0 <= a < b < groups.len() ==> !same_context(#[trigger] groups[a], #[trigger] groups[b])
}

/// Each group holds, for each path, the union of the draws that the selections of
/// its context chose there.
#[verifier::opaque]
pub open spec fn groups_union(sels: Seq<SelectionContext>, groups: Seq<SelectionContext>) -> bool {
    &&& forall|g: int, path: Seq<usize>| 0 <= g < groups.len() ==> #[trigger] has_path(groups[g].draws_by_instance@, path)
        == group_has_path(sels, groups[g], path)
    &&& forall|g: int, path: Seq<usize>, d: usize| 0 <= g < groups.len() ==> #[trigger] has_draw(groups[g].draws_by_instance@, path, d)
        == group_has_draw(sels, groups[g], path, d)
}

/// `groups` joins the selections by context: one group per context, holding for
/// each path the union of the draws its selections chose there.
pub open spec fn groups_ok(sels: Seq<SelectionContext>, groups: Seq<SelectionContext>) -> bool {
    &&& groups_valid(groups)
    &&& groups_from(sels, groups)
    &&& sels_grouped(sels, groups)
    &&& groups_distinct(groups)
    &&& groups_union(sels, groups)
}

proof fn lemma_same_context(x: SelectionContext, y: SelectionContext, z: SelectionContext)
    ensures
        same_context(x, x),
        same_context(x, y) ==> same_context(y, x),
        same_context(x, y) && same_context(y, z) ==> same_context(x, z),
{
    reveal(same_context);
    if same_context(x, y) {
        assert forall|i: int| 0 <= i < y.context_instance_paths@.len() implies (#[trigger] y.context_instance_paths@[i])@
            == x.context_instance_paths@[i]@ by {
            assert(x.context_instance_paths@[i]@ == y.context_instance_paths@[i]@);
        }
        if same_context(y, z) {
            assert forall|i: int| 0 <= i < x.context_instance_paths@.len() implies (#[trigger] x.context_instance_paths@[i])@
                == z.context_instance_paths@[i]@ by {
                assert(x.context_instance_paths@[i]@ == y.context_instance_paths@[i]@);
                assert(y.context_instance_paths@[i]@ == z.context_instance_paths@[i]@);
            }
        }
    }
}

/// Whether two lists of plate ids are equal.
pub(crate) fn same_ids(a: &Vec<u32>, b: &Vec<u32>) -> (r: bool)
    ensures
        r == (a@ == b@),
{
    if a.len() != b.len() {
        return false;
    }
    let mut i: usize = 0;
    while i < a.len()
        invariant
            i <= a@.len(),
            a@.len() == b@.len(),
            forall|k: int| 0 <= k < i ==> a@[k] == b@[k],
        decreases a@.len() - i,
    {
        if a[i] != b[i] {
            return false;
        }
        i = i + 1;
    }
    assert(a@ =~= b@);
    true
}

/// Whether two lists of index paths are equal path by path.
fn same_paths(a: &Vec<Vec<usize>>, b: &Vec<Vec<usize>>) -> (r: bool)
    ensures
        r == paths_eq(a@, b@),
{
    if a.len() != b.len() {
        return false;
    }
    let mut i: usize = 0;
    while i < a.len()
        invariant
            i <= a@.len(),
            a@.len() == b@.len(),
            forall|k: int| 0 <= k < i ==> (#[trigger] a@[k])@ == b@[k]@,
        decreases a@.len() - i,
    {
        if !crate::instance_plan::same_indices(&a[i], &b[i]) {
            return false;
        }
        i = i + 1;
    }
    true
}

/// A copy of a list of index paths.
fn copy_paths(paths: &Vec<Vec<usize>>) -> (copy: Vec<Vec<usize>>)
    ensures
        paths_eq(copy@, paths@),
{
    let mut copy: Vec<Vec<usize>> = Vec::new();
    let mut i: usize = 0;
    while i < paths.len()
        invariant
            i <= paths@.len(),
            copy@.len() == i,
            forall|k: int| 0 <= k < i ==> (#[trigger] copy@[k])@ == paths@[k]@,
        decreases paths@.len() - i,
    {
        copy.push(crate::util::copy_usizes(&paths[i]));
        i = i + 1;
    }
    copy
}

/// The position of the group made in the context of `sel`, if any.
fn find_group(groups: &Vec<SelectionContext>, sel: &SelectionContext) -> (pos: Option<usize>)
    ensures
        pos matches Some(g) ==> g < groups@.len() && same_context(groups@[g as int], *sel),
        pos is None ==> forall|g: int| 0 <= g < groups@.len() ==> !same_context(#[trigger] groups@[g], *sel),
{
    let mut g: usize = 0;
    while g < groups.len()
        invariant
            g <= groups@.len(),
            forall|q: int| 0 <= q < g ==> !same_context(#[trigger] groups@[q], *sel),
        decreases groups@.len() - g,
    {
        proof { reveal(same_context); }
        if same_ids(&groups[g].context_plate_ids, &sel.context_plate_ids)
            && same_paths(&groups[g].context_instance_paths, &sel.context_instance_paths) {
            return Some(g);
        }
        g = g + 1;
    }
    None
}

/// One more selection adds its paths and draws to the group of its context.
proof fn lemma_group_step(sels: Seq<SelectionContext>, i: int, g: SelectionContext)
    requires
        0 <= i < sels.len(),
    ensures
        forall|path: Seq<usize>| #[trigger] group_has_path(sels.take(i + 1), g, path) == (group_has_path(sels.take(i), g, path)
            || (same_context(sels[i], g) && has_path(sels[i].draws_by_instance@, path))),
        forall|path: Seq<usize>, d: usize| #[trigger] group_has_draw(sels.take(i + 1), g, path, d) == (group_has_draw(sels.take(i), g, path, d)
            || (same_context(sels[i], g) && has_draw(sels[i].draws_by_instance@, path, d))),
{
    let a = sels.take(i);
    let b = sels.take(i + 1);
    assert(b =~= a.push(sels[i]));
    assert forall|path: Seq<usize>| #[trigger] group_has_path(b, g, path) == (group_has_path(a, g, path)
        || (same_context(sels[i], g) && has_path(sels[i].draws_by_instance@, path))) by {
        if group_has_path(b, g, path) {
            let k = choose|k: int| 0 <= k < b.len() && same_context(#[trigger] b[k], g) && has_path(b[k].draws_by_instance@, path);
            if k < i { assert(a[k] == b[k]); }
        }
        if group_has_path(a, g, path) {
            let k = choose|k: int| 0 <= k < a.len() && same_context(#[trigger] a[k], g) && has_path(a[k].draws_by_instance@, path);
            assert(b[k] == a[k]);
        }
        if same_context(sels[i], g) && has_path(sels[i].draws_by_instance@, path) {
            assert(b[i] == sels[i]);
        }
    }
    assert forall|path: Seq<usize>, d: usize| #[trigger] group_has_draw(b, g, path, d) == (group_has_draw(a, g, path, d)
        || (same_context(sels[i], g) && has_draw(sels[i].draws_by_instance@, path, d))) by {
        if group_has_draw(b, g, path, d) {
            let k = choose|k: int| 0 <= k < b.len() && same_context(#[trigger] b[k], g) && has_draw(b[k].draws_by_instance@, path, d);
            if k < i { assert(a[k] == b[k]); }
        }
        if group_has_draw(a, g, path, d) {
            let k = choose|k: int| 0 <= k < a.len() && same_context(#[trigger] a[k], g) && has_draw(a[k].draws_by_instance@, path, d);
            assert(b[k] == a[k]);
        }
        if same_context(sels[i], g) && has_draw(sels[i].draws_by_instance@, path, d) {
            assert(b[i] == sels[i]);
        }
    }
}

/// Adds the draws of a selection made in the group's context to the group.
fn merge_selection(group: &mut SelectionContext, sel: &SelectionContext)
    requires
        selection_ok(*old(group)),
        selection_ok(*sel),
        same_context(*old(group), *sel),
    ensures
        final(group).context_plate_ids@ == old(group).context_plate_ids@,
        paths_eq(final(group).context_instance_paths@, old(group).context_instance_paths@),
        selection_ok(*final(group)),
        forall|path: Seq<usize>| #[trigger] has_path(final(group).draws_by_instance@, path)
            == (has_path(old(group).draws_by_instance@, path) || has_path(sel.draws_by_instance@, path)),
        forall|path: Seq<usize>, d: usize| #[trigger] has_draw(final(group).draws_by_instance@, path, d)
            == (has_draw(old(group).draws_by_instance@, path, d) || has_draw(sel.draws_by_instance@, path, d)),
{
    let ghost start = group.draws_by_instance@;
    let ghost es = sel.draws_by_instance@;
    proof { reveal(same_context); }
    let mut j: usize = 0;
    while j < sel.draws_by_instance.len()
        invariant
            j <= es.len(),
            es == sel.draws_by_instance@,
            selection_ok(*sel),
            group.context_plate_ids@ == old(group).context_plate_ids@,
            group.context_plate_ids@ == sel.context_plate_ids@,
            group.context_instance_paths@ == old(group).context_instance_paths@,
            same_context(*old(group), *sel),
            start == old(group).draws_by_instance@,
            selection_ok(*group),
            forall|path: Seq<usize>| #[trigger] has_path(group.draws_by_instance@, path)
                == (has_path(start, path) || has_path(es.take(j as int), path)),
            forall|path: Seq<usize>, d: usize| #[trigger] has_draw(group.draws_by_instance@, path, d)
                == (has_draw(start, path, d) || has_draw(es.take(j as int), path, d)),
        decreases es.len() - j,
    {
        let e = &sel.draws_by_instance[j];
        let ghost before = group.draws_by_instance@;
        proof {
            assert(e.draws@.no_duplicates());
            assert(e.path@.len() >= sel.context_plate_ids@.len());
        }
        merge_entry(&mut group.draws_by_instance, e);
        proof {
            let after = group.draws_by_instance@;
            let t0 = es.take(j as int);
            let t1 = es.take(j + 1);
            assert(t1 =~= t0.push(es[j as int]));
            assert forall|path: Seq<usize>| #[trigger] has_path(t1, path) == (has_path(t0, path) || path == es[j as int].path@) by {
                if has_path(t1, path) {
                    let k = choose|k: int| 0 <= k < t1.len() && (#[trigger] t1[k]).path@ == path;
                    if k < j { assert(t0[k] == t1[k]); }
                }
                if has_path(t0, path) {
                    let k = choose|k: int| 0 <= k < t0.len() && (#[trigger] t0[k]).path@ == path;
                    assert(t1[k] == t0[k]);
                }
                if path == es[j as int].path@ { assert(t1[j as int] == es[j as int]); }
            }
            assert forall|path: Seq<usize>, d: usize| #[trigger] has_draw(t1, path, d)
                == (has_draw(t0, path, d) || (path == es[j as int].path@ && es[j as int].draws@.contains(d))) by {
                if has_draw(t1, path, d) {
                    let k = choose|k: int| 0 <= k < t1.len() && (#[trigger] t1[k]).path@ == path && t1[k].draws@.contains(d);
                    if k < j { assert(t0[k] == t1[k]); }
                }
                if has_draw(t0, path, d) {
                    let k = choose|k: int| 0 <= k < t0.len() && (#[trigger] t0[k]).path@ == path && t0[k].draws@.contains(d);
                    assert(t1[k] == t0[k]);
                }
                if path == es[j as int].path@ && es[j as int].draws@.contains(d) { assert(t1[j as int] == es[j as int]); }
            }
            assert forall|a: int| 0 <= a < after.len() implies (#[trigger] after[a]).path@.len() >= group.context_plate_ids@.len() by {
                if after[a].path@ != e.path@ {
                    let b = choose|b: int| 0 <= b < before.len() && (#[trigger] before[b]).path@ == after[a].path@;
                }
            }
        }
        j = j + 1;
    }
    proof {
        assert(es.take(es.len() as int) =~= es);
    }
}


/// Selections made in contexts equal to each other are grouped alike.
proof fn lemma_group_has_same(sels: Seq<SelectionContext>, g1: SelectionContext, g2: SelectionContext)
    requires
        same_context(g1, g2),
    ensures
        forall|path: Seq<usize>| #[trigger] group_has_path(sels, g1, path) == group_has_path(sels, g2, path),
        forall|path: Seq<usize>, d: usize| #[trigger] group_has_draw(sels, g1, path, d) == group_has_draw(sels, g2, path, d),
{
    assert forall|path: Seq<usize>| #[trigger] group_has_path(sels, g1, path) == group_has_path(sels, g2, path) by {
        if group_has_path(sels, g1, path) {
            let k = choose|k: int| 0 <= k < sels.len() && same_context(#[trigger] sels[k], g1) && has_path(sels[k].draws_by_instance@, path);
            lemma_same_context(sels[k], g1, g2);
        }
        if group_has_path(sels, g2, path) {
            let k = choose|k: int| 0 <= k < sels.len() && same_context(#[trigger] sels[k], g2) && has_path(sels[k].draws_by_instance@, path);
            lemma_same_context(g1, g2, sels[k]);
            lemma_same_context(sels[k], g2, g1);
        }
    }
    assert forall|path: Seq<usize>, d: usize| #[trigger] group_has_draw(sels, g1, path, d) == group_has_draw(sels, g2, path, d) by {
        if group_has_draw(sels, g1, path, d) {
            let k = choose|k: int| 0 <= k < sels.len() && same_context(#[trigger] sels[k], g1) && has_draw(sels[k].draws_by_instance@, path, d);
            lemma_same_context(sels[k], g1, g2);
        }
        if group_has_draw(sels, g2, path, d) {
            let k = choose|k: int| 0 <= k < sels.len() && same_context(#[trigger] sels[k], g2) && has_draw(sels[k].draws_by_instance@, path, d);
            lemma_same_context(g1, g2, sels[k]);
            lemma_same_context(sels[k], g2, g1);
        }
    }
}

/// The update of the groups when selection `i` joins the group `g` of its
/// context, which keeps its context.
pub open spec fn joined(sels: Seq<SelectionContext>, i: int, before: Seq<SelectionContext>, after: Seq<SelectionContext>, g: int) -> bool {
    &&& 0 <= i < sels.len()
    &&& 0 <= g < before.len()
    &&& same_context(before[g], sels[i])
    &&& after.len() == before.len()
    &&& forall|h: int| 0 <= h < before.len() && h != g ==> after[h] == before[h]
    &&& same_context(after[g], before[g])
}

#[verifier::spinoff_prover]
proof fn lemma_join_from(sels: Seq<SelectionContext>, i: int, before: Seq<SelectionContext>, after: Seq<SelectionContext>, g: int)
    requires
        joined(sels, i, before, after, g),
        groups_from(sels.take(i), before),
    ensures
        groups_from(sels.take(i + 1), after),
{
    reveal(groups_from);
    let a = sels.take(i);
    let b = sels.take(i + 1);
    assert(b =~= a.push(sels[i]));
    lemma_same_context(before[g], sels[i], before[g]);
    lemma_same_context(after[g], before[g], after[g]);
    lemma_same_context(sels[i], before[g], after[g]);
    assert forall|h: int| 0 <= h < after.len() implies exists|k: int| 0 <= k < b.len() && same_context(b[k], #[trigger] after[h]) by {
        if h == g {
            assert(b[i] == sels[i]);
            assert(same_context(b[i], after[h]));
        } else {
            let k = choose|k: int| 0 <= k < a.len() && same_context(a[k], #[trigger] before[h]);
            assert(b[k] == a[k]);
            assert(same_context(b[k], after[h]));
        }
    }
}

#[verifier::spinoff_prover]
proof fn lemma_join_grouped(sels: Seq<SelectionContext>, i: int, before: Seq<SelectionContext>, after: Seq<SelectionContext>, g: int)
    requires
        joined(sels, i, before, after, g),
        sels_grouped(sels.take(i), before),
    ensures
        sels_grouped(sels.take(i + 1), after),
{
    reveal(sels_grouped);
    let a = sels.take(i);
    let b = sels.take(i + 1);
    assert(b =~= a.push(sels[i]));
    lemma_same_context(before[g], sels[i], before[g]);
    lemma_same_context(after[g], before[g], after[g]);
    lemma_same_context(sels[i], before[g], after[g]);
    assert forall|k: int| 0 <= k < b.len() implies exists|h: int| 0 <= h < after.len() && same_context(#[trigger] b[k], after[h]) by {
        if k == i {
            assert(same_context(b[k], after[g]));
        } else {
            assert(b[k] == a[k]);
            let h = choose|h: int| 0 <= h < before.len() && same_context(#[trigger] a[k], before[h]);
            if h == g {
                lemma_same_context(a[k], before[g], after[g]);
                assert(same_context(b[k], after[g]));
            } else {
                assert(after[h] == before[h]);
                assert(same_context(b[k], after[h]));
            }
        }
    }
}

#[verifier::spinoff_prover]
proof fn lemma_join_distinct(sels: Seq<SelectionContext>, i: int, before: Seq<SelectionContext>, after: Seq<SelectionContext>, g: int)
    requires
        joined(sels, i, before, after, g),
        groups_distinct(before),
    ensures
        groups_distinct(after),
{
    reveal(groups_distinct);
    lemma_same_context(after[g], before[g], after[g]);
    assert forall|x: int, y: int| 0 <= x < y < after.len() implies !same_context(#[trigger] after[x], #[trigger] after[y]) by {
        assert(!same_context(before[x], before[y]));
        if x == g {
            lemma_same_context(before[x], after[x], after[y]);
            assert(after[y] == before[y]);
        } else if y == g {
            assert(after[x] == before[x]);
            lemma_same_context(after[x], after[y], before[y]);
        } else {
            assert(after[x] == before[x]);
            assert(after[y] == before[y]);
        }
    }
}

#[verifier::rlimit(40)]
#[verifier::spinoff_prover]
proof fn lemma_join_union(sels: Seq<SelectionContext>, i: int, before: Seq<SelectionContext>, after: Seq<SelectionContext>, g: int)
    requires
        joined(sels, i, before, after, g),
        groups_distinct(before),
        groups_union(sels.take(i), before),
        forall|path: Seq<usize>| #[trigger] has_path(after[g].draws_by_instance@, path)
            == (has_path(before[g].draws_by_instance@, path) || has_path(sels[i].draws_by_instance@, path)),
        forall|path: Seq<usize>, d: usize| #[trigger] has_draw(after[g].draws_by_instance@, path, d)
            == (has_draw(before[g].draws_by_instance@, path, d) || has_draw(sels[i].draws_by_instance@, path, d)),
    ensures
        groups_union(sels.take(i + 1), after),
{
    reveal(groups_union);
    reveal(groups_distinct);
    let a = sels.take(i);
    let b = sels.take(i + 1);
    lemma_same_context(after[g], before[g], sels[i]);
    lemma_same_context(after[g], sels[i], after[g]);
    assert(same_context(sels[i], after[g]));
    lemma_group_has_same(a, after[g], before[g]);
    assert forall|h: int| 0 <= h < after.len() && h != g implies !same_context(sels[i], #[trigger] after[h]) by {
        assert(after[h] == before[h]);
        if same_context(sels[i], before[h]) {
            lemma_same_context(before[g], sels[i], before[h]);
            if g < h {
                assert(!same_context(before[g], before[h]));
            } else {
                assert(!same_context(before[h], before[g]));
                lemma_same_context(before[g], before[h], before[g]);
            }
        }
    }
    assert forall|h: int, path: Seq<usize>| 0 <= h < after.len() implies #[trigger] has_path(after[h].draws_by_instance@, path)
        == group_has_path(b, after[h], path) by {
        lemma_group_step(sels, i, after[h]);
        if h != g {
            assert(after[h] == before[h]);
            assert(has_path(before[h].draws_by_instance@, path) == group_has_path(a, before[h], path));
        } else {
            assert(has_path(before[g].draws_by_instance@, path) == group_has_path(a, before[g], path));
        }
    }
    assert forall|h: int, path: Seq<usize>, d: usize| 0 <= h < after.len() implies #[trigger] has_draw(after[h].draws_by_instance@, path, d)
        == group_has_draw(b, after[h], path, d) by {
        lemma_group_step(sels, i, after[h]);
        if h != g {
            assert(after[h] == before[h]);
            assert(has_draw(before[h].draws_by_instance@, path, d) == group_has_draw(a, before[h], path, d));
        } else {
            assert(has_draw(before[g].draws_by_instance@, path, d) == group_has_draw(a, before[g], path, d));
        }
    }
}

/// Selection `i`, whose context no group has yet, opens a new group.
#[verifier::spinoff_prover]
proof fn lemma_open_from(sels: Seq<SelectionContext>, i: int, before: Seq<SelectionContext>, fresh: SelectionContext, after: Seq<SelectionContext>)
    requires
        after == before.push(fresh),
        0 <= i < sels.len(),
        groups_from(sels.take(i), before),
        same_context(fresh, sels[i]),
    ensures
        groups_from(sels.take(i + 1), after),
{
    reveal(groups_from);
    let a = sels.take(i);
    let b = sels.take(i + 1);
    let n = before.len() as int;
    assert(b =~= a.push(sels[i]));
    lemma_same_context(fresh, sels[i], fresh);
    assert(same_context(sels[i], fresh));
    assert(after[n] == fresh);
    assert forall|h: int| 0 <= h < after.len() implies exists|k: int| 0 <= k < b.len() && same_context(b[k], #[trigger] after[h]) by {
        if h == n {
            assert(b[i] == sels[i]);
            assert(same_context(b[i], after[h]));
        } else {
            assert(after[h] == before[h]);
            let k = choose|k: int| 0 <= k < a.len() && same_context(a[k], #[trigger] before[h]);
            assert(b[k] == a[k]);
            assert(same_context(b[k], after[h]));
        }
    }
    assert(after.len() == n + 1);
    assert(b.len() == i + 1);

}

#[verifier::spinoff_prover]
proof fn lemma_open_grouped(sels: Seq<SelectionContext>, i: int, before: Seq<SelectionContext>, fresh: SelectionContext, after: Seq<SelectionContext>)
    requires
        after == before.push(fresh),
        0 <= i < sels.len(),
        sels_grouped(sels.take(i), before),
        same_context(fresh, sels[i]),
    ensures
        sels_grouped(sels.take(i + 1), after),
{
    reveal(sels_grouped);
    let a = sels.take(i);
    let b = sels.take(i + 1);
    let n = before.len() as int;
    assert(b =~= a.push(sels[i]));
    lemma_same_context(fresh, sels[i], fresh);
    assert(same_context(sels[i], fresh));
    assert(after[n] == fresh);
    assert forall|k: int| 0 <= k < b.len() implies exists|h: int| 0 <= h < after.len() && same_context(#[trigger] b[k], after[h]) by {
        if k == i {
            assert(after[n] == fresh);
            assert(same_context(b[k], after[n]));
        } else {
            assert(b[k] == a[k]);
            let h = choose|h: int| 0 <= h < before.len() && same_context(#[trigger] a[k], before[h]);
            assert(after[h] == before[h]);
            assert(same_context(b[k], after[h]));
        }
    }
    assert(after.len() == n + 1);
    assert(b.len() == i + 1);
}

#[verifier::spinoff_prover]
proof fn lemma_open_distinct(sels: Seq<SelectionContext>, i: int, before: Seq<SelectionContext>, fresh: SelectionContext, after: Seq<SelectionContext>)
    requires
        after == before.push(fresh),
        0 <= i < sels.len(),
        groups_distinct(before),
        forall|h: int| 0 <= h < before.len() ==> !same_context(#[trigger] before[h], sels[i]),
        same_context(fresh, sels[i]),
    ensures
        groups_distinct(after),
{
    reveal(groups_distinct);
    let n = before.len() as int;
    assert forall|x: int, y: int| 0 <= x < y < after.len() implies !same_context(#[trigger] after[x], #[trigger] after[y]) by {
        assert(after[x] == before[x]);
        if y == n {
            if same_context(before[x], fresh) {
                lemma_same_context(before[x], fresh, sels[i]);
            }
        } else {
            assert(after[y] == before[y]);
        }
    }
}

#[verifier::rlimit(40)]
#[verifier::spinoff_prover]
proof fn lemma_open_union(sels: Seq<SelectionContext>, i: int, before: Seq<SelectionContext>, fresh: SelectionContext)
    requires
        0 <= i < sels.len(),
        sels_grouped(sels.take(i), before),
        groups_union(sels.take(i), before),
        forall|h: int| 0 <= h < before.len() ==> !same_context(#[trigger] before[h], sels[i]),
        same_context(fresh, sels[i]),
        forall|path: Seq<usize>| #[trigger] has_path(fresh.draws_by_instance@, path) == has_path(sels[i].draws_by_instance@, path),
        forall|path: Seq<usize>, d: usize| #[trigger] has_draw(fresh.draws_by_instance@, path, d) == has_draw(sels[i].draws_by_instance@, path, d),
    ensures
        groups_union(sels.take(i + 1), before.push(fresh)),
{
    reveal(groups_union);
    reveal(sels_grouped);
    let a = sels.take(i);
    let after = before.push(fresh);
    let n = before.len() as int;
    lemma_same_context(fresh, sels[i], fresh);
    lemma_same_context(sels[i], fresh, sels[i]);
    // No selection before `i` was made in the new context.
    assert forall|k: int| 0 <= k < a.len() implies !same_context(#[trigger] a[k], fresh) by {
        let h = choose|h: int| 0 <= h < before.len() && same_context(#[trigger] a[k], before[h]);
        if same_context(a[k], fresh) {
            lemma_same_context(before[h], a[k], fresh);
            lemma_same_context(a[k], before[h], before[h]);
            lemma_same_context(before[h], fresh, sels[i]);
        }
    }
    assert forall|path: Seq<usize>| !#[trigger] group_has_path(a, fresh, path) by {}
    assert forall|path: Seq<usize>, d: usize| !#[trigger] group_has_draw(a, fresh, path, d) by {}
    assert forall|h: int| 0 <= h < n implies !same_context(sels[i], #[trigger] before[h]) by {
        if same_context(sels[i], before[h]) {
            lemma_same_context(sels[i], before[h], sels[i]);
        }
    }
    assert forall|h: int, path: Seq<usize>| 0 <= h < after.len() implies #[trigger] has_path(after[h].draws_by_instance@, path)
        == group_has_path(sels.take(i + 1), after[h], path) by {
        lemma_group_step(sels, i, after[h]);
        if h < n {
            assert(after[h] == before[h]);
            assert(has_path(before[h].draws_by_instance@, path) == group_has_path(a, before[h], path));
        }
    }
    assert forall|h: int, path: Seq<usize>, d: usize| 0 <= h < after.len() implies #[trigger] has_draw(after[h].draws_by_instance@, path, d)
        == group_has_draw(sels.take(i + 1), after[h], path, d) by {
        lemma_group_step(sels, i, after[h]);
        if h < n {
            assert(after[h] == before[h]);
            assert(has_draw(before[h].draws_by_instance@, path, d) == group_has_draw(a, before[h], path, d));
        }
    }
}

/// The selections joined by context: one group for each context in the order the
/// contexts first occur, holding for each instance path the union of the draws
/// the context's selections chose there.
pub fn group_selections(selections: &Vec<SelectionContext>) -> (groups: Vec<SelectionContext>)
    requires
        forall|i: int| 0 <= i < selections@.len() ==> selection_ok(#[trigger] selections@[i]),
    ensures
        groups_ok(selections@, groups@),
{
    let mut groups: Vec<SelectionContext> = Vec::new();
    let mut i: usize = 0;
    proof {
        assert(selections@.take(0) =~= Seq::<SelectionContext>::empty());
        reveal(groups_valid);
        reveal(groups_from);
        reveal(sels_grouped);
        reveal(groups_distinct);
        reveal(groups_union);
    }
    while i < selections.len()
        invariant
            i <= selections@.len(),
            forall|q: int| 0 <= q < selections@.len() ==> selection_ok(#[trigger] selections@[q]),
            groups_ok(selections@.take(i as int), groups@),
        decreases selections@.len() - i,
    {
        let sel = &selections[i];
        let ghost before = groups@;
        match find_group(&groups, sel) {
            Some(g) => {
                let mut group = groups.remove(g);
                proof {
                    assert(group == before[g as int]);
                    reveal(groups_valid);
                }
                let ghost start = group;
                merge_selection(&mut group, sel);
                groups.insert(g, group);
                proof {
                    assert forall|h: int| 0 <= h < before.len() && h != g implies groups@[h] == before[h] by {}
                    assert(same_context(groups@[g as int], before[g as int])) by {
                        reveal(same_context);
                    }
                    lemma_join_from(selections@, i as int, before, groups@, g as int);
                    lemma_join_grouped(selections@, i as int, before, groups@, g as int);
                    lemma_join_distinct(selections@, i as int, before, groups@, g as int);
                    lemma_join_union(selections@, i as int, before, groups@, g as int);
                    reveal(groups_valid);
                    assert forall|h: int| 0 <= h < groups@.len() implies selection_ok(#[trigger] groups@[h]) by {
                        if h != g { assert(groups@[h] == before[h]); }
                    }
                }
            },
            None => {
                let mut group = SelectionContext {
                    context_plate_ids: crate::util::copy_ids(&sel.context_plate_ids),
                    context_instance_paths: copy_paths(&sel.context_instance_paths),
                    draws_by_instance: Vec::new(),
                };
                proof {
                    assert(same_context(group, *sel)) by {
                        reveal(same_context);
                        assert forall|k: int| 0 <= k < group.context_instance_paths@.len() implies
                            (#[trigger] group.context_instance_paths@[k])@ == sel.context_instance_paths@[k]@ by {}
                    }
                    assert forall|path: Seq<usize>| !#[trigger] has_path(group.draws_by_instance@, path) by {}
                    assert forall|path: Seq<usize>, d: usize| !#[trigger] has_draw(group.draws_by_instance@, path, d) by {}
                }
                merge_selection(&mut group, sel);
                proof {
                    assert(same_context(group, *sel)) by {
                        reveal(same_context);
                        assert forall|k: int| 0 <= k < group.context_instance_paths@.len() implies
                            (#[trigger] group.context_instance_paths@[k])@ == sel.context_instance_paths@[k]@ by {}
                    }
                    assert forall|h: int| 0 <= h < before.len() implies !same_context(#[trigger] before[h], selections@[i as int]) by {}
                    lemma_open_union(selections@, i as int, before, group);
                }
                let ghost fresh = group;
                groups.push(group);
                proof {
                    lemma_open_from(selections@, i as int, before, fresh, groups@);
                    lemma_open_grouped(selections@, i as int, before, fresh, groups@);
                    lemma_open_distinct(selections@, i as int, before, fresh, groups@);
                    reveal(groups_valid);
                    assert forall|h: int| 0 <= h < groups@.len() implies selection_ok(#[trigger] groups@[h]) by {
                        if h < before.len() { assert(groups@[h] == before[h]); }
                    }
                }
            },
        }
        i = i + 1;
    }
    proof { assert(selections@.take(selections@.len() as int) =~= selections@); }
    groups
}


/// The weight a selection gives a draw depends only on which draws it holds at
/// which paths, not on how its entries are listed: selections of one context
/// joined into one group weigh a draw as a single selection holding the union.
pub proof fn lemma_weight_depends_on_held_draws(
    paths: Seq<Vec<usize>>,
    e1: Seq<InstanceDraws>,
    e2: Seq<InstanceDraws>,
    shared: Seq<(usize, usize)>,
    key: Seq<usize>,
    d: usize,
)
    requires
        draws_ok(e1),
        draws_ok(e2),
        forall|path: Seq<usize>, x: usize| #[trigger] has_draw(e1, path, x) == has_draw(e2, path, x),
    ensures
        weight_for(paths, e1, shared, key, d) == weight_for(paths, e2, shared, key, d),
{
    lemma_counted_paths(e1, shared, key, d, e1.len() as int);
    lemma_counted_paths(e2, shared, key, d, e2.len() as int);
    let c1 = counted_paths(e1, shared, key, d, e1.len() as int);
    let c2 = counted_paths(e2, shared, key, d, e2.len() as int);
    assert forall|p: Seq<usize>| c1.contains(p) implies c2.contains(p) by {
        let a = choose|a: int| 0 <= a < e1.len() && e1[a].path@ == p && e1[a].draws@.contains(d);
        assert(has_draw(e1, p, d));
        assert(has_draw(e2, p, d));
        let b = choose|b: int| 0 <= b < e2.len() && (#[trigger] e2[b]).path@ == p && e2[b].draws@.contains(d);
        let a2 = choose|a2: int| 0 <= a2 < e1.len() && e1[a2].path@ == p && projection(p, shared, true) == key;
        assert(counted_paths(e2, shared, key, d, e2.len() as int).contains(e2[b].path@));
    }
    assert forall|p: Seq<usize>| c2.contains(p) implies c1.contains(p) by {
        let a = choose|a: int| 0 <= a < e2.len() && e2[a].path@ == p && e2[a].draws@.contains(d);
        assert(has_draw(e2, p, d));
        assert(has_draw(e1, p, d));
        let b = choose|b: int| 0 <= b < e1.len() && (#[trigger] e1[b]).path@ == p && e1[b].draws@.contains(d);
        let a2 = choose|a2: int| 0 <= a2 < e2.len() && e2[a2].path@ == p && projection(p, shared, true) == key;
        assert(counted_paths(e1, shared, key, d, e1.len() as int).contains(e1[b].path@));
    }
    assert(c1 =~= c2);
}

} // verus!
