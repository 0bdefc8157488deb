//! Why strict mode never meets a hole: when the analysis finds neither a
//! shape conflict nor a gap in an array, the lowered tree has no hole.

use vstd::prelude::*;
use crate::ast::SegmentView;
use crate::ir::{
    IrTree, LeafView, key_pos, lemma_key_pos_from, container_for, insert_ok,
    tree_insert, has_hole, child_holes, elem_holes,
};
use crate::sema::{
    EntryView, shape_lookup, entry_shapes, shape_diags, group_find_from, group_add,
    entry_groups, groups_from, seq_max, gap_diags, gaps_from, sparse_diags, array_span_from,
};
use crate::ir::{lower_upto, lower_tree, leaf_of};
use crate::shapes::{
    rooted, reg_upto, registry_matches, lemma_lowerable_upto, lemma_no_shape_diags, lemma_entry_step,
    lemma_entry_shapes,
    step, tree_get, present, is_prefix, child_for, lemma_get_cons, lemma_get_child, lemma_get_empty,
    lemma_insert_step, lemma_child_for, lemma_get_on_path, lemma_get_frame, lemma_get_beyond, padded_below,
};

verus! {

/// No two children of `m` share a key.
pub open spec fn distinct_keys(m: Seq<(Seq<char>, IrTree)>) -> bool {
    forall|a: int, b: int| 0 <= a < b < m.len() ==> (#[trigger] m[a]).0 != (#[trigger] m[b]).0
}

/// Every object of `t` has distinct keys, and every array of `t` can be
/// indexed throughout by a `u32`.
pub open spec fn well_keyed(t: IrTree) -> bool {
    forall|q: Seq<SegmentView>|
        #![trigger tree_get(t, q)]
        tree_get(t, q) is Some ==> match tree_get(t, q)->0 {
            IrTree::Object(m) => distinct_keys(m),
            IrTree::Array(a) => a.len() <= u32::MAX + 1,
            _ => true,
        }
}

/// The node that an insertion along `p` meets at the prefix of length `i`,
/// before it: the node there, or a fresh container where there is none.
pub open spec fn node_before(t: IrTree, p: Seq<SegmentView>, i: int) -> IrTree {
    if present(t, p.subrange(0, i)) {
        tree_get(t, p.subrange(0, i))->0
    } else {
        container_for(p[i])
    }
}

/// After an insertion along `p`, the node at each proper prefix of `p` is
/// the insertion of the rest of `p` into the node met there.
pub proof fn lemma_get_path_node(t: IrTree, p: Seq<SegmentView>, v: LeafView, i: int)
    requires
        p.len() > 0,
        insert_ok(t, p),
        0 <= i < p.len(),
    ensures
        tree_get(tree_insert(t, p, v), p.subrange(0, i)) == Some(
            tree_insert(node_before(t, p, i), p.subrange(i, p.len() as int), v),
        ),
        insert_ok(node_before(t, p, i), p.subrange(i, p.len() as int)),
    decreases p.len(),
{
    let t2 = tree_insert(t, p, v);
    assert(!(t is Hole));
    if i == 0 {
        assert(p.subrange(0, 0) =~= seq![]);
        assert(p.subrange(0, p.len() as int) =~= p);
    } else {
        let c = child_for(t, p);
        let rest = p.drop_first();
        lemma_insert_step(t, p, v);
        lemma_child_for(t, p);
        let q = p.subrange(0, i);
        let qr = rest.subrange(0, i - 1);
        assert(q =~= seq![p[0]] + qr);
        lemma_get_child(t2, p[0], tree_insert(c, rest, v), qr);
        lemma_get_path_node(c, rest, v, i - 1);
        assert(rest.subrange(i - 1, rest.len() as int) =~= p.subrange(i, p.len() as int));
        assert(rest[i - 1] == p[i]);
        lemma_get_cons(t, p[0], qr);
        let existing = step(t, p[0]) matches Some(x) && !(x is Hole);
        if existing {
            lemma_get_child(t, p[0], c, qr);
        } else {
            if i - 1 > 0 {
                lemma_get_empty(p[1], qr);
                if step(t, p[0]) == Some(IrTree::Hole) {
                    assert(step(IrTree::Hole, qr[0]) is None);
                }
            } else {
                assert(qr =~= seq![]);
                assert(q =~= seq![p[0]]);
            }
        }
    }
}

/// An insertion keeps the keys of the node it starts from distinct and its
/// array indexable by `u32`.
pub proof fn lemma_insert_top(t: IrTree, p: Seq<SegmentView>, v: LeafView)
    requires
        p.len() > 0,
        insert_ok(t, p),
        t matches IrTree::Object(m) ==> distinct_keys(m),
        t matches IrTree::Array(a) ==> a.len() <= u32::MAX + 1,
    ensures
        tree_insert(t, p, v) matches IrTree::Object(m) ==> distinct_keys(m),
        tree_insert(t, p, v) matches IrTree::Array(a) ==> a.len() <= u32::MAX + 1,
{
    let x = if p.len() == 1 {
        IrTree::Leaf(v)
    } else {
        tree_insert(child_for(t, p), p.drop_first(), v)
    };
    match p[0] {
        SegmentView::Field(name) => {
            let m = t->Object_0;
            lemma_key_pos_from(m, name, 0);
            match key_pos(m, name) {
                Some(i) => {
                    let m2 = m.update(i, (name, x));
                    assert forall|a: int, b: int| 0 <= a < b < m2.len() implies (#[trigger] m2[a]).0
                        != (#[trigger] m2[b]).0 by {
                        assert(m[a].0 != m[b].0);
                    }
                },
                None => {
                    let m2 = m.push((name, x));
                    assert forall|a: int, b: int| 0 <= a < b < m2.len() implies (#[trigger] m2[a]).0
                        != (#[trigger] m2[b]).0 by {
                        if b < m.len() {
                            assert(m[a].0 != m[b].0);
                        } else {
                            assert(m2[a] == m[a]);
                        }
                    }
                },
            }
        },
        SegmentView::Index(i) => {},
    }
}

/// An insertion keeps every object's keys distinct and every array
/// indexable by `u32`.
pub proof fn lemma_insert_well_keyed(t: IrTree, p: Seq<SegmentView>, v: LeafView)
    requires
        p.len() > 0,
        insert_ok(t, p),
        well_keyed(t),
    ensures
        well_keyed(tree_insert(t, p, v)),
{
    let t2 = tree_insert(t, p, v);
    assert forall|q: Seq<SegmentView>|
        #![trigger tree_get(t2, q)]
        tree_get(t2, q) is Some implies match tree_get(t2, q)->0 {
            IrTree::Object(m) => distinct_keys(m),
            IrTree::Array(a) => a.len() <= u32::MAX + 1,
            _ => true,
        } by {
        if is_prefix(q, p) {
            let i = q.len() as int;
            assert(p.subrange(0, i) == q);
            if i < p.len() {
                lemma_get_path_node(t, p, v, i);
                let nb = node_before(t, p, i);
                assert(tree_get(t, q) is Some ==> match tree_get(t, q)->0 {
                    IrTree::Object(m) => distinct_keys(m),
                    IrTree::Array(a) => a.len() <= u32::MAX + 1,
                    _ => true,
                });
                if !present(t, q) {
                    match p[i] {
                        SegmentView::Field(_) => {},
                        SegmentView::Index(_) => {},
                    }
                }
                assert(p.subrange(i, p.len() as int).len() > 0);
                lemma_insert_top(nb, p.subrange(i, p.len() as int), v);
            } else {
                lemma_get_on_path(t, p, v, i);
            }
        } else if is_prefix(p, q) {
            if q.len() > p.len() {
                lemma_get_beyond(t, p, v, q);
            } else {
                assert(q.subrange(0, q.len() as int) =~= q);
                assert(p.subrange(0, q.len() as int) =~= q);
            }
        } else {
            lemma_get_frame(t, p, v, q);
            assert(tree_get(t, q) is Some ==> match tree_get(t, q)->0 {
                IrTree::Object(m) => distinct_keys(m),
                IrTree::Array(a) => a.len() <= u32::MAX + 1,
                _ => true,
            });
        }
    }
}

/// A well-keyed tree in which no path reads a hole has no hole.
pub proof fn lemma_hole_free(t: IrTree)
    requires
        well_keyed(t),
        forall|q: Seq<SegmentView>| #![trigger tree_get(t, q)] tree_get(t, q) != Some(IrTree::Hole),
    ensures
        !has_hole(t),
    decreases t,
{
    assert(tree_get(t, seq![]) == Some(t));
    match t {
        IrTree::Object(m) => {
            assert(distinct_keys(m));
            assert forall|i: int| 0 <= i < m.len() implies !(#[trigger] child_holes(m)[i]) by {
                let seg = SegmentView::Field(m[i].0);
                lemma_key_pos_from(m, m[i].0, 0);
                if let Some(j) = key_pos(m, m[i].0) {
                    if j != i {
                        if j < i {
                            assert(m[j].0 != m[i].0);
                        }
                    }
                }
                assert(step(t, seg) == Some(m[i].1));
                let c = m[i].1;
                assert forall|q: Seq<SegmentView>| #![trigger tree_get(c, q)] tree_get(c, q) is Some implies match tree_get(c, q)->0 {
                    IrTree::Object(m) => distinct_keys(m),
                    IrTree::Array(a) => a.len() <= u32::MAX + 1,
                    _ => true,
                } by {
                    lemma_get_child(t, seg, c, q);
                    assert(tree_get(t, seq![seg] + q) == tree_get(c, q));
                }
                assert forall|q: Seq<SegmentView>| #![trigger tree_get(c, q)] tree_get(c, q) != Some(IrTree::Hole) by {
                    lemma_get_child(t, seg, c, q);
                    assert(tree_get(t, seq![seg] + q) == tree_get(c, q));
                }
                assert(decreases_to!(t => m));
                assert(decreases_to!(m => m[i]));
                lemma_hole_free(c);
            }
            assert(!child_holes(m).contains(true));
        },
        IrTree::Array(a) => {
            assert(a.len() <= u32::MAX + 1);
            assert forall|i: int| 0 <= i < a.len() implies !(#[trigger] elem_holes(a)[i]) by {
                let seg = SegmentView::Index(i as u32);
                assert(step(t, seg) == Some(a[i]));
                let c = a[i];
                assert forall|q: Seq<SegmentView>| #![trigger tree_get(c, q)] tree_get(c, q) is Some implies match tree_get(c, q)->0 {
                    IrTree::Object(m) => distinct_keys(m),
                    IrTree::Array(a) => a.len() <= u32::MAX + 1,
                    _ => true,
                } by {
                    lemma_get_child(t, seg, c, q);
                    assert(tree_get(t, seq![seg] + q) == tree_get(c, q));
                }
                assert forall|q: Seq<SegmentView>| #![trigger tree_get(c, q)] tree_get(c, q) != Some(IrTree::Hole) by {
                    lemma_get_child(t, seg, c, q);
                    assert(tree_get(t, seq![seg] + q) == tree_get(c, q));
                }
                assert(decreases_to!(t => a));
                lemma_hole_free(c);
            }
            assert(!elem_holes(a).contains(true));
        },
        _ => {},
    }
}

// ---------------------------------------------------------------------------
// The arrays that the analysis records.
// ---------------------------------------------------------------------------

/// The arrays and their indices recorded for the first `n` entries.
pub open spec fn groups_upto(es: Seq<EntryView>, n: int) -> Seq<(Seq<SegmentView>, Seq<u32>)>
    decreases n,
{
    if n <= 0 {
        seq![]
    } else {
        entry_groups(es[n - 1].0, 0, groups_upto(es, n - 1))
    }
}

pub proof fn lemma_groups_from(es: Seq<EntryView>, e: int)
    requires
        0 <= e <= es.len(),
    ensures
        groups_from(es, e, groups_upto(es, e)) == groups_upto(es, es.len() as int),
    decreases es.len() - e,
{
    if e < es.len() {
        assert(groups_upto(es, e + 1) == entry_groups(es[e].0, 0, groups_upto(es, e)));
        lemma_groups_from(es, e + 1);
    }
}

pub proof fn lemma_group_find(gs: Seq<(Seq<SegmentView>, Seq<u32>)>, key: Seq<SegmentView>, j: int)
    requires
        0 <= j,
    ensures
        match group_find_from(gs, key, j) {
            Some(g) => j <= g < gs.len() && gs[g].0 == key,
            None => forall|g: int| j <= g < gs.len() ==> (#[trigger] gs[g]).0 != key,
        },
    decreases gs.len() - j,
{
    if j < gs.len() && gs[j].0 != key {
        lemma_group_find(gs, key, j + 1);
    }
}

/// What recording an index does: earlier groups keep their keys and
/// indices, some group for `key` holds `idx`, and nothing else is added.
pub proof fn lemma_group_add(gs: Seq<(Seq<SegmentView>, Seq<u32>)>, key: Seq<SegmentView>, idx: u32)
    ensures
        group_add(gs, key, idx).len() >= gs.len(),
        forall|g: int|
            0 <= g < gs.len() ==> (#[trigger] group_add(gs, key, idx)[g]).0 == gs[g].0,
        forall|g: int, x: u32|
            0 <= g < gs.len() && #[trigger] gs[g].1.contains(x) ==> group_add(gs, key, idx)[g].1.contains(x),
        exists|g: int|
            0 <= g < group_add(gs, key, idx).len() && (#[trigger] group_add(gs, key, idx)[g]).0 == key
                && group_add(gs, key, idx)[g].1.contains(idx),
        forall|g: int, x: u32|
            0 <= g < group_add(gs, key, idx).len() && #[trigger] group_add(gs, key, idx)[g].1.contains(x)
                ==> (g < gs.len() && gs[g].1.contains(x)) || (group_add(gs, key, idx)[g].0 == key && x
                == idx),
{
    let r = group_add(gs, key, idx);
    lemma_group_find(gs, key, 0);
    match group_find_from(gs, key, 0) {
        Some(i) => {
            let l = gs[i].1;
            assert(r[i].1 == l.push(idx));
            assert(l.push(idx)[l.len() as int] == idx);
            assert(r[i].1.contains(idx));
            assert forall|g: int, x: u32| 0 <= g < gs.len() && #[trigger] gs[g].1.contains(x) implies r[g].1.contains(x) by {
                if g == i {
                    let k = choose|k: int| 0 <= k < l.len() && l[k] == x;
                    assert(l.push(idx)[k] == x);
                }
            }
            assert forall|g: int, x: u32| 0 <= g < r.len() && #[trigger] r[g].1.contains(x) implies (g < gs.len()
                && gs[g].1.contains(x)) || (r[g].0 == key && x == idx) by {
                if g == i {
                    let k = choose|k: int| 0 <= k < l.push(idx).len() && l.push(idx)[k] == x;
                    if k < l.len() {
                        assert(l[k] == x);
                    }
                }
            }
        },
        None => {
            let n = gs.len() as int;
            assert(r[n] == (key, seq![idx]));
            assert(seq![idx][0] == idx);
            assert(r[n].1.contains(idx));
            assert forall|g: int, x: u32| 0 <= g < r.len() && #[trigger] r[g].1.contains(x) implies (g < gs.len()
                && gs[g].1.contains(x)) || (r[g].0 == key && x == idx) by {
                if g == n {
                    let k = choose|k: int| 0 <= k < seq![idx].len() && seq![idx][k] == x;
                }
            }
        },
    }
}

/// What recording the indices of `path` from segment `i` on does.
pub proof fn lemma_entry_groups(path: Seq<SegmentView>, i: int, gs: Seq<(Seq<SegmentView>, Seq<u32>)>)
    requires
        0 <= i,
    ensures
        entry_groups(path, i, gs).len() >= gs.len(),
        forall|g: int| 0 <= g < gs.len() ==> (#[trigger] entry_groups(path, i, gs)[g]).0 == gs[g].0,
        forall|g: int, x: u32|
            0 <= g < gs.len() && #[trigger] gs[g].1.contains(x) ==> entry_groups(path, i, gs)[g].1.contains(x),
        forall|j: int|
            i <= j < path.len() && (#[trigger] path[j]) is Index ==> exists|g: int|
                0 <= g < entry_groups(path, i, gs).len() && (#[trigger] entry_groups(path, i, gs)[g]).0
                    == path.subrange(0, j) && entry_groups(path, i, gs)[g].1.contains(path[j]->Index_0),
        forall|g: int, x: u32|
            0 <= g < entry_groups(path, i, gs).len() && #[trigger] entry_groups(path, i, gs)[g].1.contains(x)
                ==> (g < gs.len() && gs[g].1.contains(x)) || exists|j: int|
                i <= j < path.len() && #[trigger] path[j] == SegmentView::Index(x) && entry_groups(
                    path,
                    i,
                    gs,
                )[g].0 == path.subrange(0, j),
    decreases path.len() - i,
{
    if i < path.len() {
        let gs2 = match path[i] {
            SegmentView::Index(idx) => group_add(gs, path.subrange(0, i), idx),
            SegmentView::Field(_) => gs,
        };
        let r = entry_groups(path, i + 1, gs2);
        assert(entry_groups(path, i, gs) == r);
        lemma_entry_groups(path, i + 1, gs2);
        if let SegmentView::Index(idx) = path[i] {
            lemma_group_add(gs, path.subrange(0, i), idx);
            let g0 = choose|g: int|
                0 <= g < gs2.len() && (#[trigger] gs2[g]).0 == path.subrange(0, i) && gs2[g].1.contains(idx);
            assert(r[g0].0 == path.subrange(0, i));
            assert(r[g0].1.contains(idx));
        }
        assert forall|g: int, x: u32|
            0 <= g < r.len() && #[trigger] r[g].1.contains(x) implies (g < gs.len() && gs[g].1.contains(x))
                || exists|j: int|
                i <= j < path.len() && #[trigger] path[j] == SegmentView::Index(x) && r[g].0 == path.subrange(
                    0,
                    j,
                ) by {
            if !(g < gs2.len() && gs2[g].1.contains(x)) {
                let j = choose|j: int|
                    i + 1 <= j < path.len() && #[trigger] path[j] == SegmentView::Index(x) && r[g].0
                        == path.subrange(0, j);
            } else if let SegmentView::Index(idx) = path[i] {
                if !(g < gs.len() && gs[g].1.contains(x)) {
                    assert(gs2[g].0 == path.subrange(0, i) && x == idx);
                    assert(r[g].0 == gs2[g].0);
                    assert(path[i] == SegmentView::Index(x));
                }
            }
        }
    }
}

/// Where the recorded arrays come from: each index that an entry gives to
/// an array is recorded for it, and each recorded index was given by some
/// entry.
pub proof fn lemma_groups_upto(es: Seq<EntryView>, n: int)
    requires
        0 <= n <= es.len(),
    ensures
        forall|k: int, i: int|
            0 <= k < n && 0 <= i < es[k].0.len() && (#[trigger] es[k].0[i]) is Index ==> exists|g: int|
                0 <= g < groups_upto(es, n).len() && (#[trigger] groups_upto(es, n)[g]).0
                    == es[k].0.subrange(0, i) && groups_upto(es, n)[g].1.contains(es[k].0[i]->Index_0),
        forall|g: int, x: u32|
            0 <= g < groups_upto(es, n).len() && #[trigger] groups_upto(es, n)[g].1.contains(x)
                ==> exists|k: int, i: int|
                0 <= k < n && 0 <= i < es[k].0.len() && #[trigger] es[k].0[i] == SegmentView::Index(x)
                    && groups_upto(es, n)[g].0 == es[k].0.subrange(0, i),
    decreases n,
{
    if n > 0 {
        lemma_groups_upto(es, n - 1);
        let gs = groups_upto(es, n - 1);
        let p = es[n - 1].0;
        lemma_entry_groups(p, 0, gs);
        let r = groups_upto(es, n);
        assert(r == entry_groups(p, 0, gs));
        assert forall|k: int, i: int|
            0 <= k < n && 0 <= i < es[k].0.len() && (#[trigger] es[k].0[i]) is Index implies exists|g: int|
                0 <= g < r.len() && (#[trigger] r[g]).0 == es[k].0.subrange(0, i) && r[g].1.contains(
                    es[k].0[i]->Index_0,
                ) by {
            if k < n - 1 {
                let g = choose|g: int|
                    0 <= g < gs.len() && (#[trigger] gs[g]).0 == es[k].0.subrange(0, i) && gs[g].1.contains(
                        es[k].0[i]->Index_0,
                    );
                assert(r[g].0 == gs[g].0);
            } else {
                assert(p[i] is Index);
            }
        }
        assert forall|g: int, x: u32|
            0 <= g < r.len() && #[trigger] r[g].1.contains(x) implies exists|k: int, i: int|
                0 <= k < n && 0 <= i < es[k].0.len() && #[trigger] es[k].0[i] == SegmentView::Index(x)
                    && r[g].0 == es[k].0.subrange(0, i) by {
            if g < gs.len() && gs[g].1.contains(x) {
                let (k, i) = choose|k: int, i: int|
                    0 <= k < n - 1 && 0 <= i < es[k].0.len() && #[trigger] es[k].0[i] == SegmentView::Index(x)
                        && gs[g].0 == es[k].0.subrange(0, i);
                assert(r[g].0 == gs[g].0);
                assert(es[k].0[i] == SegmentView::Index(x));
            } else {
                let j = choose|j: int|
                    0 <= j < p.len() && #[trigger] p[j] == SegmentView::Index(x) && r[g].0 == p.subrange(0, j);
                assert(es[n - 1].0[j] == SegmentView::Index(x));
            }
        }
    }
}

pub proof fn lemma_seq_max(s: Seq<u32>)
    ensures
        forall|k: int| 0 <= k < s.len() ==> s[k] <= seq_max(s),
    decreases s.len(),
{
    if s.len() > 1 {
        lemma_seq_max(s.drop_last());
        assert forall|k: int| 0 <= k < s.len() implies s[k] <= seq_max(s) by {
            if k < s.len() - 1 {
                assert(s[k] == s.drop_last()[k]);
            }
        }
    }
}

/// Whether index `l` is among the recorded indices `idx`.
pub open spec fn recorded(idx: Seq<u32>, l: int) -> bool {
    idx.contains(l as u32)
}

/// No gap warning from index `i` up to `max` means each of those indices
/// is recorded.
pub proof fn lemma_gap_diags(idx: Seq<u32>, i: int, max: int, span: crate::span::Span)
    requires
        0 <= i,
        max <= u32::MAX,
        gap_diags(idx, i, max, span).len() == 0,
    ensures
        forall|l: int| i <= l <= max ==> #[trigger] recorded(idx, l),
    decreases max + 1 - i,
{
    if i <= max {
        lemma_gap_diags(idx, i + 1, max, span);
    }
}

/// No gap warning at all means no gap warning for any array.
pub proof fn lemma_gaps_from(es: Seq<EntryView>, gs: Seq<(Seq<SegmentView>, Seq<u32>)>, g: int)
    requires
        0 <= g,
        gaps_from(es, gs, g).len() == 0,
    ensures
        forall|h: int|
            g <= h < gs.len() ==> (#[trigger] gap_diags(
                gs[h].1,
                0,
                seq_max(gs[h].1) as int,
                array_span_from(es, gs[h].0, 0),
            )).len() == 0,
    decreases gs.len() - g,
{
    if g < gs.len() {
        lemma_gaps_from(es, gs, g + 1);
    }
}

// ---------------------------------------------------------------------------
// Holes in the lowered tree.
// ---------------------------------------------------------------------------

/// Each prefix of an entry's path is registered once the entry is in.
pub proof fn lemma_prefix_registered(es: Seq<EntryView>, n: int, k: int, q: Seq<SegmentView>)
    requires
        0 <= k < n <= es.len(),
        is_prefix(q, es[k].0),
        forall|j: int|
            0 <= j < es.len() ==> (#[trigger] entry_shapes(es[j].0, es[j].1.decl_span, 0, reg_upto(es, j))).0.len()
                == 0,
    ensures
        shape_lookup(reg_upto(es, n), q) is Some,
    decreases n,
{
    let e = es[n - 1];
    assert(entry_shapes(e.0, e.1.decl_span, 0, reg_upto(es, n - 1)).0.len() == 0);
    lemma_entry_shapes(e.0, e.1.decl_span, 0, reg_upto(es, n - 1));
    assert(reg_upto(es, n) == entry_shapes(e.0, e.1.decl_span, 0, reg_upto(es, n - 1)).1);
    if k == n - 1 {
        assert(es[k].0.subrange(0, q.len() as int) == q);
    } else {
        lemma_prefix_registered(es, n - 1, k, q);
    }
}

/// The tree after the first `n` entries is well keyed, and each hole in it
/// pads an array below an index that some entry gave it.
pub proof fn lemma_holes_upto(es: Seq<EntryView>, n: int)
    requires
        0 <= n <= es.len(),
        forall|j: int| 0 <= j < es.len() ==> rooted(#[trigger] es[j].0),
        forall|j: int|
            0 <= j < es.len() ==> (#[trigger] entry_shapes(es[j].0, es[j].1.decl_span, 0, reg_upto(es, j))).0.len()
                == 0,
    ensures
        well_keyed(lower_upto(es, n)),
        forall|q: Seq<SegmentView>|
            #![trigger tree_get(lower_upto(es, n), q)]
            tree_get(lower_upto(es, n), q) == Some(IrTree::Hole) ==> exists|k: int|
                0 <= k < n && #[trigger] padded_below(q, es[k].0),
    decreases n,
{
    let t = lower_upto(es, n);
    if n == 0 {
        assert forall|q: Seq<SegmentView>| #![trigger tree_get(t, q)] q.len() > 0 implies tree_get(t, q) is None by {
            lemma_get_empty(SegmentView::Field(seq![]), q);
            assert(t == container_for(SegmentView::Field(seq![])));
        }
        assert(tree_get(t, seq![]) == Some(t));
        assert(distinct_keys(seq![]));
        assert forall|q: Seq<SegmentView>| #![trigger tree_get(t, q)] tree_get(t, q) is Some implies match tree_get(t, q)->0 {
            IrTree::Object(m) => distinct_keys(m),
            IrTree::Array(a) => a.len() <= u32::MAX + 1,
            _ => true,
        } by {
            if q.len() == 0 {
                assert(q =~= seq![]);
            }
        }
    } else {
        lemma_holes_upto(es, n - 1);
        lemma_lowerable_upto(es, n - 1);
        let t0 = lower_upto(es, n - 1);
        let p = es[n - 1].0;
        let v = leaf_of(es[n - 1].1.value);
        assert(rooted(p));
        assert(entry_shapes(p, es[n - 1].1.decl_span, 0, reg_upto(es, n - 1)).0.len() == 0);
        lemma_entry_step(reg_upto(es, n - 1), t0, p, es[n - 1].1.decl_span, v);
        assert(t == tree_insert(t0, p, v));
        lemma_insert_well_keyed(t0, p, v);
        assert forall|q: Seq<SegmentView>|
            #![trigger tree_get(t, q)]
            tree_get(t, q) == Some(IrTree::Hole) implies exists|k: int| 0 <= k < n && #[trigger] padded_below(q, es[k].0) by {
            if is_prefix(q, p) {
                assert(p.subrange(0, q.len() as int) == q);
                lemma_get_on_path(t0, p, v, q.len() as int);
            } else if is_prefix(p, q) {
                if q.len() > p.len() {
                    lemma_get_beyond(t0, p, v, q);
                } else {
                    assert(q.subrange(0, q.len() as int) =~= q);
                    assert(p.subrange(0, q.len() as int) =~= q);
                    lemma_get_on_path(t0, p, v, q.len() as int);
                }
            } else {
                lemma_get_frame(t0, p, v, q);
                if tree_get(t0, q) == Some(IrTree::Hole) {
                    let k = choose|k: int| 0 <= k < n - 1 && #[trigger] padded_below(q, es[k].0);
                    assert(padded_below(q, es[k].0));
                } else {
                    assert(padded_below(q, es[n - 1].0));
                }
            }
        }
    }
}

/// With no gap warning, an array that an entry indexes at `ip` is indexed
/// by some entry at each index below `ip` too.
pub proof fn lemma_recorded_below(es: Seq<EntryView>, key: Seq<SegmentView>, ip: u32, j: u32, k: int)
    requires
        sparse_diags(es).len() == 0,
        0 <= k < es.len(),
        j < ip,
        is_prefix(key.push(SegmentView::Index(ip)), es[k].0),
    ensures
        exists|k2: int| 0 <= k2 < es.len() && #[trigger] is_prefix(key.push(SegmentView::Index(j)), es[k2].0),
{
    let n = es.len() as int;
    let gs = groups_upto(es, n);
    lemma_groups_from(es, 0);
    assert(groups_upto(es, 0) == Seq::<(Seq<SegmentView>, Seq<u32>)>::empty());
    assert(groups_from(es, 0, seq![]) == gs);
    lemma_gaps_from(es, gs, 0);
    lemma_groups_upto(es, n);
    let pk = es[k].0;
    let w = key.push(SegmentView::Index(ip));
    let i = key.len() as int;
    assert(pk.subrange(0, w.len() as int) == w);
    assert(pk[i] == w[i]);
    assert(pk[i] == SegmentView::Index(ip));
    assert(pk.subrange(0, i) =~= key) by {
        assert forall|l: int| 0 <= l < i implies pk.subrange(0, i)[l] == key[l] by {
            assert(pk.subrange(0, w.len() as int)[l] == w[l]);
        }
    }
    let g = choose|g: int|
        0 <= g < gs.len() && (#[trigger] gs[g]).0 == pk.subrange(0, i) && gs[g].1.contains(pk[i]->Index_0);
    let idx = gs[g].1;
    assert(idx.contains(ip));
    lemma_seq_max(idx);
    assert(ip <= seq_max(idx));
    assert(gap_diags(idx, 0, seq_max(idx) as int, array_span_from(es, gs[g].0, 0)).len() == 0);
    lemma_gap_diags(idx, 0, seq_max(idx) as int, array_span_from(es, gs[g].0, 0));
    assert(recorded(idx, j as int));
    assert(idx.contains(j));
    let (k2, i2) = choose|k2: int, i2: int|
        0 <= k2 < n && 0 <= i2 < es[k2].0.len() && #[trigger] es[k2].0[i2] == SegmentView::Index(j)
            && gs[g].0 == es[k2].0.subrange(0, i2);
    let p2 = es[k2].0;
    assert(p2.subrange(0, i2 + 1) =~= p2.subrange(0, i2).push(p2[i2]));
    assert(is_prefix(key.push(SegmentView::Index(j)), p2));
}

/// When the analysis finds neither a shape conflict nor a gap, no path of
/// the lowered tree reads a hole.
pub proof fn lemma_no_hole_at(es: Seq<EntryView>, q: Seq<SegmentView>)
    requires
        shape_diags(es).len() == 0,
        sparse_diags(es).len() == 0,
        forall|k: int| 0 <= k < es.len() ==> rooted(#[trigger] es[k].0),
    ensures
        tree_get(lower_tree(es), q) != Some(IrTree::Hole),
{
    let n = es.len() as int;
    lemma_no_shape_diags(es, 0);
    let t = lower_tree(es);
    if tree_get(t, q) == Some(IrTree::Hole) {
        lemma_holes_upto(es, n);
        let k = choose|k: int| 0 <= k < n && #[trigger] padded_below(q, es[k].0);
        let j = q.last()->Index_0;
        let key = q.drop_last();
        let ip = choose|ip: u32| j < ip && #[trigger] is_prefix(key.push(SegmentView::Index(ip)), es[k].0);
        lemma_recorded_below(es, key, ip, j, k);
        let k2 = choose|k2: int| 0 <= k2 < n && #[trigger] is_prefix(key.push(SegmentView::Index(j)), es[k2].0);
        assert(q =~= key.push(SegmentView::Index(j)));
        lemma_prefix_registered(es, n, k2, q);
        lemma_lowerable_upto(es, n);
        assert(registry_matches(reg_upto(es, n), t));
        assert(present(t, q));
    }
}

/// When the analysis finds neither a shape conflict nor a gap in an array,
/// and every path starts with a field, the lowered tree has no hole.
pub proof fn lemma_lower_no_holes(es: Seq<EntryView>)
    requires
        shape_diags(es).len() == 0,
        sparse_diags(es).len() == 0,
        forall|k: int| 0 <= k < es.len() ==> rooted(#[trigger] es[k].0),
    ensures
        !has_hole(lower_tree(es)),
{
    let n = es.len() as int;
    lemma_no_shape_diags(es, 0);
    lemma_holes_upto(es, n);
    let t = lower_tree(es);
    assert forall|q: Seq<SegmentView>| #![trigger tree_get(t, q)] tree_get(t, q) != Some(IrTree::Hole) by {
        lemma_no_hole_at(es, q);
    }
    lemma_hole_free(t);
}

} // verus!
