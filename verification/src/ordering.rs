//! The order of object keys: that it is a strict order, and that sorting
//! the children of an object puts them in that order without losing or
//! adding any.

use vstd::prelude::*;
use crate::ast::SegmentView;
use crate::ir::{
    IrTree, LeafView, bytes_lt_from, order_pos_from, key_before, slot_from, sort_children,
    fill_tree, order_tree, ordered_kids, ordered_elems, order_lookup, field_path, index_path, key_pos,
    lemma_key_pos_from, passes_tree,
};
use crate::shapes::{step, tree_get, lemma_get_cons, lemma_key_pos_same_keys};
use crate::holes::{well_keyed, distinct_keys};

verus! {

pub proof fn lemma_bytes_lt_irreflexive(a: Seq<u8>, j: int)
    ensures
        !bytes_lt_from(a, a, j),
    decreases a.len() - j,
{
    if 0 <= j < a.len() {
        lemma_bytes_lt_irreflexive(a, j + 1);
    }
}

pub proof fn lemma_bytes_lt_transitive(a: Seq<u8>, b: Seq<u8>, c: Seq<u8>, j: int)
    requires
        bytes_lt_from(a, b, j),
        bytes_lt_from(b, c, j),
    ensures
        bytes_lt_from(a, c, j),
    decreases a.len() - j,
{
    if 0 <= j < a.len() && j < b.len() && j < c.len() && a[j] == b[j] && b[j] == c[j] {
        lemma_bytes_lt_transitive(a, b, c, j + 1);
    }
}

/// The first position of a key in an order list is where it stands.
pub proof fn lemma_order_pos(order: Seq<Seq<char>>, k: Seq<char>, j: int)
    requires
        0 <= j,
    ensures
        order_pos_from(order, k, j) matches Some(p) ==> j <= p < order.len() && order[p] == k,
    decreases order.len() - j,
{
    if 0 <= j < order.len() && order[j] != k {
        lemma_order_pos(order, k, j + 1);
    }
}

/// No key comes before itself.
pub proof fn lemma_key_before_irreflexive(o: Option<Seq<Seq<char>>>, a: Seq<char>)
    ensures
        !key_before(o, a, a),
{
    lemma_bytes_lt_irreflexive(vstd::utf8::encode_utf8(a), 0);
}

/// Coming before is transitive.
pub proof fn lemma_key_before_transitive(o: Option<Seq<Seq<char>>>, a: Seq<char>, b: Seq<char>, c: Seq<char>)
    requires
        key_before(o, a, b),
        key_before(o, b, c),
    ensures
        key_before(o, a, c),
{
    let (ea, eb, ec) = (
        vstd::utf8::encode_utf8(a),
        vstd::utf8::encode_utf8(b),
        vstd::utf8::encode_utf8(c),
    );
    match o {
        Some(order) => {
            if order_pos_from(order, a, 0) is None && order_pos_from(order, b, 0) is None
                && order_pos_from(order, c, 0) is None {
                lemma_bytes_lt_transitive(ea, eb, ec, 0);
            }
        },
        None => {
            lemma_bytes_lt_transitive(ea, eb, ec, 0);
        },
    }
}

/// The children are in key order: no child comes before an earlier one.
pub open spec fn sorted_by(r: Seq<(Seq<char>, IrTree)>, o: Option<Seq<Seq<char>>>) -> bool {
    forall|i: int, j: int| 0 <= i < j < r.len() ==> !key_before(o, (#[trigger] r[j]).0, (#[trigger] r[i]).0)
}

/// Where a key goes: after every child it does not come before, and before
/// the child at its slot.
pub proof fn lemma_slot_from(r: Seq<(Seq<char>, IrTree)>, k: Seq<char>, o: Option<Seq<Seq<char>>>, j: int)
    requires
        0 <= j <= r.len(),
    ensures
        j <= slot_from(r, k, o, j) <= r.len(),
        forall|q: int| j <= q < slot_from(r, k, o, j) ==> !key_before(o, k, (#[trigger] r[q]).0),
        slot_from(r, k, o, j) < r.len() ==> key_before(o, k, r[slot_from(r, k, o, j)].0),
    decreases r.len() - j,
{
    if j < r.len() && !key_before(o, k, r[j].0) {
        lemma_slot_from(r, k, o, j + 1);
    }
}

/// Inserting a child at its slot keeps the children in order.
pub proof fn lemma_insert_sorted(r: Seq<(Seq<char>, IrTree)>, x: (Seq<char>, IrTree), o: Option<Seq<Seq<char>>>)
    requires
        sorted_by(r, o),
    ensures
        sorted_by(r.insert(slot_from(r, x.0, o, 0), x), o),
{
    let p = slot_from(r, x.0, o, 0);
    lemma_slot_from(r, x.0, o, 0);
    let s = r.insert(p, x);
    assert forall|i: int, j: int| 0 <= i < j < s.len() implies !key_before(o, (#[trigger] s[j]).0, (#[trigger] s[i]).0) by {
        if j < p {
            assert(s[i] == r[i] && s[j] == r[j]);
        } else if j == p {
            assert(s[i] == r[i]);
        } else if i == p {
            assert(s[j] == r[j - 1]);
            if key_before(o, r[j - 1].0, x.0) {
                lemma_key_before_transitive(o, r[j - 1].0, x.0, r[p].0);
                if j - 1 == p {
                    lemma_key_before_irreflexive(o, r[p].0);
                } else {
                    assert(!key_before(o, r[j - 1].0, r[p].0));
                }
            }
        } else if i < p {
            assert(s[i] == r[i] && s[j] == r[j - 1]);
        } else {
            assert(s[i] == r[i - 1] && s[j] == r[j - 1]);
        }
    }
}

/// Sorting the children of an object puts them in key order, keeps each
/// child, and adds none: the result is a permutation of the children.
pub proof fn lemma_sort_children(m: Seq<(Seq<char>, IrTree)>, o: Option<Seq<Seq<char>>>)
    ensures
        sorted_by(sort_children(m, o), o),
        sort_children(m, o).to_multiset() == m.to_multiset(),
        sort_children(m, o).len() == m.len(),
    decreases m.len(),
{
    broadcast use vstd::seq_lib::group_to_multiset_ensures;

    if m.len() > 0 {
        let r = sort_children(m.drop_last(), o);
        lemma_sort_children(m.drop_last(), o);
        lemma_insert_sorted(r, m.last(), o);
        lemma_slot_from(r, m.last().0, o, 0);
        assert(m =~= m.drop_last().push(m.last()));
        assert(m.to_multiset() == m.drop_last().to_multiset().insert(m.last()));
    } else {
        assert(sorted_by(m, o));
    }
}

// ---------------------------------------------------------------------------
// Reading the tree after the passes.
// ---------------------------------------------------------------------------

/// Filling holes changes what a path reads only by filling it.
pub proof fn lemma_fill_get(t: IrTree, q: Seq<SegmentView>)
    ensures
        tree_get(fill_tree(t), q) == match tree_get(t, q) {
            Some(n) => Some(fill_tree(n)),
            None => None,
        },
    decreases q.len(),
{
    let f = fill_tree(t);
    if q.len() > 0 {
        assert(q =~= seq![q[0]] + q.drop_first());
        lemma_get_cons(t, q[0], q.drop_first());
        lemma_get_cons(f, q[0], q.drop_first());
        match q[0] {
            SegmentView::Field(name) => {
                if let IrTree::Object(m) = t {
                    let fm = f->Object_0;
                    assert forall|i: int| 0 <= i < fm.len() implies (#[trigger] fm[i]).0 == m[i].0 by {}
                    lemma_key_pos_same_keys(fm, m, name, 0);
                    if let Some(i) = key_pos(m, name) {
                        lemma_key_pos_from(m, name, 0);
                        lemma_fill_get(m[i].1, q.drop_first());
                    }
                }
            },
            SegmentView::Index(j) => {
                if let IrTree::Array(a) = t {
                    if (j as int) < a.len() {
                        lemma_fill_get(a[j as int], q.drop_first());
                    }
                }
            },
        }
        if step(t, q[0]) == Some(IrTree::Hole) && q.len() > 1 {
            assert(step(fill_tree(IrTree::Hole), q.drop_first()[0]) is None);
            assert(step(IrTree::Hole, q.drop_first()[0]) is None);
        }
    }
}

/// Filling holes keeps every object's keys and every array's length.
pub proof fn lemma_fill_well_keyed(t: IrTree)
    requires
        well_keyed(t),
    ensures
        well_keyed(fill_tree(t)),
{
    let f = fill_tree(t);
    assert forall|q: Seq<SegmentView>|
        #![trigger tree_get(f, q)]
        tree_get(f, q) is Some implies match tree_get(f, q)->0 {
            IrTree::Object(m) => distinct_keys(m),
            IrTree::Array(a) => a.len() <= u32::MAX + 1,
            _ => true,
        } by {
        lemma_fill_get(t, q);
        let n = tree_get(t, q)->0;
        if let IrTree::Object(m) = n {
            let fm = fill_tree(n)->Object_0;
            assert forall|a: int, b: int| 0 <= a < b < fm.len() implies (#[trigger] fm[a]).0 != (#[trigger] fm[b]).0 by {
                assert(m[a].0 != m[b].0);
            }
        }
    }
}

/// A leaf at `q` is still read at `q` once every object's keys are ordered,
/// when no object has two children with one key.
pub proof fn lemma_order_get(
    t: IrTree,
    path: Seq<char>,
    table: Seq<(Seq<char>, Seq<Seq<char>>)>,
    q: Seq<SegmentView>,
    v: LeafView,
)
    requires
        well_keyed(t),
        tree_get(t, q) == Some(IrTree::Leaf(v)),
    ensures
        tree_get(order_tree(t, path, table), q) == Some(IrTree::Leaf(v)),
    decreases q.len(),
{
    broadcast use vstd::seq_lib::group_to_multiset_ensures;

    let o = order_tree(t, path, table);
    if q.len() == 0 {
        assert(tree_get(t, q) == Some(t));
    } else {
        let rest = q.drop_first();
        assert(q =~= seq![q[0]] + rest);
        lemma_get_cons(t, q[0], rest);
        lemma_get_cons(o, q[0], rest);
        let c = step(t, q[0])->0;
        assert(tree_get(t, seq![]) == Some(t));
        assert(well_keyed(c)) by {
            assert forall|r: Seq<SegmentView>|
                #![trigger tree_get(c, r)]
                tree_get(c, r) is Some implies match tree_get(c, r)->0 {
                    IrTree::Object(m) => distinct_keys(m),
                    IrTree::Array(a) => a.len() <= u32::MAX + 1,
                    _ => true,
                } by {
                lemma_get_cons(t, q[0], r);
            }
        }
        match q[0] {
            SegmentView::Field(name) => {
                let m = t->Object_0;
                let i = key_pos(m, name)->0;
                lemma_key_pos_from(m, name, 0);
                let childpath = field_path(path, m[i].0);
                lemma_order_get(c, childpath, table, rest, v);
                let k = ordered_kids(m, path, table);
                let ol = order_lookup(table, path);
                let s = sort_children(k, ol);
                lemma_sort_children(k, ol);
                let target = k[i];
                assert(k.contains(target));
                assert(k.to_multiset().count(target) > 0);
                assert(s.contains(target));
                let i2 = choose|i2: int| 0 <= i2 < s.len() && s[i2] == target;
                lemma_key_pos_from(s, name, 0);
                let j = key_pos(s, name)->0;
                assert(s.contains(s[j]));
                assert(s.to_multiset().count(s[j]) > 0);
                assert(k.to_multiset().count(s[j]) > 0);
                assert(k.contains(s[j]));
                let l = choose|l: int| 0 <= l < k.len() && k[l] == s[j];
                assert(distinct_keys(m));
                if l != i {
                    if l < i {
                        assert(m[l].0 != m[i].0);
                    } else {
                        assert(m[i].0 != m[l].0);
                    }
                }
                assert(s[j] == target);
                assert(step(o, q[0]) == Some(target.1));
            },
            SegmentView::Index(jx) => {
                let a = t->Array_0;
                lemma_order_get(c, index_path(path, jx as nat), table, rest, v);
                assert(ordered_elems(a, path, table)[jx as int] == order_tree(a[jx as int], index_path(path, jx as int as nat), table));
            },
        }
    }
}

// ---------------------------------------------------------------------------
// Which order list orders which object.
// ---------------------------------------------------------------------------

/// The dotted path of the object reached from the root by the fields `ks`:
/// the field names joined by `.`, as the keys of the order table are
/// written (`a.b` for the object at field `b` of field `a`).
pub open spec fn dotted(ks: Seq<Seq<char>>) -> Seq<char>
    decreases ks.len(),
{
    if ks.len() == 0 {
        seq![]
    } else {
        let p = dotted(ks.drop_last());
        if p.len() == 0 {
            ks.last()
        } else {
            p + seq!['.'] + ks.last()
        }
    }
}

/// The path made of the fields `ks`.
pub open spec fn fields(ks: Seq<Seq<char>>) -> Seq<SegmentView> {
    ks.map_values(|k: Seq<char>| SegmentView::Field(k))
}

/// After the passes, the object reached from the root by the fields `ks`
/// has its keys in the order that the order table gives for its dotted
/// path: an entry for `a.b` orders the keys of the object at `a.b` (listed
/// keys first, by their place in the list, then the others by their
/// bytes), and without an entry the keys go by their bytes. This holds of
/// every tree whose objects have distinct keys, as lowered trees do.
pub proof fn law_keys_ordered_by_dotted_path(
    t: IrTree,
    cfg: (bool, Seq<(Seq<char>, Seq<Seq<char>>)>),
    ks: Seq<Seq<char>>,
)
    requires
        well_keyed(t),
        tree_get(t, fields(ks)) matches Some(IrTree::Object(_)),
    ensures
        tree_get(passes_tree(t, cfg), fields(ks)) matches Some(IrTree::Object(m)) && sorted_by(
            m,
            order_lookup(cfg.1, dotted(ks)),
        ),
{
    lemma_fill_well_keyed(t);
    lemma_fill_get(t, fields(ks));
    lemma_order_at(fill_tree(t), seq![], cfg.1, ks);
    lemma_dotted(ks);
}

/// The path of the object below `path` that the fields `ks` lead to.
spec fn path_after(path: Seq<char>, ks: Seq<Seq<char>>) -> Seq<char>
    decreases ks.len(),
{
    if ks.len() == 0 {
        path
    } else {
        path_after(field_path(path, ks[0]), ks.drop_first())
    }
}

proof fn lemma_path_after_push(path: Seq<char>, ks: Seq<Seq<char>>, k: Seq<char>)
    ensures
        path_after(path, ks.push(k)) == field_path(path_after(path, ks), k),
    decreases ks.len(),
{
    let ks2 = ks.push(k);
    assert(ks2[0] == if ks.len() == 0 { k } else { ks[0] });
    if ks.len() == 0 {
        assert(ks2.drop_first() =~= seq![]);
        assert(path_after(field_path(path, k), seq![]) == field_path(path, k));
        assert(path_after(path, ks2) == path_after(field_path(path, k), ks2.drop_first()));
    } else {
        assert(ks2.drop_first() =~= ks.drop_first().push(k));
        lemma_path_after_push(field_path(path, ks[0]), ks.drop_first(), k);
        assert(path_after(path, ks2) == path_after(field_path(path, ks[0]), ks2.drop_first()));
    }
}

proof fn lemma_dotted(ks: Seq<Seq<char>>)
    ensures
        path_after(seq![], ks) == dotted(ks),
    decreases ks.len(),
{
    if ks.len() > 0 {
        lemma_dotted(ks.drop_last());
        assert(ks =~= ks.drop_last().push(ks.last()));
        lemma_path_after_push(seq![], ks.drop_last(), ks.last());
        reveal_strlit(".");
        assert("."@ =~= seq!['.']);
    }
}

/// The children of a child are what they are in the child itself.
proof fn lemma_child_well_keyed(t: IrTree, seg: SegmentView)
    requires
        well_keyed(t),
        step(t, seg) is Some,
    ensures
        well_keyed(step(t, seg)->0),
{
    let c = step(t, seg)->0;
    assert forall|r: Seq<SegmentView>|
        #![trigger tree_get(c, r)]
        tree_get(c, r) is Some implies match tree_get(c, r)->0 {
            IrTree::Object(m) => distinct_keys(m),
            IrTree::Array(a) => a.len() <= u32::MAX + 1,
            _ => true,
        } by {
        lemma_get_cons(t, seg, r);
    }
}

/// Ordering keeps the child at field `k`, ordered within at the child's
/// path.
proof fn lemma_order_step(
    t: IrTree,
    path: Seq<char>,
    table: Seq<(Seq<char>, Seq<Seq<char>>)>,
    k: Seq<char>,
)
    requires
        well_keyed(t),
        step(t, SegmentView::Field(k)) is Some,
    ensures
        step(order_tree(t, path, table), SegmentView::Field(k)) == Some(
            order_tree(step(t, SegmentView::Field(k))->0, field_path(path, k), table),
        ),
{
    broadcast use vstd::seq_lib::group_to_multiset_ensures;

    let m = t->Object_0;
    let i = key_pos(m, k)->0;
    lemma_key_pos_from(m, k, 0);
    assert(tree_get(t, seq![]) == Some(t));
    let kids = ordered_kids(m, path, table);
    let ol = order_lookup(table, path);
    let s = sort_children(kids, ol);
    lemma_sort_children(kids, ol);
    let target = kids[i];
    assert(kids.contains(target));
    assert(kids.to_multiset().count(target) > 0);
    assert(s.contains(target));
    lemma_key_pos_from(s, k, 0);
    let j = key_pos(s, k)->0;
    assert(s.contains(s[j]));
    assert(s.to_multiset().count(s[j]) > 0);
    assert(kids.to_multiset().count(s[j]) > 0);
    assert(kids.contains(s[j]));
    let l = choose|l: int| 0 <= l < kids.len() && kids[l] == s[j];
    assert(distinct_keys(m));
    if l != i {
        if l < i {
            assert(m[l].0 != m[i].0);
        } else {
            assert(m[i].0 != m[l].0);
        }
    }
    assert(s[j] == target);
}

proof fn lemma_order_at(
    t: IrTree,
    path: Seq<char>,
    table: Seq<(Seq<char>, Seq<Seq<char>>)>,
    ks: Seq<Seq<char>>,
)
    requires
        well_keyed(t),
        tree_get(t, fields(ks)) matches Some(IrTree::Object(_)),
    ensures
        tree_get(order_tree(t, path, table), fields(ks)) matches Some(IrTree::Object(m)) && sorted_by(
            m,
            order_lookup(table, path_after(path, ks)),
        ),
    decreases ks.len(),
{
    let o = order_tree(t, path, table);
    if ks.len() == 0 {
        assert(fields(ks) =~= seq![]);
        let m = t->Object_0;
        lemma_sort_children(ordered_kids(m, path, table), order_lookup(table, path));
    } else {
        let seg = SegmentView::Field(ks[0]);
        let rest = ks.drop_first();
        assert(fields(ks) =~= seq![seg] + fields(rest));
        lemma_get_cons(t, seg, fields(rest));
        lemma_get_cons(o, seg, fields(rest));
        let c = step(t, seg)->0;
        lemma_child_well_keyed(t, seg);
        lemma_order_step(t, path, table, ks[0]);
        lemma_order_at(c, field_path(path, ks[0]), table, rest);
    }
}

/// In keys put in order by an order list, a key that the list names never
/// comes after one that it does not name, and two named keys come in the
/// order of their first places in the list.
pub proof fn law_listed_keys_first(m: Seq<(Seq<char>, IrTree)>, order: Seq<Seq<char>>)
    requires
        sorted_by(m, Some(order)),
    ensures
        forall|i: int, j: int, q: int|
            #![trigger m[i], m[j], order[q]]
            0 <= i < j < m.len() && 0 <= q < order.len() && order[q] == m[j].0
                ==> exists|r: int| #![trigger order[r]] 0 <= r < order.len() && order[r] == m[i].0,
        forall|i: int, j: int, qi: int, qj: int|
            #![trigger m[i], m[j], order[qi], order[qj]]
            0 <= i < j < m.len() && 0 <= qi < order.len() && 0 <= qj < order.len() && order[qi]
                == m[i].0 && order[qj] == m[j].0 && (forall|r: int|
                0 <= r < qi ==> order[r] != m[i].0) && (forall|r: int|
                0 <= r < qj ==> order[r] != m[j].0) ==> qi <= qj,
{
    assert forall|i: int, j: int, q: int|
        #![trigger m[i], m[j], order[q]]
        0 <= i < j < m.len() && 0 <= q < order.len() && order[q] == m[j].0
            implies exists|r: int| #![trigger order[r]] 0 <= r < order.len() && order[r] == m[i].0 by {
        assert(!key_before(Some(order), m[j].0, m[i].0));
        lemma_order_pos_first(order, m[j].0, 0);
        lemma_order_pos_first(order, m[i].0, 0);
        lemma_order_pos(order, m[i].0, 0);
    }
    assert forall|i: int, j: int, qi: int, qj: int|
        #![trigger m[i], m[j], order[qi], order[qj]]
        0 <= i < j < m.len() && 0 <= qi < order.len() && 0 <= qj < order.len() && order[qi]
            == m[i].0 && order[qj] == m[j].0 && (forall|r: int|
            0 <= r < qi ==> order[r] != m[i].0) && (forall|r: int|
            0 <= r < qj ==> order[r] != m[j].0) implies qi <= qj by {
        assert(!key_before(Some(order), m[j].0, m[i].0));
        lemma_order_pos_first(order, m[j].0, 0);
        lemma_order_pos_first(order, m[i].0, 0);
        lemma_order_pos(order, m[i].0, 0);
        lemma_order_pos(order, m[j].0, 0);
    }
}

/// `order_pos_from` finds the first place of a key from `j` on, and finds
/// nothing only where the key is not there.
proof fn lemma_order_pos_first(order: Seq<Seq<char>>, k: Seq<char>, j: int)
    requires
        0 <= j,
    ensures
        order_pos_from(order, k, j) matches Some(p) ==> forall|r: int| j <= r < p ==> order[r] != k,
        order_pos_from(order, k, j) is None ==> forall|r: int| j <= r < order.len() ==> order[r] != k,
    decreases order.len() - j,
{
    if 0 <= j < order.len() && order[j] != k {
        lemma_order_pos_first(order, k, j + 1);
    }
}

} // verus!
