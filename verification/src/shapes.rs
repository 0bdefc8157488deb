//! Why a symbol table without shape conflicts can be lowered: reading the
//! tree at a path, how an insertion changes what is read, and the proof that
//! each entry finds on its way containers of the kind its path needs.

use vstd::prelude::*;
use crate::ast::SegmentView;
use crate::ir::{
    IrTree, LeafView, key_pos, key_pos_from, lemma_key_pos_from, container_for, pad, insert_ok,
    tree_insert, leaf_of, lower_upto, lowerable_upto, lowerable, lower_tree,
};
use crate::ast::DeclView;
use crate::parser::{
    PathParse, path_from, parse_path, theme_decl_at, decls_from, at_end, is_theme_at,
    resync, lemma_theme_decl_advances, lemma_token_runs,
};
use crate::lexer::TokenView;
use crate::sema::{
    table_upto,
    ShapeKind, EntryView, shape_at, shape_lookup, shape_lookup_from, entry_shapes, shapes_from,
    shape_diags, shape_conflict,
};

verus! {

/// The child of `t` that segment `seg` names, if there is one.
pub open spec fn step(t: IrTree, seg: SegmentView) -> Option<IrTree> {
    match seg {
        SegmentView::Field(name) => match t {
            IrTree::Object(m) => match key_pos(m, name) {
                Some(i) => Some(m[i].1),
                None => None,
            },
            _ => None,
        },
        SegmentView::Index(i) => match t {
            IrTree::Array(a) => if (i as int) < a.len() {
                Some(a[i as int])
            } else {
                None
            },
            _ => None,
        },
    }
}

/// The node of `t` at path `q`, if there is one.
pub open spec fn tree_get(t: IrTree, q: Seq<SegmentView>) -> Option<IrTree>
    decreases q.len(),
{
    if q.len() == 0 {
        Some(t)
    } else {
        match step(t, q[0]) {
            Some(c) => tree_get(c, q.drop_first()),
            None => None,
        }
    }
}

/// The shape of a node that is not a hole.
pub open spec fn kind_of(t: IrTree) -> ShapeKind {
    match t {
        IrTree::Object(_) => ShapeKind::Object,
        IrTree::Array(_) => ShapeKind::Array,
        _ => ShapeKind::Leaf,
    }
}

/// Whether `t` holds a node, not a hole, at `q`.
pub open spec fn present(t: IrTree, q: Seq<SegmentView>) -> bool {
    tree_get(t, q) matches Some(n) && !(n is Hole)
}

/// No object of `t` has a hole as a child.
pub open spec fn no_object_holes(t: IrTree) -> bool {
    forall|q: Seq<SegmentView>|
        #![trigger tree_get(t, q)]
        q.len() > 0 && q.last() is Field && tree_get(t, q) is Some ==> !(tree_get(t, q)->0 is Hole)
}

/// Whether the nodes that `t` already has along `p` are of the kinds that
/// `p` needs: a container of the right kind before each further segment.
pub open spec fn fits(t: IrTree, p: Seq<SegmentView>) -> bool {
    &&& kind_of(t) == shape_at(p, 0)
    &&& !(t is Hole)
    &&& forall|i: int|
        #![trigger p.subrange(0, i)]
        1 <= i < p.len() && present(t, p.subrange(0, i)) ==> kind_of(tree_get(t, p.subrange(0, i))->0)
            == shape_at(p, i)
}

pub proof fn lemma_key_pos_same_keys(
    m1: Seq<(Seq<char>, IrTree)>,
    m2: Seq<(Seq<char>, IrTree)>,
    k: Seq<char>,
    j: int,
)
    requires
        m1.len() == m2.len(),
        forall|i: int| 0 <= i < m1.len() ==> (#[trigger] m1[i]).0 == m2[i].0,
    ensures
        key_pos_from(m1, k, j) == key_pos_from(m2, k, j),
    decreases m1.len() - j,
{
    if 0 <= j < m1.len() {
        assert(m1[j].0 == m2[j].0);
        lemma_key_pos_same_keys(m1, m2, k, j + 1);
    }
}

pub proof fn lemma_key_pos_push(m: Seq<(Seq<char>, IrTree)>, e: (Seq<char>, IrTree), k: Seq<char>, j: int)
    requires
        0 <= j <= m.len(),
    ensures
        key_pos_from(m.push(e), k, j) == match key_pos_from(m, k, j) {
            Some(i) => Some(i),
            None => if e.0 == k {
                Some(m.len() as int)
            } else {
                None
            },
        },
    decreases m.len() - j,
{
    let m2 = m.push(e);
    if j < m.len() {
        assert(m2[j] == m[j]);
        lemma_key_pos_push(m, e, k, j + 1);
    } else {
        assert(m2[j] == e);
        assert(key_pos_from(m2, k, j + 1) is None);
    }
}

/// The children of an object keep their keys under an update at a key's
/// own position.
pub proof fn lemma_key_pos_update(m: Seq<(Seq<char>, IrTree)>, i: int, x: IrTree, k: Seq<char>)
    requires
        0 <= i < m.len(),
    ensures
        key_pos(m.update(i, (m[i].0, x)), k) == key_pos(m, k),
{
    let m2 = m.update(i, (m[i].0, x));
    assert forall|l: int| 0 <= l < m2.len() implies (#[trigger] m2[l]).0 == m[l].0 by {}
    lemma_key_pos_same_keys(m2, m, k, 0);
}

/// A fresh container has nothing below it.
pub proof fn lemma_get_empty(seg: SegmentView, q: Seq<SegmentView>)
    requires
        q.len() > 0,
    ensures
        tree_get(container_for(seg), q) is None,
{
    let c = container_for(seg);
    match q[0] {
        SegmentView::Field(name) => {
            if c is Object {
                assert(key_pos(c->Object_0, name) is None);
            }
        },
        SegmentView::Index(_) => {},
    }
    assert(step(c, q[0]) is None);
}

/// Reading below a child is reading the parent at the longer path.
pub proof fn lemma_get_cons(t: IrTree, seg: SegmentView, q: Seq<SegmentView>)
    ensures
        tree_get(t, seq![seg] + q) == match step(t, seg) {
            Some(c) => tree_get(c, q),
            None => None,
        },
        tree_get(t, seq![seg]) == step(t, seg),
{
    let full = seq![seg] + q;
    assert(full[0] == seg);
    assert(full.drop_first() =~= q);
    assert(seq![seg].drop_first() =~= seq![]);
    if let Some(c) = step(t, seg) {
        assert(tree_get(c, seq![]) == Some(c));
    }
}

pub proof fn lemma_get_child(t: IrTree, seg: SegmentView, c: IrTree, q: Seq<SegmentView>)
    requires
        step(t, seg) == Some(c),
    ensures
        tree_get(t, seq![seg] + q) == tree_get(c, q),
{
    lemma_get_cons(t, seg, q);
}

/// The child of `t` that an insertion along `p` descends into, before the
/// insertion: the existing child, or a fresh container where there is none.
pub open spec fn child_for(t: IrTree, p: Seq<SegmentView>) -> IrTree
    recommends
        p.len() > 1,
{
    match p[0] {
        SegmentView::Field(name) => match t {
            IrTree::Object(m) => match key_pos(m, name) {
                Some(i) => m[i].1,
                None => container_for(p[1]),
            },
            _ => IrTree::Hole,
        },
        SegmentView::Index(i) => match t {
            IrTree::Array(a) => {
                let a2 = pad(a, i + 1);
                if a2[i as int] is Hole {
                    container_for(p[1])
                } else {
                    a2[i as int]
                }
            },
            _ => IrTree::Hole,
        },
    }
}

/// The nodes that `fits` speaks of are enough for the insertion to succeed.
pub proof fn lemma_insert_ok(t: IrTree, p: Seq<SegmentView>)
    requires
        p.len() > 0,
        fits(t, p),
        no_object_holes(t),
    ensures
        insert_ok(t, p),
    decreases p.len(),
{
    if p.len() > 1 {
        let rest = p.drop_first();
        let c = child_for(t, p);
        let head = seq![p[0]];
        assert(p.subrange(0, 1) =~= head);
        // Whether the child is there, and what reading below it gives.
        lemma_get_cons(t, p[0], seq![]);
        let existing = present(t, head);
        if existing {
            assert(step(t, p[0]) == Some(c)) by {
                match p[0] {
                    SegmentView::Field(name) => {},
                    SegmentView::Index(i) => {
                        let a = t->Array_0;
                        assert(pad(a, i + 1)[i as int] == a[i as int]);
                    },
                }
            }
        } else {
            assert(c == container_for(p[1])) by {
                match p[0] {
                    SegmentView::Field(name) => {
                        let m = t->Object_0;
                        if let Some(i) = key_pos(m, name) {
                            assert(head.last() is Field);
                            assert(tree_get(t, head) == Some(m[i].1));
                        }
                    },
                    SegmentView::Index(i) => {
                        let a = t->Array_0;
                        if (i as int) < a.len() {
                            assert(pad(a, i + 1)[i as int] == a[i as int]);
                        } else {
                            assert(pad(a, i + 1)[i as int] is Hole);
                        }
                    },
                }
            }
        }
        assert(fits(c, rest)) by {
            if existing {
                assert(p.subrange(0, 1) == head);
                assert(kind_of(c) == shape_at(p, 1));
                assert forall|i: int|
                    #![trigger rest.subrange(0, i)]
                    1 <= i < rest.len() && present(c, rest.subrange(0, i)) implies kind_of(
                        tree_get(c, rest.subrange(0, i))->0,
                    ) == shape_at(rest, i) by {
                    assert(p.subrange(0, i + 1) =~= head + rest.subrange(0, i));
                    lemma_get_child(t, p[0], c, rest.subrange(0, i));
                    assert(shape_at(rest, i) == shape_at(p, i + 1));
                }
            } else {
                assert forall|i: int|
                    #![trigger rest.subrange(0, i)]
                    1 <= i < rest.len() && present(c, rest.subrange(0, i)) implies kind_of(
                        tree_get(c, rest.subrange(0, i))->0,
                    ) == shape_at(rest, i) by {
                    lemma_get_empty(p[1], rest.subrange(0, i));
                }
            }
        }
        assert(no_object_holes(c)) by {
            assert forall|q: Seq<SegmentView>|
                #![trigger tree_get(c, q)]
                q.len() > 0 && q.last() is Field && tree_get(c, q) is Some implies !(tree_get(
                    c,
                    q,
                )->0 is Hole) by {
                if existing {
                    lemma_get_child(t, p[0], c, q);
                    assert((head + q).last() == q.last());
                    assert(tree_get(t, head + q) == tree_get(c, q));
                } else {
                    lemma_get_empty(p[1], q);
                }
            }
        }
        lemma_insert_ok(c, rest);
        match p[0] {
            SegmentView::Field(name) => {},
            SegmentView::Index(i) => {
                assert(p[0] is Index);
            },
        }
    } else {
        match p[0] {
            SegmentView::Field(name) => {},
            SegmentView::Index(i) => {
                assert(p[0] is Index);
            },
        }
    }
}

/// What an insertion along `p` descends into: the child that `p[0]` names
/// where it is there and not a hole, else a fresh container.
pub proof fn lemma_child_for(t: IrTree, p: Seq<SegmentView>)
    requires
        p.len() > 1,
        insert_ok(t, p),
    ensures
        step(t, p[0]) matches Some(x) ==> (!(x is Hole) ==> child_for(t, p) == x),
        !(step(t, p[0]) matches Some(x) && !(x is Hole)) ==> child_for(t, p) == container_for(p[1]),
{
    match p[0] {
        SegmentView::Field(name) => {
            let m = t->Object_0;
            if let Some(i) = key_pos(m, name) {
                assert(insert_ok(m[i].1, p.drop_first()));
                assert(!(m[i].1 is Hole));
            }
        },
        SegmentView::Index(i) => {
            let a = t->Array_0;
            if (i as int) < a.len() {
                assert(pad(a, i + 1)[i as int] == a[i as int]);
            } else {
                assert(pad(a, i + 1)[i as int] is Hole);
            }
        },
    }
}

/// After an insertion along `p`, the child at `p[0]` is the leaf itself or
/// the insertion into the child it descended into; the node keeps its kind.
pub proof fn lemma_insert_step(t: IrTree, p: Seq<SegmentView>, v: LeafView)
    requires
        p.len() > 0,
        insert_ok(t, p),
    ensures
        step(tree_insert(t, p, v), p[0]) == Some(
            if p.len() == 1 {
                IrTree::Leaf(v)
            } else {
                tree_insert(child_for(t, p), p.drop_first(), v)
            },
        ),
        kind_of(tree_insert(t, p, v)) == kind_of(t),
        !(tree_insert(t, p, v) is Hole),
{
    let t2 = tree_insert(t, p, v);
    match p[0] {
        SegmentView::Field(name) => {
            let m = t->Object_0;
            lemma_key_pos_from(m, name, 0);
            let x = if p.len() == 1 {
                IrTree::Leaf(v)
            } else {
                tree_insert(child_for(t, p), p.drop_first(), v)
            };
            match key_pos(m, name) {
                Some(i) => {
                    lemma_key_pos_update(m, i, x, name);
                    assert(m.update(i, (name, x)) == m.update(i, (m[i].0, x)));
                },
                None => {
                    lemma_key_pos_push(m, (name, x), name, 0);
                },
            }
        },
        SegmentView::Index(i) => {},
    }
}

/// After an insertion along `p`, the children at other segments are as
/// before, but for the holes that pad an array up to the new index.
pub proof fn lemma_insert_step_other(t: IrTree, p: Seq<SegmentView>, v: LeafView, seg: SegmentView)
    requires
        p.len() > 0,
        insert_ok(t, p),
        seg != p[0],
    ensures
        step(tree_insert(t, p, v), seg) == step(t, seg) || (step(t, seg) is None && step(
            tree_insert(t, p, v),
            seg,
        ) == Some(IrTree::Hole) && seg is Index && p[0] is Index && seg->Index_0 < p[0]->Index_0),
{
    let t2 = tree_insert(t, p, v);
    let x = if p.len() == 1 {
        IrTree::Leaf(v)
    } else {
        tree_insert(child_for(t, p), p.drop_first(), v)
    };
    match p[0] {
        SegmentView::Field(name) => {
            let m = t->Object_0;
            lemma_key_pos_from(m, name, 0);
            if let SegmentView::Field(name2) = seg {
                lemma_key_pos_from(m, name2, 0);
                match key_pos(m, name) {
                    Some(i) => {
                        lemma_key_pos_update(m, i, x, name2);
                        assert(m.update(i, (name, x)) == m.update(i, (m[i].0, x)));
                    },
                    None => {
                        lemma_key_pos_push(m, (name, x), name2, 0);
                    },
                }
            }
        },
        SegmentView::Index(i) => {
            let a = t->Array_0;
            if let SegmentView::Index(j) = seg {
                let a2 = pad(a, i + 1);
                if (j as int) < a.len() {
                    assert(a2[j as int] == a[j as int]);
                } else if (j as int) < a2.len() {
                    assert(a2[j as int] is Hole);
                }
            }
        },
    }
}

/// `a` is a prefix of `b`.
pub open spec fn is_prefix(a: Seq<SegmentView>, b: Seq<SegmentView>) -> bool {
    a.len() <= b.len() && b.subrange(0, a.len() as int) == a
}

/// After an insertion along `p`, each prefix of `p` holds a node of the
/// kind that `p` makes of it, and `p` itself holds the leaf.
pub proof fn lemma_get_on_path(t: IrTree, p: Seq<SegmentView>, v: LeafView, i: int)
    requires
        p.len() > 0,
        insert_ok(t, p),
        0 <= i <= p.len(),
    ensures
        present(tree_insert(t, p, v), p.subrange(0, i)),
        kind_of(tree_get(tree_insert(t, p, v), p.subrange(0, i))->0) == shape_at(p, i),
        i == p.len() ==> tree_get(tree_insert(t, p, v), p.subrange(0, i)) == Some(IrTree::Leaf(v)),
    decreases p.len(),
{
    let t2 = tree_insert(t, p, v);
    lemma_insert_step(t, p, v);
    if i == 0 {
        assert(p.subrange(0, 0) =~= seq![]);
        match p[0] {
            SegmentView::Field(_) => {},
            SegmentView::Index(_) => {},
        }
    } else {
        let q = p.subrange(0, i);
        assert(q =~= seq![p[0]] + p.drop_first().subrange(0, i - 1));
        if p.len() == 1 {
            lemma_get_cons(t2, p[0], seq![]);
            assert(q =~= seq![p[0]]);
        } else {
            let c = child_for(t, p);
            let rest = p.drop_first();
            lemma_get_child(t2, p[0], tree_insert(c, rest, v), rest.subrange(0, i - 1));
            if i - 1 == 0 {
                assert(rest.subrange(0, 0) =~= seq![]);
                lemma_insert_step(c, rest, v);
                match rest[0] {
                    SegmentView::Field(_) => {},
                    SegmentView::Index(_) => {},
                }
                assert(shape_at(p, 1) == shape_at(rest, 0));
            } else {
                lemma_get_on_path(c, rest, v, i - 1);
                assert(shape_at(p, i) == shape_at(rest, i - 1));
            }
        }
    }
}

/// After an insertion along `p`, nothing is found below `p`.
pub proof fn lemma_get_beyond(t: IrTree, p: Seq<SegmentView>, v: LeafView, q: Seq<SegmentView>)
    requires
        p.len() > 0,
        insert_ok(t, p),
        p.len() < q.len(),
        q.subrange(0, p.len() as int) == p,
    ensures
        tree_get(tree_insert(t, p, v), q) is None,
    decreases p.len(),
{
    let t2 = tree_insert(t, p, v);
    lemma_insert_step(t, p, v);
    assert(q[0] == p[0]) by {
        assert(q.subrange(0, p.len() as int)[0] == q[0]);
    }
    assert(q =~= seq![q[0]] + q.drop_first());
    if p.len() == 1 {
        lemma_get_cons(t2, p[0], q.drop_first());
        assert(step(IrTree::Leaf(v), q.drop_first()[0]) is None);
    } else {
        let c = child_for(t, p);
        let rest = p.drop_first();
        lemma_get_child(t2, p[0], tree_insert(c, rest, v), q.drop_first());
        assert(q.drop_first().subrange(0, rest.len() as int) =~= rest) by {
            assert forall|k: int| 0 <= k < rest.len() implies q.drop_first().subrange(0, rest.len() as int)[k] == rest[k] by {
                assert(q.subrange(0, p.len() as int)[k + 1] == p[k + 1]);
            }
        }
        lemma_get_beyond(c, rest, v, q.drop_first());
    }
}

/// The padding that an insertion along `p` leaves at `q`: `q` ends with an
/// index below one that `p` gives to the same array.
pub open spec fn padded_below(q: Seq<SegmentView>, p: Seq<SegmentView>) -> bool {
    &&& q.len() > 0
    &&& q.last() is Index
    &&& exists|ip: u32|
        q.last()->Index_0 < ip && #[trigger] is_prefix(q.drop_last().push(SegmentView::Index(ip)), p)
}

/// After an insertion along `p`, a path that neither is a prefix of `p` nor
/// extends it reads what it read before, but for the holes that pad an
/// array up to a new index.
pub proof fn lemma_get_frame(t: IrTree, p: Seq<SegmentView>, v: LeafView, q: Seq<SegmentView>)
    requires
        p.len() > 0,
        insert_ok(t, p),
        !is_prefix(q, p),
        !is_prefix(p, q),
    ensures
        tree_get(tree_insert(t, p, v), q) == tree_get(t, q) || (tree_get(t, q) is None && tree_get(
            tree_insert(t, p, v),
            q,
        ) == Some(IrTree::Hole) && padded_below(q, p)),
    decreases p.len(),
{
    let t2 = tree_insert(t, p, v);
    if q.len() == 0 {
        assert(p.subrange(0, 0) =~= q);
    }
    assert(q =~= seq![q[0]] + q.drop_first());
    if q[0] != p[0] {
        lemma_insert_step_other(t, p, v, q[0]);
        lemma_get_cons(t2, q[0], q.drop_first());
        lemma_get_cons(t, q[0], q.drop_first());
        if step(t2, q[0]) != step(t, q[0]) {
            if q.len() > 1 {
                assert(step(IrTree::Hole, q.drop_first()[0]) is None);
            } else {
                let ip = p[0]->Index_0;
                assert(q.drop_last().push(SegmentView::Index(ip)) =~= seq![p[0]]);
                assert(p.subrange(0, 1) =~= seq![p[0]]);
                assert(is_prefix(q.drop_last().push(SegmentView::Index(ip)), p));
            }
        }
    } else {
        if p.len() == 1 {
            assert(q.subrange(0, 1) =~= p);
        }
        if q.len() == 1 {
            assert(p.subrange(0, 1) =~= q);
        }
        let c = child_for(t, p);
        let rest = p.drop_first();
        let qr = q.drop_first();
        lemma_insert_step(t, p, v);
        lemma_child_for(t, p);
        lemma_get_child(t2, p[0], tree_insert(c, rest, v), qr);
        lemma_get_cons(t, q[0], qr);
        assert(!is_prefix(qr, rest)) by {
            if is_prefix(qr, rest) {
                assert(p.subrange(0, q.len() as int) =~= q) by {
                    assert forall|k: int| 0 <= k < q.len() implies p.subrange(0, q.len() as int)[k] == q[k] by {
                        if k > 0 {
                            assert(rest.subrange(0, qr.len() as int)[k - 1] == qr[k - 1]);
                        }
                    }
                }
            }
        }
        assert(!is_prefix(rest, qr)) by {
            if is_prefix(rest, qr) {
                assert(q.subrange(0, p.len() as int) =~= p) by {
                    assert forall|k: int| 0 <= k < p.len() implies q.subrange(0, p.len() as int)[k] == p[k] by {
                        if k > 0 {
                            assert(qr.subrange(0, rest.len() as int)[k - 1] == rest[k - 1]);
                        }
                    }
                }
            }
        }
        lemma_get_frame(c, rest, v, qr);
        assert(qr.last() == q.last());
        if !(step(t, p[0]) matches Some(x) && !(x is Hole)) {
            lemma_get_empty(p[1], qr);
            if step(t, p[0]) == Some(IrTree::Hole) {
                assert(step(IrTree::Hole, qr[0]) is None);
            }
        }
        if tree_get(t2, q) != tree_get(t, q) {
            assert(padded_below(qr, rest));
            let ip = choose|ip: u32|
                qr.last()->Index_0 < ip && #[trigger] is_prefix(qr.drop_last().push(SegmentView::Index(ip)), rest);
            let w = qr.drop_last().push(SegmentView::Index(ip));
            assert(q.drop_last().push(SegmentView::Index(ip)) =~= seq![q[0]] + w);
            assert(p.subrange(0, w.len() + 1 as int) =~= seq![p[0]] + rest.subrange(0, w.len() as int));
            assert(is_prefix(q.drop_last().push(SegmentView::Index(ip)), p));
        }
    }
}

// ---------------------------------------------------------------------------
// The shape registry of the analysis, against the tree.
// ---------------------------------------------------------------------------

pub proof fn lemma_lookup_push(
    reg: Seq<(Seq<SegmentView>, ShapeKind)>,
    e: (Seq<SegmentView>, ShapeKind),
    q: Seq<SegmentView>,
    j: int,
)
    requires
        0 <= j <= reg.len(),
    ensures
        shape_lookup_from(reg.push(e), q, j) == match shape_lookup_from(reg, q, j) {
            Some(s) => Some(s),
            None => if e.0 == q {
                Some(e.1)
            } else {
                None
            },
        },
    decreases reg.len() - j,
{
    let r2 = reg.push(e);
    if j < reg.len() {
        assert(r2[j] == reg[j]);
        lemma_lookup_push(reg, e, q, j + 1);
    } else {
        assert(r2[j] == e);
        assert(shape_lookup_from(r2, q, j + 1) is None);
    }
}

/// What registering the prefixes of `p` from length `i` on does, when it
/// reports no conflict: each such prefix was unregistered or had the shape
/// that `p` gives it, each is registered with that shape afterwards, and
/// nothing else changes.
pub proof fn lemma_entry_shapes(
    p: Seq<SegmentView>,
    span: crate::span::Span,
    i: int,
    reg: Seq<(Seq<SegmentView>, ShapeKind)>,
)
    requires
        0 <= i,
        entry_shapes(p, span, i, reg).0.len() == 0,
    ensures
        forall|j: int|
            #![trigger p.subrange(0, j)]
            i <= j <= p.len() ==> (shape_lookup(reg, p.subrange(0, j)) is None || shape_lookup(
                reg,
                p.subrange(0, j),
            ) == Some(shape_at(p, j))),
        forall|j: int|
            #![trigger p.subrange(0, j)]
            i <= j <= p.len() ==> shape_lookup(entry_shapes(p, span, i, reg).1, p.subrange(0, j))
                == Some(shape_at(p, j)),
        forall|q: Seq<SegmentView>|
            #![trigger shape_lookup(reg, q)]
            shape_lookup(reg, q) is Some ==> shape_lookup(entry_shapes(p, span, i, reg).1, q)
                == shape_lookup(reg, q),
        forall|q: Seq<SegmentView>|
            #![trigger shape_lookup(entry_shapes(p, span, i, reg).1, q)]
            shape_lookup(entry_shapes(p, span, i, reg).1, q) is Some ==> shape_lookup(reg, q) is Some
                || (is_prefix(q, p) && i <= q.len()),
    decreases p.len() + 1 - i,
{
    if i <= p.len() {
        let key = p.subrange(0, i);
        let k = shape_at(p, i);
        match shape_lookup(reg, key) {
            Some(old) => {
                let r = entry_shapes(p, span, i + 1, reg);
                assert(shape_conflict(old, k, span).len() == 0);
                lemma_entry_shapes(p, span, i + 1, reg);
                assert forall|q: Seq<SegmentView>|
                    #![trigger shape_lookup(r.1, q)]
                    shape_lookup(r.1, q) is Some implies shape_lookup(reg, q) is Some || (is_prefix(q, p)
                        && i <= q.len()) by {}
            },
            None => {
                let reg2 = reg.push((key, k));
                let r = entry_shapes(p, span, i + 1, reg2);
                lemma_entry_shapes(p, span, i + 1, reg2);
                assert forall|q: Seq<SegmentView>| true implies #[trigger] shape_lookup(reg2, q) == match shape_lookup(reg, q) {
                    Some(s) => Some(s),
                    None => if key == q {
                        Some(k)
                    } else {
                        None
                    },
                } by {
                    lemma_lookup_push(reg, (key, k), q, 0);
                }
                assert forall|j: int|
                    #![trigger p.subrange(0, j)]
                    i <= j <= p.len() implies (shape_lookup(reg, p.subrange(0, j)) is None || shape_lookup(
                        reg,
                        p.subrange(0, j),
                    ) == Some(shape_at(p, j))) by {
                    if j > i {
                        assert(p.subrange(0, j).len() != key.len());
                        assert(shape_lookup(reg2, p.subrange(0, j)) == shape_lookup(reg, p.subrange(0, j)) || shape_lookup(reg, p.subrange(0, j)) is None);
                    }
                }
                assert forall|j: int|
                    #![trigger p.subrange(0, j)]
                    i <= j <= p.len() implies shape_lookup(r.1, p.subrange(0, j)) == Some(shape_at(p, j)) by {
                    if j == i {
                        assert(shape_lookup(reg2, key) == Some(k));
                    }
                }
                assert forall|q: Seq<SegmentView>|
                    #![trigger shape_lookup(reg, q)]
                    shape_lookup(reg, q) is Some implies shape_lookup(r.1, q) == shape_lookup(reg, q) by {
                    assert(shape_lookup(reg2, q) == shape_lookup(reg, q));
                }
                assert forall|q: Seq<SegmentView>|
                    #![trigger shape_lookup(r.1, q)]
                    shape_lookup(r.1, q) is Some implies shape_lookup(reg, q) is Some || (is_prefix(q, p)
                        && i <= q.len()) by {
                    if shape_lookup(reg2, q) is Some && shape_lookup(reg, q) is None {
                        assert(q == key);
                        assert(p.subrange(0, q.len() as int) == q);
                    }
                }
            },
        }
    }
}

/// A node below which something is found is a container of the kind that
/// the next segment needs.
pub proof fn lemma_get_prefix(t: IrTree, pre: Seq<SegmentView>, q: Seq<SegmentView>)
    requires
        present(t, q),
        pre.len() < q.len(),
        q.subrange(0, pre.len() as int) == pre,
    ensures
        present(t, pre),
        kind_of(tree_get(t, pre)->0) == shape_at(q, pre.len() as int),
    decreases pre.len(),
{
    assert(q =~= seq![q[0]] + q.drop_first());
    lemma_get_cons(t, q[0], q.drop_first());
    if pre.len() == 0 {
        assert(pre =~= seq![]);
        match q[0] {
            SegmentView::Field(_) => {},
            SegmentView::Index(_) => {},
        }
    } else {
        assert(pre[0] == q[0]) by {
            assert(q.subrange(0, pre.len() as int)[0] == q[0]);
        }
        let c = step(t, q[0])->0;
        assert(pre =~= seq![pre[0]] + pre.drop_first());
        lemma_get_cons(t, pre[0], pre.drop_first());
        assert(q.drop_first().subrange(0, pre.drop_first().len() as int) =~= pre.drop_first()) by {
            assert forall|k: int| 0 <= k < pre.drop_first().len() implies q.drop_first().subrange(0, pre.drop_first().len() as int)[k] == pre.drop_first()[k] by {
                assert(q.subrange(0, pre.len() as int)[k + 1] == pre[k + 1]);
            }
        }
        lemma_get_prefix(c, pre.drop_first(), q.drop_first());
        assert(shape_at(q, pre.len() as int) == shape_at(q.drop_first(), pre.drop_first().len() as int));
    }
}

/// How the registry of the analysis stands against the tree: the root is an
/// object; each registered path holds a node of the registered shape; each
/// node below the root is registered; objects hold no holes.
pub open spec fn registry_matches(reg: Seq<(Seq<SegmentView>, ShapeKind)>, t: IrTree) -> bool {
    &&& t is Object
    &&& forall|q: Seq<SegmentView>|
        #![trigger shape_lookup(reg, q)]
        shape_lookup(reg, q) is Some ==> present(t, q) && kind_of(tree_get(t, q)->0) == shape_lookup(
            reg,
            q,
        )->0
    &&& forall|q: Seq<SegmentView>|
        #![trigger tree_get(t, q)]
        q.len() > 0 && present(t, q) ==> shape_lookup(reg, q) is Some
    &&& no_object_holes(t)
}

/// A path that starts with a field.
pub open spec fn rooted(p: Seq<SegmentView>) -> bool {
    p.len() > 0 && p[0] is Field
}

/// One entry: registering its path without conflict, against a tree that
/// matches the registry, means that the insertion succeeds and the tree
/// after it matches the registry after it.
pub proof fn lemma_entry_step(
    reg: Seq<(Seq<SegmentView>, ShapeKind)>,
    t: IrTree,
    p: Seq<SegmentView>,
    span: crate::span::Span,
    v: LeafView,
)
    requires
        registry_matches(reg, t),
        rooted(p),
        entry_shapes(p, span, 0, reg).0.len() == 0,
    ensures
        insert_ok(t, p),
        registry_matches(entry_shapes(p, span, 0, reg).1, tree_insert(t, p, v)),
{
    let reg2 = entry_shapes(p, span, 0, reg).1;
    lemma_entry_shapes(p, span, 0, reg);
    assert(fits(t, p)) by {
        assert forall|i: int|
            #![trigger p.subrange(0, i)]
            1 <= i < p.len() && present(t, p.subrange(0, i)) implies kind_of(tree_get(t, p.subrange(0, i))->0)
                == shape_at(p, i) by {
            assert(p.subrange(0, i).len() > 0);
            assert(shape_lookup(reg, p.subrange(0, i)) is Some);
        }
    }
    lemma_insert_ok(t, p);
    let t2 = tree_insert(t, p, v);
    lemma_insert_step(t, p, v);
    assert forall|q: Seq<SegmentView>|
        #![trigger shape_lookup(reg2, q)]
        shape_lookup(reg2, q) is Some implies present(t2, q) && kind_of(tree_get(t2, q)->0)
            == shape_lookup(reg2, q)->0 by {
        if is_prefix(q, p) {
            assert(p.subrange(0, q.len() as int) == q);
            lemma_get_on_path(t, p, v, q.len() as int);
        } else if is_prefix(p, q) {
            // q extends p: it was registered before, so the node at `p` was a container.
            assert(q.subrange(0, q.len() as int) =~= q);
            if q.len() == p.len() {
                assert(p.subrange(0, q.len() as int) =~= q);
            }
            assert(shape_lookup(reg, q) is Some);
            assert(present(t, q));
            lemma_get_prefix(t, p, q);
            assert(p.subrange(0, p.len() as int) =~= p);
            assert(shape_lookup(reg, p) is Some);
            assert(false);
        } else {
            lemma_get_frame(t, p, v, q);
            assert(shape_lookup(reg, q) is Some);
        }
    }
    assert forall|q: Seq<SegmentView>|
        #![trigger tree_get(t2, q)]
        q.len() > 0 && present(t2, q) implies shape_lookup(reg2, q) is Some by {
        if is_prefix(q, p) {
            assert(p.subrange(0, q.len() as int) == q);
        } else if is_prefix(p, q) {
            if q.len() > p.len() {
                lemma_get_beyond(t, p, v, q);
            } else {
                assert(q =~= p);
                assert(p.subrange(0, q.len() as int) == q);
            }
        } else {
            lemma_get_frame(t, p, v, q);
            assert(shape_lookup(reg, q) is Some);
        }
    }
    assert forall|q: Seq<SegmentView>|
        #![trigger tree_get(t2, q)]
        q.len() > 0 && q.last() is Field && tree_get(t2, q) is Some implies !(tree_get(t2, q)->0 is Hole) by {
        if is_prefix(q, p) {
            assert(p.subrange(0, q.len() as int) == q);
            lemma_get_on_path(t, p, v, q.len() as int);
        } else if is_prefix(p, q) {
            if q.len() > p.len() {
                lemma_get_beyond(t, p, v, q);
            } else {
                assert(q =~= p);
                assert(p.subrange(0, q.len() as int) == q);
                lemma_get_on_path(t, p, v, q.len() as int);
            }
        } else {
            lemma_get_frame(t, p, v, q);
        }
    }
    match t2 {
        IrTree::Object(_) => {},
        _ => {
            assert(kind_of(t2) == kind_of(t));
        },
    }
}

/// The shape registry after the first `k` entries.
pub open spec fn reg_upto(es: Seq<EntryView>, k: int) -> Seq<(Seq<SegmentView>, ShapeKind)>
    decreases k,
{
    if k <= 0 {
        seq![]
    } else {
        entry_shapes(es[k - 1].0, es[k - 1].1.decl_span, 0, reg_upto(es, k - 1)).1
    }
}

pub proof fn lemma_no_shape_diags(es: Seq<EntryView>, e: int)
    requires
        0 <= e <= es.len(),
        shapes_from(es, e, reg_upto(es, e)).len() == 0,
    ensures
        forall|k: int|
            e <= k < es.len() ==> (#[trigger] entry_shapes(es[k].0, es[k].1.decl_span, 0, reg_upto(es, k))).0.len()
                == 0,
    decreases es.len() - e,
{
    if e < es.len() {
        let r = entry_shapes(es[e].0, es[e].1.decl_span, 0, reg_upto(es, e));
        assert(reg_upto(es, e + 1) == r.1);
        assert(r.0.len() == 0 && shapes_from(es, e + 1, r.1).len() == 0);
        lemma_no_shape_diags(es, e + 1);
    }
}

pub proof fn lemma_lowerable_upto(es: Seq<EntryView>, k: int)
    requires
        0 <= k <= es.len(),
        forall|j: int| 0 <= j < es.len() ==> rooted(#[trigger] es[j].0),
        forall|j: int|
            0 <= j < es.len() ==> (#[trigger] entry_shapes(es[j].0, es[j].1.decl_span, 0, reg_upto(es, j))).0.len()
                == 0,
    ensures
        registry_matches(reg_upto(es, k), lower_upto(es, k)),
        lowerable_upto(es, k),
    decreases k,
{
    if k == 0 {
        let empty = lower_upto(es, 0);
        assert(empty == container_for(SegmentView::Field(seq![])));
        assert forall|q: Seq<SegmentView>|
            #![trigger tree_get(empty, q)]
            q.len() > 0 implies tree_get(empty, q) is None by {
            lemma_get_empty(SegmentView::Field(seq![]), q);
        }
    } else {
        lemma_lowerable_upto(es, k - 1);
        assert(rooted(es[k - 1].0));
        assert(entry_shapes(es[k - 1].0, es[k - 1].1.decl_span, 0, reg_upto(es, k - 1)).0.len() == 0);
        lemma_entry_step(
            reg_upto(es, k - 1),
            lower_upto(es, k - 1),
            es[k - 1].0,
            es[k - 1].1.decl_span,
            leaf_of(es[k - 1].1.value),
        );
    }
}

/// A table whose paths all start with a field, and whose analysis finds no
/// shape conflict, can be lowered: each entry finds on its way containers
/// of the kinds its path needs.
pub proof fn lemma_lowerable(es: Seq<EntryView>)
    requires
        shape_diags(es).len() == 0,
        forall|k: int| 0 <= k < es.len() ==> rooted(#[trigger] es[k].0),
    ensures
        lowerable(es),
{
    lemma_no_shape_diags(es, 0);
    lemma_lowerable_upto(es, es.len() as int);
}

/// The value put at an entry's path stays there while later entries, at
/// other paths and without conflicts, are inserted.
proof fn lemma_reads_upto(es: Seq<EntryView>, k: int, n: int)
    requires
        0 <= k < n <= es.len(),
        forall|j: int| 0 <= j < es.len() ==> rooted(#[trigger] es[j].0),
        forall|j: int|
            0 <= j < es.len() ==> (#[trigger] entry_shapes(es[j].0, es[j].1.decl_span, 0, reg_upto(es, j))).0.len()
                == 0,
        forall|i: int, j: int| 0 <= i < j < es.len() ==> es[i].0 != es[j].0,
    ensures
        tree_get(lower_upto(es, n), es[k].0) == Some(IrTree::Leaf(leaf_of(es[k].1.value))),
    decreases n,
{
    let pk = es[k].0;
    lemma_lowerable_upto(es, n - 1);
    let t = lower_upto(es, n - 1);
    let reg = reg_upto(es, n - 1);
    let p = es[n - 1].0;
    let v = leaf_of(es[n - 1].1.value);
    assert(rooted(p));
    assert(entry_shapes(p, es[n - 1].1.decl_span, 0, reg).0.len() == 0);
    lemma_entry_step(reg, t, p, es[n - 1].1.decl_span, v);
    assert(lower_upto(es, n) == tree_insert(t, p, v));
    if k == n - 1 {
        lemma_get_on_path(t, p, v, p.len() as int);
        assert(p.subrange(0, p.len() as int) =~= p);
    } else {
        lemma_reads_upto(es, k, n - 1);
        assert(pk != p);
        lemma_entry_shapes(p, es[n - 1].1.decl_span, 0, reg);
        assert(pk.len() > 0);
        assert(present(t, pk));
        assert(shape_lookup(reg, pk) is Some);
        if is_prefix(pk, p) {
            if pk.len() == p.len() {
                assert(pk =~= p);
            }
            assert(p.subrange(0, pk.len() as int) == pk);
            assert(shape_at(p, pk.len() as int) != ShapeKind::Leaf);
        } else if is_prefix(p, pk) {
            if pk.len() == p.len() {
                assert(pk.subrange(0, pk.len() as int) =~= pk);
                assert(pk =~= p);
            }
            lemma_get_prefix(t, p, pk);
            assert(p.subrange(0, p.len() as int) =~= p);
            assert(shape_lookup(reg, p) is Some);
        } else {
            lemma_get_frame(t, p, v, pk);
        }
    }
}

/// Reading the lowered tree at the path of any entry gives that entry's
/// value, when the paths start with a field, are all different, and the
/// analysis finds no shape conflict among them.
pub proof fn lemma_lower_reads(es: Seq<EntryView>, k: int)
    requires
        0 <= k < es.len(),
        shape_diags(es).len() == 0,
        forall|j: int| 0 <= j < es.len() ==> rooted(#[trigger] es[j].0),
        forall|i: int, j: int| 0 <= i < j < es.len() ==> es[i].0 != es[j].0,
    ensures
        tree_get(lower_tree(es), es[k].0) == Some(IrTree::Leaf(leaf_of(es[k].1.value))),
{
    lemma_no_shape_diags(es, 0);
    lemma_reads_upto(es, k, es.len() as int);
}

/// Read after write: after putting a leaf at `p`, reading `p` gives it.
pub proof fn lemma_insert_then_get(t: IrTree, p: Seq<SegmentView>, v: LeafView)
    requires
        p.len() > 0,
        insert_ok(t, p),
    ensures
        tree_get(tree_insert(t, p, v), p) == Some(IrTree::Leaf(v)),
{
    lemma_get_on_path(t, p, v, p.len() as int);
    assert(p.subrange(0, p.len() as int) =~= p);
}

// ---------------------------------------------------------------------------
// The paths that reach the table.
// ---------------------------------------------------------------------------

/// A path read from a `@theme` comment starts with a field.
pub proof fn lemma_parsed_path_rooted(t: Seq<char>)
    ensures
        parse_path(t) matches PathParse::Parsed(p) ==> rooted(p),
{
    if parse_path(t) is Parsed {
        assert(path_from(t, 0) is Parsed);
    }
}

/// Every declaration read from position `p` on has a path that starts with
/// a field.
pub proof fn lemma_decls_rooted(b: Seq<u8>, ts: Seq<TokenView>, p: int)
    requires
        0 <= p <= ts.len(),
    ensures
        forall|k: int|
            0 <= k < decls_from(b, ts, p).decls.len() ==> rooted(
                (#[trigger] decls_from(b, ts, p).decls[k]).path,
            ),
    decreases ts.len() - p,
{
    if p < 0 || at_end(ts, p) {
    } else if is_theme_at(ts, p) {
        let d = theme_decl_at(b, ts, p);
        if !d.fault {
            lemma_theme_decl_advances(b, ts, p);
            lemma_token_runs(ts, d.pos);
            if d.pos < ts.len() {
                lemma_token_runs(ts, d.pos + 1);
            }
            let next = if d.value is Some {
                d.pos
            } else {
                resync(ts, d.pos)
            };
            lemma_decls_rooted(b, ts, next);
            if let Some(decl) = d.value {
                reveal(theme_decl_at);
                let text = ts[p].kind->ThemeComment_0;
                lemma_parsed_path_rooted(text);
                assert(parse_path(text) matches PathParse::Parsed(pp) && pp == decl.path);
                let all = decls_from(b, ts, p).decls;
                let rest = decls_from(b, ts, next).decls;
                assert(all == seq![decl] + rest);
                assert forall|k: int| 0 <= k < all.len() implies rooted(#[trigger] all[k].path) by {
                    if k > 0 {
                        assert(all[k] == rest[k - 1]);
                    }
                }
            }
        }
    } else {
        lemma_token_runs(ts, p + 1);
        lemma_decls_rooted(b, ts, resync(ts, p));
    }
}

/// The table's paths are paths of declarations, each once.
pub proof fn lemma_table_paths(ds: Seq<DeclView>, n: int)
    requires
        0 <= n <= ds.len(),
        forall|k: int| 0 <= k < ds.len() ==> rooted(#[trigger] ds[k].path),
    ensures
        forall|k: int| 0 <= k < table_upto(ds, n).len() ==> rooted(#[trigger] table_upto(ds, n)[k].0),
        forall|i: int, j: int|
            0 <= i < j < table_upto(ds, n).len() ==> table_upto(ds, n)[i].0 != table_upto(ds, n)[j].0,
    decreases n,
{
    crate::sema::lemma_table_distinct(ds, n);
    if n > 0 {
        lemma_table_paths(ds, n - 1);
        let t = table_upto(ds, n - 1);
        crate::sema::lemma_find_entry_from(t, ds[n - 1].path, 0);
        assert(rooted(ds[n - 1].path));
    }
}

/// Every diagnostic of the shape check is an error.
pub proof fn lemma_entry_shapes_errors(
    p: Seq<SegmentView>,
    span: crate::span::Span,
    i: int,
    reg: Seq<(Seq<SegmentView>, ShapeKind)>,
)
    ensures
        forall|k: int|
            0 <= k < entry_shapes(p, span, i, reg).0.len() ==> (#[trigger] entry_shapes(p, span, i, reg).0[k]).severity
                == crate::diagnostics::Severity::Error,
    decreases p.len() + 1 - i,
{
    if 0 <= i <= p.len() {
        let key = p.subrange(0, i);
        let k = shape_at(p, i);
        match shape_lookup(reg, key) {
            Some(old) => {
                lemma_entry_shapes_errors(p, span, i + 1, reg);
                let r = entry_shapes(p, span, i + 1, reg);
                let c = shape_conflict(old, k, span);
                assert forall|j: int| 0 <= j < (c + r.0).len() implies (#[trigger] (c + r.0)[j]).severity
                    == crate::diagnostics::Severity::Error by {
                    if j >= c.len() {
                        assert((c + r.0)[j] == r.0[j - c.len()]);
                    }
                }
            },
            None => {
                lemma_entry_shapes_errors(p, span, i + 1, reg.push((key, k)));
            },
        }
    }
}

pub proof fn lemma_shapes_from_errors(es: Seq<EntryView>, e: int, reg: Seq<(Seq<SegmentView>, ShapeKind)>)
    ensures
        forall|k: int|
            0 <= k < shapes_from(es, e, reg).len() ==> (#[trigger] shapes_from(es, e, reg)[k]).severity
                == crate::diagnostics::Severity::Error,
    decreases es.len() - e,
{
    if 0 <= e < es.len() {
        let r = entry_shapes(es[e].0, es[e].1.decl_span, 0, reg);
        lemma_entry_shapes_errors(es[e].0, es[e].1.decl_span, 0, reg);
        lemma_shapes_from_errors(es, e + 1, r.1);
        let rest = shapes_from(es, e + 1, r.1);
        assert forall|j: int| 0 <= j < (r.0 + rest).len() implies (#[trigger] (r.0 + rest)[j]).severity
            == crate::diagnostics::Severity::Error by {
            if j >= r.0.len() {
                assert((r.0 + rest)[j] == rest[j - r.0.len()]);
            }
        }
    }
}

} // verus!
