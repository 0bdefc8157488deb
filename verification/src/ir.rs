//! The theme tree: the symbol table lowered to nested objects and arrays,
//! and the passes that fill array holes and order object keys.

use vstd::prelude::*;
use crate::ast::{PathSegment, SegmentView, Value, ValueView, path_view};
use crate::sema::{SymbolTable, EntryView};
use crate::text::{string_of, concat2, concat3, push_decimal, nat_decimal};

verus! {

#[derive(Debug, Clone, PartialEq, Eq)]
pub enum IrValue {
    /// Renders as `"var(--foo)"`.
    CssVarRef(String),
    Raw(String),
}

/// A node of the theme tree.
#[derive(Debug, PartialEq, Eq)]
pub enum IrNode {
    /// Members in insertion order. They are held in a `Vec` of pairs, not
    /// an `IndexMap`: Verus refuses to declare an `IndexMap` whose values are
    /// nodes (a node would hold its own type inside an outside type's
    /// generic parameter), and with the map hidden in an opaque struct the
    /// recursive spec functions over the tree could not prove that they end,
    /// as nothing would show a member smaller than its node.
    Object(Vec<(String, IrNode)>),
    Array(Vec<IrNode>),
    Leaf(IrValue),
    Hole,
}

pub enum LeafView {
    CssVarRef(Seq<char>),
    Raw(Seq<char>),
}

/// A theme tree as plain values.
pub enum IrTree {
    Object(Seq<(Seq<char>, IrTree)>),
    Array(Seq<IrTree>),
    Leaf(LeafView),
    Hole,
}

impl View for IrValue {
    type V = LeafView;

    open spec fn view(&self) -> LeafView {
        match self {
            IrValue::CssVarRef(s) => LeafView::CssVarRef(s@),
            IrValue::Raw(s) => LeafView::Raw(s@),
        }
    }
}

/// The tree that a node stands for.
pub open spec fn tree_of(n: IrNode) -> IrTree
    decreases n,
{
    match n {
        IrNode::Object(m) => IrTree::Object(
            Seq::new(
                m@.len(),
                |i: int|
                    if 0 <= i < m@.len() {
                        proof {
                            assert(decreases_to!(m => m@));
                            assert(decreases_to!(m@ => m@[i]));
                        }
                        (m@[i].0@, tree_of(m@[i].1))
                    } else {
                        (seq![], IrTree::Hole)
                    },
            ),
        ),
        IrNode::Array(a) => IrTree::Array(
            Seq::new(
                a@.len(),
                |i: int|
                    if 0 <= i < a@.len() {
                        proof {
                            assert(decreases_to!(a => a@));
                        }
                        tree_of(a@[i])
                    } else {
                        IrTree::Hole
                    },
            ),
        ),
        IrNode::Leaf(v) => IrTree::Leaf(v@),
        IrNode::Hole => IrTree::Hole,
    }
}


pub proof fn lemma_tree_of_object(m: Vec<(String, IrNode)>)
    ensures
        tree_of(IrNode::Object(m)) matches IrTree::Object(c) && c.len() == m@.len() && forall|i: int|
            0 <= i < m@.len() ==> #[trigger] c[i] == (m@[i].0@, tree_of(m@[i].1)),
{
}

pub proof fn lemma_tree_of_array(a: Vec<IrNode>)
    ensures
        tree_of(IrNode::Array(a)) matches IrTree::Array(c) && c.len() == a@.len() && forall|i: int|
            0 <= i < a@.len() ==> #[trigger] c[i] == tree_of(a@[i]),
{
}

// ---------------------------------------------------------------------------
// Lowering the table to a tree.
// ---------------------------------------------------------------------------

pub open spec fn leaf_of(v: ValueView) -> LeafView {
    match v {
        ValueView::VarRef { css_var, .. } => LeafView::CssVarRef(css_var),
        ValueView::Raw { text, .. } => LeafView::Raw(text),
    }
}

/// The empty container that a path continuing with `seg` needs.
pub open spec fn container_for(seg: SegmentView) -> IrTree {
    match seg {
        SegmentView::Field(_) => IrTree::Object(seq![]),
        SegmentView::Index(_) => IrTree::Array(seq![]),
    }
}

/// The position of key `k` among the children `m`, looking from `j` on.
pub open spec fn key_pos_from(m: Seq<(Seq<char>, IrTree)>, k: Seq<char>, j: int) -> Option<int>
    decreases m.len() - j,
{
    if j < 0 || j >= m.len() {
        None
    } else if m[j].0 == k {
        Some(j)
    } else {
        key_pos_from(m, k, j + 1)
    }
}

pub open spec fn key_pos(m: Seq<(Seq<char>, IrTree)>, k: Seq<char>) -> Option<int> {
    key_pos_from(m, k, 0)
}

/// `a` padded with holes up to length `n`.
pub open spec fn pad(a: Seq<IrTree>, n: int) -> Seq<IrTree> {
    if a.len() < n {
        a + Seq::new((n - a.len()) as nat, |i: int| IrTree::Hole)
    } else {
        a
    }
}

/// Whether inserting at `path` into `t` finds, before the last segment, an
/// object wherever a field follows and an array wherever an index follows.
pub open spec fn insert_ok(t: IrTree, path: Seq<SegmentView>) -> bool
    decreases path.len(),
{
    if path.len() == 0 {
        false
    } else {
        let rest = path.drop_first();
        match path[0] {
            SegmentView::Field(name) => match t {
                IrTree::Object(m) => path.len() == 1 || match key_pos(m, name) {
                    Some(i) => insert_ok(m[i].1, rest),
                    None => insert_ok(container_for(rest[0]), rest),
                },
                _ => false,
            },
            SegmentView::Index(i) => match t {
                IrTree::Array(a) => path.len() == 1 || {
                    let a2 = pad(a, i + 1);
                    let child = if a2[i as int] is Hole {
                        container_for(rest[0])
                    } else {
                        a2[i as int]
                    };
                    insert_ok(child, rest)
                },
                _ => false,
            },
        }
    }
}

/// `t` with the leaf `v` put at `path`, creating the containers on the way:
/// an object for a field, an array for an index, holes to pad arrays.
pub open spec fn tree_insert(t: IrTree, path: Seq<SegmentView>, v: LeafView) -> IrTree
    decreases path.len(),
{
    if path.len() == 0 {
        t
    } else {
        let rest = path.drop_first();
        match path[0] {
            SegmentView::Field(name) => match t {
                IrTree::Object(m) => {
                    if path.len() == 1 {
                        IrTree::Object(
                            match key_pos(m, name) {
                                Some(i) => m.update(i, (name, IrTree::Leaf(v))),
                                None => m.push((name, IrTree::Leaf(v))),
                            },
                        )
                    } else {
                        match key_pos(m, name) {
                            Some(i) => IrTree::Object(
                                m.update(i, (name, tree_insert(m[i].1, rest, v))),
                            ),
                            None => IrTree::Object(
                                m.push((name, tree_insert(container_for(rest[0]), rest, v))),
                            ),
                        }
                    }
                },
                _ => t,
            },
            SegmentView::Index(i) => match t {
                IrTree::Array(a) => {
                    let a2 = pad(a, i + 1);
                    if path.len() == 1 {
                        IrTree::Array(a2.update(i as int, IrTree::Leaf(v)))
                    } else {
                        let child = if a2[i as int] is Hole {
                            container_for(rest[0])
                        } else {
                            a2[i as int]
                        };
                        IrTree::Array(a2.update(i as int, tree_insert(child, rest, v)))
                    }
                },
                _ => t,
            },
        }
    }
}

/// The tree after inserting the first `k` entries into an empty object.
pub open spec fn lower_upto(es: Seq<EntryView>, k: int) -> IrTree
    decreases k,
{
    if k <= 0 {
        IrTree::Object(seq![])
    } else {
        tree_insert(lower_upto(es, k - 1), es[k - 1].0, leaf_of(es[k - 1].1.value))
    }
}

/// The tree of a symbol table.
pub open spec fn lower_tree(es: Seq<EntryView>) -> IrTree {
    lower_upto(es, es.len() as int)
}

/// Whether each of the first `k` entries can be inserted in turn.
pub open spec fn lowerable_upto(es: Seq<EntryView>, k: int) -> bool
    decreases k,
{
    k <= 0 || (lowerable_upto(es, k - 1) && insert_ok(lower_upto(es, k - 1), es[k - 1].0))
}

/// Whether the entries of a table can be inserted in turn: each finds, on its
/// way, containers of the kind its path needs.
pub open spec fn lowerable(es: Seq<EntryView>) -> bool {
    lowerable_upto(es, es.len() as int)
}

// ---------------------------------------------------------------------------
// Building the tree.
// ---------------------------------------------------------------------------

impl IrNode {
    /// The children of an object node.
    pub fn as_object_mut(&mut self) -> (r: &mut Vec<(String, IrNode)>)
        requires
            *old(self) is Object,
        ensures
            *r == old(self)->Object_0,
            *final(self) == IrNode::Object(*final(r)),
    {
        match self {
            IrNode::Object(m) => m,
            _ => vstd::pervasive::unreached(),
        }
    }

    /// The elements of an array node.
    pub fn as_array_mut(&mut self) -> (r: &mut Vec<IrNode>)
        requires
            *old(self) is Array,
        ensures
            *r == old(self)->Array_0,
            *final(self) == IrNode::Array(*final(r)),
    {
        match self {
            IrNode::Array(a) => a,
            _ => vstd::pervasive::unreached(),
        }
    }
}

/// Pads `arr` with holes until it has an element at `idx`.
fn ensure_len(arr: &mut Vec<IrNode>, idx: usize)
    ensures
        final(arr)@.len() == if old(arr)@.len() <= idx { idx + 1 } else { old(arr)@.len() as int },
        forall|k: int| 0 <= k < old(arr)@.len() ==> final(arr)@[k] == old(arr)@[k],
        forall|k: int| old(arr)@.len() <= k < final(arr)@.len() ==> final(arr)@[k] == IrNode::Hole,
{
    while arr.len() <= idx
        invariant
            old(arr)@.len() <= arr@.len() <= if old(arr)@.len() <= idx { idx + 1 } else { old(arr)@.len() as int },
            forall|k: int| 0 <= k < old(arr)@.len() ==> arr@[k] == old(arr)@[k],
            forall|k: int| old(arr)@.len() <= k < arr@.len() ==> arr@[k] == IrNode::Hole,
        decreases idx + 1 - arr@.len(),
    {
        arr.push(IrNode::Hole);
    }
}

fn value_to_ir(v: &Value) -> (r: IrValue)
    ensures
        r@ == leaf_of(v@),
{
    match v {
        Value::VarRef { css_var, .. } => IrValue::CssVarRef(css_var.clone()),
        Value::Raw { text, .. } => IrValue::Raw(text.clone()),
    }
}

fn default_container(seg: &PathSegment) -> (r: IrNode)
    ensures
        tree_of(r) == container_for(seg@),
{
    match seg {
        PathSegment::Field(_) => {
            let m: Vec<(String, IrNode)> = Vec::new();
            proof {
                lemma_tree_of_object(m);
            }
            assert(tree_of(IrNode::Object(m))->Object_0 =~= seq![]);
            IrNode::Object(m)
        },
        PathSegment::Index(_) => {
            let a: Vec<IrNode> = Vec::new();
            proof {
                lemma_tree_of_array(a);
            }
            assert(tree_of(IrNode::Array(a))->Array_0 =~= seq![]);
            IrNode::Array(a)
        },
    }
}

pub proof fn lemma_key_pos_from(m: Seq<(Seq<char>, IrTree)>, k: Seq<char>, j: int)
    requires
        0 <= j,
    ensures
        match key_pos_from(m, k, j) {
            Some(i) => j <= i < m.len() && m[i].0 == k && forall|l: int|
                j <= l < i ==> (#[trigger] m[l]).0 != k,
            None => forall|l: int| j <= l < m.len() ==> (#[trigger] m[l]).0 != k,
        },
    decreases m.len() - j,
{
    if j < m.len() && m[j].0 != k {
        lemma_key_pos_from(m, k, j + 1);
    }
}

/// The position of the child with key `name`.
fn find_key(m: &Vec<(String, IrNode)>, name: &String) -> (r: Option<usize>)
    ensures
        match r {
            Some(j) => key_pos(tree_of(IrNode::Object(*m))->Object_0, name@) == Some(j as int),
            None => key_pos(tree_of(IrNode::Object(*m))->Object_0, name@) is None,
        },
{
    proof {
        lemma_tree_of_object(*m);
    }
    let ghost c = tree_of(IrNode::Object(*m))->Object_0;
    proof {
        lemma_key_pos_from(c, name@, 0);
    }
    let mut j: usize = 0;
    while j < m.len()
        invariant
            c == tree_of(IrNode::Object(*m))->Object_0,
            c.len() == m@.len(),
            forall|i: int| 0 <= i < m@.len() ==> #[trigger] c[i] == (m@[i].0@, tree_of(m@[i].1)),
            j <= m@.len(),
            key_pos_from(c, name@, j as int) == key_pos(c, name@),
        decreases m@.len() - j,
    {
        if m[j].0 == *name {
            return Some(j);
        }
        j = j + 1;
    }
    None
}

/// Puts the leaf `value` at `path` below `root`.
fn insert(root: &mut IrNode, path: &[PathSegment], value: IrValue)
    requires
        path@.len() > 0,
        insert_ok(tree_of(*old(root)), path_view(path@)),
    ensures
        tree_of(*final(root)) == tree_insert(tree_of(*old(root)), path_view(path@), value@),
    decreases path@.len(),
{
    let ghost t0 = tree_of(*root);
    let ghost pv = path_view(path@);
    let rest = &path[1..path.len()];
    assert(path_view(rest@) =~= pv.drop_first());
    match &path[0] {
        PathSegment::Field(name) => {
            proof {
                lemma_tree_of_object(root->Object_0);
            }
            let m = root.as_object_mut();
            let ghost m0 = *m;
            let found = find_key(m, name);
            proof {
                lemma_tree_of_object(*m);
                lemma_key_pos_from(tree_of(IrNode::Object(*m))->Object_0, name@, 0);
            }
            if path.len() == 1 {
                match found {
                    Some(j) => {
                        m.set(j, (name.clone(), IrNode::Leaf(value)));
                    },
                    None => {
                        m.push((name.clone(), IrNode::Leaf(value)));
                    },
                }
                proof {
                    lemma_tree_of_object(*m);
                }
                assert(tree_of(IrNode::Object(*m))->Object_0 =~= tree_insert(t0, pv, value@)->Object_0);
            } else {
                let j = match found {
                    Some(j) => j,
                    None => {
                        m.push((name.clone(), default_container(&rest[0])));
                        m.len() - 1
                    },
                };
                let ghost m1 = *m;
                proof {
                    lemma_tree_of_object(m1);
                }
                insert(&mut m[j].1, rest, value);
                proof {
                    lemma_tree_of_object(*m);
                }
                assert(tree_of(IrNode::Object(*m))->Object_0 =~= tree_insert(t0, pv, value@)->Object_0);
            }
        },
        PathSegment::Index(i) => {
            proof {
                lemma_tree_of_array(root->Array_0);
            }
            let idx = *i as usize;
            let a = root.as_array_mut();
            let ghost a0 = *a;
            ensure_len(a, idx);
            let ghost a1 = *a;
            proof {
                lemma_tree_of_array(a1);
                assert(tree_of(IrNode::Array(a1))->Array_0 =~= pad(tree_of(IrNode::Array(a0))->Array_0, idx + 1));
            }
            if path.len() == 1 {
                a.set(idx, IrNode::Leaf(value));
                proof {
                    lemma_tree_of_array(*a);
                }
                assert(tree_of(IrNode::Array(*a))->Array_0 =~= tree_insert(t0, pv, value@)->Array_0);
            } else {
                let is_hole = match a[idx] {
                    IrNode::Hole => true,
                    _ => false,
                };
                if is_hole {
                    a.set(idx, default_container(&rest[0]));
                }
                let ghost a2 = *a;
                proof {
                    lemma_tree_of_array(a2);
                }
                insert(&mut a[idx], rest, value);
                proof {
                    lemma_tree_of_array(*a);
                }
                assert(tree_of(IrNode::Array(*a))->Array_0 =~= tree_insert(t0, pv, value@)->Array_0);
            }
        },
    }
}

proof fn lemma_lowerable_prefix(es: Seq<EntryView>, k: int, n: int)
    requires
        0 <= k <= n,
        lowerable_upto(es, n),
    ensures
        lowerable_upto(es, k),
    decreases n - k,
{
    if k < n {
        lemma_lowerable_prefix(es, k, n - 1);
    }
}

/// The tree of a symbol table: each entry's value put at its path, in
/// table order, starting from an empty object.
pub fn lower(symbols: &SymbolTable) -> (r: IrNode)
    requires
        lowerable(symbols@),
    ensures
        tree_of(r) == lower_tree(symbols@),
{
    let ghost es = symbols@;
    let m: Vec<(String, IrNode)> = Vec::new();
    proof {
        lemma_tree_of_object(m);
    }
    assert(tree_of(IrNode::Object(m))->Object_0 =~= seq![]);
    let mut root = IrNode::Object(m);
    let mut k: usize = 0;
    while k < symbols.entries.len()
        invariant
            es == symbols@,
            k <= es.len(),
            es.len() == symbols.entries@.len(),
            lowerable(es),
            tree_of(root) == lower_upto(es, k as int),
        decreases es.len() - k,
    {
        proof {
            symbols.lemma_entry(k as int);
            lemma_lowerable_prefix(es, k + 1, es.len() as int);
        }
        let value = value_to_ir(&symbols.entries[k].1.value);
        insert(&mut root, symbols.entries[k].0.as_slice(), value);
        k = k + 1;
    }
    root
}

// ---------------------------------------------------------------------------
// Passes.
// ---------------------------------------------------------------------------

/// Options of the passes: whether array holes are an error, and for object
/// paths (dotted, `""` for the root) the order in which to list their keys.
#[derive(Default, Debug, Clone)]
pub struct PassConfig {
    pub strict: bool,
    pub order_table: Vec<(String, Vec<String>)>,
}

pub open spec fn strings_view(v: Seq<String>) -> Seq<Seq<char>> {
    v.map_values(|s: String| s@)
}

pub open spec fn order_table_view(t: Seq<(String, Vec<String>)>) -> Seq<(Seq<char>, Seq<Seq<char>>)> {
    t.map_values(|e: (String, Vec<String>)| (e.0@, strings_view(e.1@)))
}

impl View for PassConfig {
    type V = (bool, Seq<(Seq<char>, Seq<Seq<char>>)>);

    open spec fn view(&self) -> (bool, Seq<(Seq<char>, Seq<Seq<char>>)>) {
        (self.strict, order_table_view(self.order_table@))
    }
}

/// Whether a hole stands anywhere in `t`.
pub open spec fn has_hole(t: IrTree) -> bool
    decreases t,
{
    match t {
        IrTree::Object(m) => child_holes(m).contains(true),
        IrTree::Array(a) => elem_holes(a).contains(true),
        IrTree::Leaf(_) => false,
        IrTree::Hole => true,
    }
}

/// For each child of an object, whether a hole stands in it.
pub open spec fn child_holes(m: Seq<(Seq<char>, IrTree)>) -> Seq<bool>
    decreases m,
{
    Seq::new(
        m.len(),
        |i: int|
            if 0 <= i < m.len() {
                proof {
                    assert(decreases_to!(m => m[i]));
                }
                has_hole(m[i].1)
            } else {
                false
            },
    )
}

/// For each element of an array, whether a hole stands in it.
pub open spec fn elem_holes(a: Seq<IrTree>) -> Seq<bool>
    decreases a,
{
    Seq::new(
        a.len(),
        |i: int|
            if 0 <= i < a.len() {
                has_hole(a[i])
            } else {
                false
            },
    )
}

pub proof fn lemma_hole_in_child(t: IrTree, i: int)
    requires
        t is Object ==> 0 <= i < t->Object_0.len() && has_hole(t->Object_0[i].1),
        t is Array ==> 0 <= i < t->Array_0.len() && has_hole(t->Array_0[i]),
        t is Object || t is Array,
    ensures
        has_hole(t),
{
    if t is Object {
        assert(child_holes(t->Object_0)[i]);
    } else {
        assert(elem_holes(t->Array_0)[i]);
    }
}

pub open spec fn undefined_leaf() -> IrTree {
    IrTree::Leaf(LeafView::Raw("undefined"@))
}

/// `t` with every hole replaced by the raw value `undefined`.
pub open spec fn fill_tree(t: IrTree) -> IrTree
    decreases t,
{
    match t {
        IrTree::Object(m) => IrTree::Object(
            Seq::new(
                m.len(),
                |i: int|
                    if 0 <= i < m.len() {
                        (m[i].0, fill_tree(m[i].1))
                    } else {
                        (seq![], IrTree::Hole)
                    },
            ),
        ),
        IrTree::Array(a) => IrTree::Array(
            Seq::new(
                a.len(),
                |i: int|
                    if 0 <= i < a.len() {
                        fill_tree(a[i])
                    } else {
                        IrTree::Hole
                    },
            ),
        ),
        IrTree::Leaf(v) => IrTree::Leaf(v),
        IrTree::Hole => undefined_leaf(),
    }
}

/// After filling, no hole is left.
pub proof fn lemma_fill_no_holes(t: IrTree)
    ensures
        !has_hole(fill_tree(t)),
    decreases t,
{
    match t {
        IrTree::Object(m) => {
            let f = fill_tree(t)->Object_0;
            let flags = child_holes(f);
            assert forall|i: int| 0 <= i < f.len() implies !flags[i] by {
                assert(decreases_to!(t => m));
                lemma_fill_no_holes(m[i].1);
            }
            assert(!flags.contains(true));
        },
        IrTree::Array(a) => {
            let f = fill_tree(t)->Array_0;
            let flags = elem_holes(f);
            assert forall|i: int| 0 <= i < f.len() implies !flags[i] by {
                assert(decreases_to!(t => a));
                lemma_fill_no_holes(a[i]);
            }
            assert(!flags.contains(true));
        },
        _ => {},
    }
}

/// Filling changes only holes: a tree without holes is left as it is.
pub proof fn lemma_fill_without_holes(t: IrTree)
    requires
        !has_hole(t),
    ensures
        fill_tree(t) == t,
    decreases t,
{
    match t {
        IrTree::Object(m) => {
            let f = fill_tree(t)->Object_0;
            assert forall|i: int| 0 <= i < m.len() implies #[trigger] f[i] == m[i] by {
                assert(!child_holes(m)[i]);
                assert(decreases_to!(t => m));
                lemma_fill_without_holes(m[i].1);
            }
            assert(f =~= m);
        },
        IrTree::Array(a) => {
            let f = fill_tree(t)->Array_0;
            assert forall|i: int| 0 <= i < a.len() implies #[trigger] f[i] == a[i] by {
                assert(!elem_holes(a)[i]);
                assert(decreases_to!(t => a));
                lemma_fill_without_holes(a[i]);
            }
            assert(f =~= a);
        },
        _ => {},
    }
}

fn undefined_node() -> (r: IrNode)
    ensures
        tree_of(r) == undefined_leaf(),
{
    IrNode::Leaf(IrValue::Raw(string_of("undefined")))
}

/// Replaces each hole by the raw value `undefined`; holes are not allowed in
/// strict mode.
fn fill_or_reject_holes(node: IrNode, cfg: &PassConfig) -> (r: IrNode)
    requires
        !(cfg.strict && has_hole(tree_of(node))),
    ensures
        tree_of(r) == fill_tree(tree_of(node)),
    decreases node,
{
    let ghost t = tree_of(node);
    match node {
        IrNode::Object(m) => {
            proof {
                lemma_tree_of_object(m);
            }
            let ghost m0 = m;
            let ghost mv = m@;
            let mut out: Vec<(String, IrNode)> = Vec::new();
            for kv in it: m
                invariant
                    mv == m0@,
                    node == IrNode::Object(m0),
                    it.seq() == mv,
                    t == tree_of(IrNode::Object(m0)),
                    t->Object_0.len() == mv.len(),
                    forall|i: int|
                        0 <= i < mv.len() ==> #[trigger] t->Object_0[i] == (mv[i].0@, tree_of(mv[i].1)),
                    !(cfg.strict && has_hole(t)),
                    out@.len() == it.index(),
                    forall|i: int|
                        0 <= i < it.index() ==> (#[trigger] out@[i]).0@ == mv[i].0@ && tree_of(
                            out@[i].1,
                        ) == fill_tree(tree_of(mv[i].1)),
            {
                let ghost idx = it.index();
                assert(kv == mv[idx]);
                let (k, v) = kv;
                proof {
                    assert(t->Object_0[idx].1 == tree_of(v));
                    lemma_tree_of_object(m0);
                    assert(t is Object);
                    assert(0 <= idx < t->Object_0.len());
                    if has_hole(tree_of(v)) {
                        lemma_hole_in_child(t, idx);
                    }
                    assert(decreases_to!(node => m0));
                    assert(decreases_to!(m0 => m0@));
                    assert(decreases_to!(m0@ => m0@[idx]));
                }
                let nv = fill_or_reject_holes(v, cfg);
                out.push((k, nv));
            }
            proof {
                lemma_tree_of_object(out);
            }
            assert(tree_of(IrNode::Object(out))->Object_0 =~= fill_tree(t)->Object_0);
            IrNode::Object(out)
        },
        IrNode::Array(a) => {
            proof {
                lemma_tree_of_array(a);
            }
            let ghost a0 = a;
            let ghost av = a@;
            let mut out: Vec<IrNode> = Vec::new();
            for v in it: a
                invariant
                    av == a0@,
                    node == IrNode::Array(a0),
                    it.seq() == av,
                    t == tree_of(IrNode::Array(a0)),
                    t->Array_0.len() == av.len(),
                    forall|i: int| 0 <= i < av.len() ==> #[trigger] t->Array_0[i] == tree_of(av[i]),
                    !(cfg.strict && has_hole(t)),
                    out@.len() == it.index(),
                    forall|i: int|
                        0 <= i < it.index() ==> tree_of(#[trigger] out@[i]) == fill_tree(
                            tree_of(av[i]),
                        ),
            {
                let ghost idx = it.index();
                assert(v == av[idx]);
                proof {
                    assert(t->Array_0[idx] == tree_of(v));
                    lemma_tree_of_array(a0);
                    if has_hole(tree_of(v)) {
                        lemma_hole_in_child(t, idx);
                    }
                    assert(decreases_to!(node => a0));
                    assert(decreases_to!(a0 => a0@));
                }
                let is_hole = match v {
                    IrNode::Hole => true,
                    _ => false,
                };
                let nv = if is_hole {
                    undefined_node()
                } else {
                    fill_or_reject_holes(v, cfg)
                };
                out.push(nv);
            }
            proof {
                lemma_tree_of_array(out);
            }
            assert(tree_of(IrNode::Array(out))->Array_0 =~= fill_tree(t)->Array_0);
            IrNode::Array(out)
        },
        IrNode::Leaf(v) => IrNode::Leaf(v),
        IrNode::Hole => undefined_node(),
    }
}

// ---------------------------------------------------------------------------
// Ordering object keys.
// ---------------------------------------------------------------------------

/// Byte-wise lexicographic order, comparing from position `j` on.
pub open spec fn bytes_lt_from(a: Seq<u8>, b: Seq<u8>, j: int) -> bool
    decreases a.len() - j,
{
    if j < 0 || j >= b.len() {
        false
    } else if j >= a.len() {
        true
    } else if a[j] < b[j] {
        true
    } else if a[j] > b[j] {
        false
    } else {
        bytes_lt_from(a, b, j + 1)
    }
}

/// The order of strings: by their UTF-8 bytes.
pub open spec fn key_lt(a: Seq<char>, b: Seq<char>) -> bool {
    bytes_lt_from(vstd::utf8::encode_utf8(a), vstd::utf8::encode_utf8(b), 0)
}

/// The first position of `k` in `order`, looking from `j` on.
pub open spec fn order_pos_from(order: Seq<Seq<char>>, k: Seq<char>, j: int) -> Option<int>
    decreases order.len() - j,
{
    if j < 0 || j >= order.len() {
        None
    } else if order[j] == k {
        Some(j)
    } else {
        order_pos_from(order, k, j + 1)
    }
}

/// The key order given for the object at `path`: the first entry of the
/// table for that path, looking from `j` on.
pub open spec fn order_lookup_from(
    table: Seq<(Seq<char>, Seq<Seq<char>>)>,
    path: Seq<char>,
    j: int,
) -> Option<Seq<Seq<char>>>
    decreases table.len() - j,
{
    if j < 0 || j >= table.len() {
        None
    } else if table[j].0 == path {
        Some(table[j].1)
    } else {
        order_lookup_from(table, path, j + 1)
    }
}

pub open spec fn order_lookup(table: Seq<(Seq<char>, Seq<Seq<char>>)>, path: Seq<char>) -> Option<
    Seq<Seq<char>>,
> {
    order_lookup_from(table, path, 0)
}

/// Whether key `a` comes strictly before key `b`: with an order list, the
/// listed keys come first, by their first position, then the others; keys
/// not told apart by the list go by `key_lt`.
pub open spec fn key_before(o: Option<Seq<Seq<char>>>, a: Seq<char>, b: Seq<char>) -> bool {
    match o {
        Some(order) => match (order_pos_from(order, a, 0), order_pos_from(order, b, 0)) {
            (Some(p), Some(q)) => p < q,
            (Some(_), None) => true,
            (None, Some(_)) => false,
            (None, None) => key_lt(a, b),
        },
        None => key_lt(a, b),
    }
}

/// Where a child with key `k` goes among the ordered children `r`: before
/// the first child (from `j` on) whose key it comes before.
pub open spec fn slot_from(
    r: Seq<(Seq<char>, IrTree)>,
    k: Seq<char>,
    o: Option<Seq<Seq<char>>>,
    j: int,
) -> int
    decreases r.len() - j,
{
    if j < 0 || j >= r.len() {
        r.len() as int
    } else if key_before(o, k, r[j].0) {
        j
    } else {
        slot_from(r, k, o, j + 1)
    }
}

/// The children `m` in key order; children whose keys are not told apart
/// keep their relative order.
pub open spec fn sort_children(m: Seq<(Seq<char>, IrTree)>, o: Option<Seq<Seq<char>>>) -> Seq<
    (Seq<char>, IrTree),
>
    decreases m.len(),
{
    if m.len() == 0 {
        m
    } else {
        let r = sort_children(m.drop_last(), o);
        r.insert(slot_from(r, m.last().0, o, 0), m.last())
    }
}

/// The dotted path of the child `k` of the object at `path`.
pub open spec fn field_path(path: Seq<char>, k: Seq<char>) -> Seq<char> {
    if path.len() == 0 {
        k
    } else {
        path + "."@ + k
    }
}

/// The path of element `i` of the array at `path`.
pub open spec fn index_path(path: Seq<char>, i: nat) -> Seq<char> {
    path + "["@ + nat_decimal(i) + "]"@
}

/// `t`, standing at `path`, with the keys of every object in it ordered by
/// the order list that `table` gives for that object's path.
pub open spec fn order_tree(t: IrTree, path: Seq<char>, table: Seq<(Seq<char>, Seq<Seq<char>>)>) -> IrTree
    decreases t,
{
    match t {
        IrTree::Object(m) => IrTree::Object(
            sort_children(ordered_kids(m, path, table), order_lookup(table, path)),
        ),
        IrTree::Array(a) => IrTree::Array(ordered_elems(a, path, table)),
        IrTree::Leaf(v) => IrTree::Leaf(v),
        IrTree::Hole => IrTree::Hole,
    }
}

/// The children of the object at `path`, each ordered within, in the
/// order they had.
pub open spec fn ordered_kids(
    m: Seq<(Seq<char>, IrTree)>,
    path: Seq<char>,
    table: Seq<(Seq<char>, Seq<Seq<char>>)>,
) -> Seq<(Seq<char>, IrTree)>
    decreases m,
{
    Seq::new(
        m.len(),
        |i: int|
            if 0 <= i < m.len() {
                proof {
                    assert(decreases_to!(m => m[i]));
                }
                (m[i].0, order_tree(m[i].1, field_path(path, m[i].0), table))
            } else {
                (seq![], IrTree::Hole)
            },
    )
}

/// The elements of the array at `path`, each ordered within.
pub open spec fn ordered_elems(
    a: Seq<IrTree>,
    path: Seq<char>,
    table: Seq<(Seq<char>, Seq<Seq<char>>)>,
) -> Seq<IrTree>
    decreases a,
{
    Seq::new(
        a.len(),
        |i: int|
            if 0 <= i < a.len() {
                order_tree(a[i], index_path(path, i as nat), table)
            } else {
                IrTree::Hole
            },
    )
}

/// `tree` after the passes: holes filled, then keys ordered from the root.
pub open spec fn passes_tree(t: IrTree, cfg: (bool, Seq<(Seq<char>, Seq<Seq<char>>)>)) -> IrTree {
    order_tree(fill_tree(t), seq![], cfg.1)
}

fn bytes_less(a: &[u8], b: &[u8]) -> (r: bool)
    ensures
        r == bytes_lt_from(a@, b@, 0),
{
    let mut j: usize = 0;
    loop
        invariant
            j <= a@.len(),
            j <= b@.len(),
            bytes_lt_from(a@, b@, j as int) == bytes_lt_from(a@, b@, 0),
        decreases a@.len() - j,
    {
        if j >= b.len() {
            return false;
        }
        if j >= a.len() {
            return true;
        }
        if a[j] < b[j] {
            return true;
        }
        if a[j] > b[j] {
            return false;
        }
        j = j + 1;
    }
}

fn key_less(a: &String, b: &String) -> (r: bool)
    ensures
        r == key_lt(a@, b@),
{
    bytes_less(a.as_str().as_bytes(), b.as_str().as_bytes())
}

fn order_position(order: &Vec<String>, k: &String) -> (r: Option<usize>)
    ensures
        match r {
            Some(p) => order_pos_from(strings_view(order@), k@, 0) == Some(p as int),
            None => order_pos_from(strings_view(order@), k@, 0) is None,
        },
{
    let ghost ov = strings_view(order@);
    let mut j: usize = 0;
    while j < order.len()
        invariant
            ov == strings_view(order@),
            j <= order@.len(),
            order_pos_from(ov, k@, j as int) == order_pos_from(ov, k@, 0),
        decreases order@.len() - j,
    {
        if order[j] == *k {
            return Some(j);
        }
        j = j + 1;
    }
    None
}

pub open spec fn order_view(o: Option<&Vec<String>>) -> Option<Seq<Seq<char>>> {
    match o {
        Some(v) => Some(strings_view(v@)),
        None => None,
    }
}

fn order_for<'a>(table: &'a Vec<(String, Vec<String>)>, path: &String) -> (r: Option<&'a Vec<String>>)
    ensures
        order_view(r) == order_lookup(order_table_view(table@), path@),
{
    let ghost tv = order_table_view(table@);
    let mut j: usize = 0;
    while j < table.len()
        invariant
            tv == order_table_view(table@),
            j <= table@.len(),
            order_lookup_from(tv, path@, j as int) == order_lookup(tv, path@),
        decreases table@.len() - j,
    {
        if table[j].0 == *path {
            return Some(&table[j].1);
        }
        j = j + 1;
    }
    None
}

fn comes_before(o: Option<&Vec<String>>, a: &String, b: &String) -> (r: bool)
    ensures
        r == key_before(order_view(o), a@, b@),
{
    match o {
        Some(order) => {
            let pa = order_position(order, a);
            let pb = order_position(order, b);
            match (pa, pb) {
                (Some(p), Some(q)) => p < q,
                (Some(_), None) => true,
                (None, Some(_)) => false,
                (None, None) => key_less(a, b),
            }
        },
        None => key_less(a, b),
    }
}

/// The children `m` in key order (a stable insertion sort).
fn sort_kids(m: Vec<(String, IrNode)>, o: Option<&Vec<String>>) -> (r: Vec<(String, IrNode)>)
    ensures
        tree_of(IrNode::Object(r))->Object_0 == sort_children(
            tree_of(IrNode::Object(m))->Object_0,
            order_view(o),
        ),
{
    proof {
        lemma_tree_of_object(m);
    }
    let ghost c = tree_of(IrNode::Object(m))->Object_0;
    let ghost mv = m@;
    let ghost ov = order_view(o);
    let mut out: Vec<(String, IrNode)> = Vec::new();
    proof {
        lemma_tree_of_object(out);
        assert(c.take(0) =~= seq![]);
        assert(tree_of(IrNode::Object(out))->Object_0 =~= seq![]);
    }
    for kv in it: m
        invariant
            mv == m@,
            it.seq() == mv,
            ov == order_view(o),
            c.len() == mv.len(),
            forall|i: int| 0 <= i < mv.len() ==> #[trigger] c[i] == (mv[i].0@, tree_of(mv[i].1)),
            tree_of(IrNode::Object(out))->Object_0 == sort_children(c.take(it.index() as int), ov),
    {
        let ghost idx = it.index() as int;
        assert(kv == mv[idx]);
        proof {
            lemma_tree_of_object(out);
        }
        let ghost r = tree_of(IrNode::Object(out))->Object_0;
        let mut p: usize = 0;
        loop
            invariant_except_break
                p <= out@.len(),
                slot_from(r, kv.0@, ov, p as int) == slot_from(r, kv.0@, ov, 0),
            invariant
                r == tree_of(IrNode::Object(out))->Object_0,
                r.len() == out@.len(),
                forall|i: int| 0 <= i < out@.len() ==> #[trigger] r[i] == (out@[i].0@, tree_of(out@[i].1)),
                ov == order_view(o),
            ensures
                p as int == slot_from(r, kv.0@, ov, 0),
                p <= out@.len(),
            decreases out@.len() - p,
        {
            if p >= out.len() {
                break;
            }
            if comes_before(o, &kv.0, &out[p].0) {
                break;
            }
            p = p + 1;
        }
        let ghost e = (kv.0@, tree_of(kv.1));
        out.insert(p, kv);
        proof {
            lemma_tree_of_object(out);
            assert(c.take(idx + 1).drop_last() =~= c.take(idx));
            assert(c.take(idx + 1).last() == c[idx]);
            assert(tree_of(IrNode::Object(out))->Object_0 =~= r.insert(p as int, e));
        }
    }
    proof {
        assert(c.take(mv.len() as int) =~= c);
    }
    out
}

/// Orders the keys of every object below `node`, which stands at `path`.
fn ordering_pass(node: IrNode, cfg: &PassConfig, path: &String) -> (r: IrNode)
    requires
        !has_hole(tree_of(node)),
    ensures
        tree_of(r) == order_tree(tree_of(node), path@, cfg@.1),
    decreases node,
{
    let ghost t = tree_of(node);
    match node {
        IrNode::Object(m) => {
            proof {
                lemma_tree_of_object(m);
            }
            let ghost m0 = m;
            let ghost mv = m@;
            let ghost kids_spec = Seq::new(
                mv.len(),
                |i: int| (mv[i].0@, order_tree(tree_of(mv[i].1), field_path(path@, mv[i].0@), cfg@.1)),
            );
            let mut kids: Vec<(String, IrNode)> = Vec::new();
            for kv in it: m
                invariant
                    mv == m0@,
                    node == IrNode::Object(m0),
                    it.seq() == mv,
                    t == tree_of(IrNode::Object(m0)),
                    t->Object_0.len() == mv.len(),
                    forall|i: int|
                        0 <= i < mv.len() ==> #[trigger] t->Object_0[i] == (mv[i].0@, tree_of(mv[i].1)),
                    !has_hole(t),
                    kids@.len() == it.index(),
                    forall|i: int|
                        0 <= i < it.index() ==> (#[trigger] kids@[i]).0@ == mv[i].0@ && tree_of(
                            kids@[i].1,
                        ) == order_tree(tree_of(mv[i].1), field_path(path@, mv[i].0@), cfg@.1),
            {
                let ghost idx = it.index();
                assert(kv == mv[idx]);
                let (k, v) = kv;
                proof {
                    assert(t->Object_0[idx].1 == tree_of(v));
                    assert(!child_holes(t->Object_0)[idx]);
                    assert(decreases_to!(node => m0));
                    assert(decreases_to!(m0 => m0@));
                    assert(decreases_to!(m0@ => m0@[idx]));
                }
                let child_path = if path.as_str().is_empty() {
                    k.clone()
                } else {
                    concat3(path.as_str(), ".", k.as_str())
                };
                let nv = ordering_pass(v, cfg, &child_path);
                kids.push((k, nv));
            }
            proof {
                lemma_tree_of_object(kids);
            }
            assert(tree_of(IrNode::Object(kids))->Object_0 =~= ordered_kids(t->Object_0, path@, cfg@.1));
            let order = order_for(&cfg.order_table, path);
            let sorted = sort_kids(kids, order);
            IrNode::Object(sorted)
        },
        IrNode::Array(a) => {
            proof {
                lemma_tree_of_array(a);
            }
            let ghost a0 = a;
            let ghost av = a@;
            let mut out: Vec<IrNode> = Vec::new();
            let mut i: usize = 0;
            let n = a.len();
            for v in it: a
                invariant
                    n == av.len(),
                    av == a0@,
                    node == IrNode::Array(a0),
                    it.seq() == av,
                    t == tree_of(IrNode::Array(a0)),
                    t->Array_0.len() == av.len(),
                    forall|j: int| 0 <= j < av.len() ==> #[trigger] t->Array_0[j] == tree_of(av[j]),
                    !has_hole(t),
                    i == it.index(),
                    out@.len() == it.index(),
                    forall|j: int|
                        0 <= j < it.index() ==> tree_of(#[trigger] out@[j]) == order_tree(
                            tree_of(av[j]),
                            index_path(path@, j as nat),
                            cfg@.1,
                        ),
            {
                let ghost idx = it.index();
                assert(v == av[idx]);
                proof {
                    assert(t->Array_0[idx] == tree_of(v));
                    assert(!elem_holes(t->Array_0)[idx]);
                    assert(decreases_to!(node => a0));
                    assert(decreases_to!(a0 => a0@));
                }
                let mut child_path = concat2(path.as_str(), "[");
                push_decimal(&mut child_path, i as u64);
                let close = string_of("]");
                child_path.append(close.as_str());
                let nv = ordering_pass(v, cfg, &child_path);
                out.push(nv);
                i = i + 1;
            }
            proof {
                lemma_tree_of_array(out);
            }
            assert(tree_of(IrNode::Array(out))->Array_0 =~= ordered_elems(t->Array_0, path@, cfg@.1));
            IrNode::Array(out)
        },
        IrNode::Leaf(v) => IrNode::Leaf(v),
        IrNode::Hole => vstd::pervasive::unreached(),
    }
}

/// Runs the passes: fills array holes (holes are refused in strict mode),
/// then orders the keys of every object.
pub fn run_passes(ir: IrNode, cfg: &PassConfig) -> (r: IrNode)
    requires
        !(cfg.strict && has_hole(tree_of(ir))),
    ensures
        tree_of(r) == passes_tree(tree_of(ir), cfg@),
{
    let filled = fill_or_reject_holes(ir, cfg);
    proof {
        lemma_fill_no_holes(tree_of(ir));
    }
    let root = String::new();
    assert(root@ =~= seq![]);
    ordering_pass(filled, cfg, &root)
}

} // verus!
