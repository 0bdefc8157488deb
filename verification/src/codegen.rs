//! Rendering a theme tree as a TypeScript or JavaScript module, and as a
//! declaration file.
//!
//! `generate_node` and `generate_type_node` write every key in double
//! quotes. The modules are run through a formatter (oxfmt, given the file
//! as TypeScript, with its default `quoteProps: "as-needed"`), which takes
//! the quotes off keys that are identifier names and keeps them on numeric
//! keys, whose quotes are significant in TypeScript. `generate_ts`,
//! `generate_js` and `generate_dts` write keys the way that formatter
//! leaves them, so that a module reads the same before and after it: keys
//! that are ASCII identifier names bare, every other key quoted. This rule
//! is narrower than the formatter's in one place: an identifier name with
//! a non-ASCII letter keeps its quotes here. Whitespace is left to the
//! formatter.

use vstd::prelude::*;
use crate::ir::{IrNode, IrValue, IrTree, LeafView, tree_of, lemma_tree_of_object, lemma_tree_of_array};
use crate::text::{push_char, chars_of, string_of};

verus! {

pub open spec fn is_ident_start(c: char) -> bool {
    ('a' <= c && c <= 'z') || ('A' <= c && c <= 'Z') || c == '_' || c == '$'
}

pub open spec fn is_ident_char(c: char) -> bool {
    is_ident_start(c) || ('0' <= c && c <= '9')
}

/// Whether `k` is an ASCII identifier name: a letter, `_` or `$`, then
/// letters, digits, `_` and `$`.
pub open spec fn is_plain_key(k: Seq<char>) -> bool {
    &&& k.len() > 0
    &&& is_ident_start(k[0])
    &&& forall|i: int| 1 <= i < k.len() ==> is_ident_char(#[trigger] k[i])
}

/// How key `k` is written: in double quotes, or, with `bare`, without them
/// when it is an ASCII identifier name.
pub open spec fn key_text(k: Seq<char>, bare: bool) -> Seq<char> {
    if bare && is_plain_key(k) {
        k
    } else {
        seq!['"'] + k + seq!['"']
    }
}

/// How a leaf value is written.
pub open spec fn leaf_text(v: LeafView) -> Seq<char> {
    match v {
        LeafView::CssVarRef(css) => seq!['"'] + "var("@ + css + ")\""@,
        LeafView::Raw(raw) => if raw == "undefined"@ {
            "undefined"@
        } else {
            seq!['"'] + raw + seq!['"']
        },
    }
}

/// The parts joined by commas.
pub open spec fn join(parts: Seq<Seq<char>>) -> Seq<char>
    decreases parts.len(),
{
    if parts.len() == 0 {
        seq![]
    } else if parts.len() == 1 {
        parts[0]
    } else {
        join(parts.drop_last()) + seq![','] + parts.last()
    }
}

/// The text of `t`: its values, or with `types` its type (each leaf a
/// `string`); a hole is `undefined` either way.
pub open spec fn render(t: IrTree, types: bool, bare: bool) -> Seq<char>
    decreases t,
{
    match t {
        IrTree::Object(m) => seq!['{'] + join(member_texts(m, types, bare)) + seq!['}'],
        IrTree::Array(a) => seq!['['] + join(elem_texts(a, types, bare)) + seq![']'],
        IrTree::Leaf(v) => if types {
            "string"@
        } else {
            leaf_text(v)
        },
        IrTree::Hole => "undefined"@,
    }
}

/// Each member of an object as `key: value`.
pub open spec fn member_texts(m: Seq<(Seq<char>, IrTree)>, types: bool, bare: bool) -> Seq<Seq<char>>
    decreases m,
{
    Seq::new(
        m.len(),
        |i: int|
            if 0 <= i < m.len() {
                proof {
                    assert(decreases_to!(m => m[i]));
                }
                key_text(m[i].0, bare) + ": "@ + render(m[i].1, types, bare)
            } else {
                seq![]
            },
    )
}

/// Each element of an array.
pub open spec fn elem_texts(a: Seq<IrTree>, types: bool, bare: bool) -> Seq<Seq<char>>
    decreases a,
{
    Seq::new(
        a.len(),
        |i: int|
            if 0 <= i < a.len() {
                render(a[i], types, bare)
            } else {
                seq![]
            },
    )
}

pub open spec fn ts_text(t: IrTree) -> Seq<char> {
    "export const theme = "@ + render(t, false, true) + " as const;\n"@
}

pub open spec fn js_text(t: IrTree) -> Seq<char> {
    "export const theme = "@ + render(t, false, true) + ";\n"@
}

pub open spec fn dts_text(t: IrTree) -> Seq<char> {
    "export declare const theme: "@ + render(t, true, true) + ";\n"@
}

fn is_ident_start_char(c: char) -> (r: bool)
    ensures
        r == is_ident_start(c),
{
    ('a' <= c && c <= 'z') || ('A' <= c && c <= 'Z') || c == '_' || c == '$'
}

fn plain_key(k: &String) -> (r: bool)
    ensures
        r == is_plain_key(k@),
{
    let cs = chars_of(k.as_str());
    if cs.len() == 0 {
        return false;
    }
    if !is_ident_start_char(cs[0]) {
        return false;
    }
    let mut i: usize = 1;
    while i < cs.len()
        invariant
            cs@ == k@,
            1 <= i <= cs@.len(),
            forall|j: int| 1 <= j < i ==> is_ident_char(#[trigger] cs@[j]),
        decreases cs@.len() - i,
    {
        let c = cs[i];
        if !(is_ident_start_char(c) || ('0' <= c && c <= '9')) {
            return false;
        }
        i = i + 1;
    }
    true
}

fn push_key(k: &String, bare: bool, out: &mut String)
    ensures
        final(out)@ == old(out)@ + key_text(k@, bare),
{
    if bare && plain_key(k) {
        out.append(k.as_str());
    } else {
        push_char(out, '"');
        out.append(k.as_str());
        push_char(out, '"');
    }
    assert(final(out)@ =~= old(out)@ + key_text(k@, bare));
}

fn push_leaf(v: &IrValue, out: &mut String)
    ensures
        final(out)@ == old(out)@ + leaf_text(v@),
{
    match v {
        IrValue::CssVarRef(css) => {
            push_char(out, '"');
            out.append("var(");
            out.append(css.as_str());
            out.append(")\"");
        },
        IrValue::Raw(raw) => {
            let undefined = string_of("undefined");
            if *raw == undefined {
                out.append("undefined");
            } else {
                push_char(out, '"');
                out.append(raw.as_str());
                push_char(out, '"');
            }
        },
    }
    assert(final(out)@ =~= old(out)@ + leaf_text(v@));
}

proof fn lemma_join_step(parts: Seq<Seq<char>>, i: int)
    requires
        0 <= i < parts.len(),
    ensures
        join(parts.take(i + 1)) == join(parts.take(i)) + (if i > 0 {
            seq![',']
        } else {
            seq![]
        }) + parts[i],
{
    let p = parts.take(i + 1);
    assert(p.drop_last() =~= parts.take(i));
    assert(p.last() == parts[i]);
    if i == 0 {
        assert(parts.take(0) =~= seq![]);
        assert(join(parts.take(0)) =~= seq![]);
        assert(join(p) == p[0]);
        assert(join(p) =~= join(parts.take(i)) + seq![] + parts[i]);
    }
}

/// Appends the text of `node` (its type with `types`) to `out`.
#[verifier::rlimit(40)]
fn write_node(node: &IrNode, types: bool, bare: bool, out: &mut String)
    ensures
        final(out)@ == old(out)@ + render(tree_of(*node), types, bare),
    decreases node,
{
    match node {
        IrNode::Object(map) => {
            proof {
                lemma_tree_of_object(*map);
            }
            let ghost t = tree_of(*node);
            let ghost parts = member_texts(t->Object_0, types, bare);
            let ghost base = old(out)@ + seq!['{'];
            push_char(out, '{');
            let mut i: usize = 0;
            while i < map.len()
                invariant
                    t == tree_of(*node),
                    *node == IrNode::Object(*map),
                    parts == member_texts(t->Object_0, types, bare),
                    t->Object_0.len() == map@.len(),
                    forall|j: int|
                        0 <= j < map@.len() ==> #[trigger] t->Object_0[j] == (map@[j].0@, tree_of(map@[j].1)),
                    i <= map@.len(),
                    out@ == base + join(parts.take(i as int)) + (if 0 < i < map@.len() {
                        seq![',']
                    } else {
                        seq![]
                    }),
                decreases map@.len() - i,
            {
                let ghost before = out@;
                let (k, v) = &map[i];
                proof {
                    assert(decreases_to!(*node => *map));
                    assert(decreases_to!(*map => map@));
                    assert(decreases_to!(map@ => map@[i as int]));
                    lemma_join_step(parts, i as int);
                }
                push_key(k, bare, out);
                out.append(": ");
                write_node(v, types, bare, out);
                proof {
                    assert(parts[i as int] == key_text(k@, bare) + ": "@ + render(tree_of(*v), types, bare));
                    assert(out@ =~= before + parts[i as int]);
                    assert(before =~= base + join(parts.take(i as int)) + (if i > 0 {
                        seq![',']
                    } else {
                        seq![]
                    }));
                    assert(out@ =~= base + join(parts.take(i + 1)));
                }
                if i < map.len() - 1 {
                    push_char(out, ',');
                }
                i = i + 1;
                assert(out@ =~= base + join(parts.take(i as int)) + (if 0 < i < map@.len() {
                    seq![',']
                } else {
                    seq![]
                }));
            }
            push_char(out, '}');
            assert(parts.take(map@.len() as int) =~= parts);
            assert(final(out)@ =~= old(out)@ + render(t, types, bare));
        },
        IrNode::Array(arr) => {
            proof {
                lemma_tree_of_array(*arr);
            }
            let ghost t = tree_of(*node);
            let ghost parts = elem_texts(t->Array_0, types, bare);
            let ghost base = old(out)@ + seq!['['];
            push_char(out, '[');
            let mut i: usize = 0;
            while i < arr.len()
                invariant
                    t == tree_of(*node),
                    *node == IrNode::Array(*arr),
                    parts == elem_texts(t->Array_0, types, bare),
                    t->Array_0.len() == arr@.len(),
                    forall|j: int| 0 <= j < arr@.len() ==> #[trigger] t->Array_0[j] == tree_of(arr@[j]),
                    i <= arr@.len(),
                    out@ == base + join(parts.take(i as int)) + (if 0 < i < arr@.len() {
                        seq![',']
                    } else {
                        seq![]
                    }),
                decreases arr@.len() - i,
            {
                let v = &arr[i];
                proof {
                    assert(decreases_to!(*node => *arr));
                    assert(decreases_to!(*arr => arr@));
                    lemma_join_step(parts, i as int);
                }
                write_node(v, types, bare, out);
                if i < arr.len() - 1 {
                    push_char(out, ',');
                }
                proof {
                    assert(parts[i as int] == render(tree_of(*v), types, bare));
                }
                i = i + 1;
                assert(out@ =~= base + join(parts.take(i as int)) + (if 0 < i < arr@.len() {
                    seq![',']
                } else {
                    seq![]
                }));
            }
            push_char(out, ']');
            assert(parts.take(arr@.len() as int) =~= parts);
            assert(final(out)@ =~= old(out)@ + render(t, types, bare));
        },
        IrNode::Leaf(val) => {
            if types {
                out.append("string");
            } else {
                push_leaf(val, out);
            }
        },
        IrNode::Hole => {
            out.append("undefined");
        },
    }
}

/// Appends the text of `node` to `out`, every key in double quotes: each
/// leaf as its quoted value (a CSS variable as `"var(..)"`, the raw value
/// `undefined` bare), each hole as `undefined`.
pub fn generate_node(node: &IrNode, out: &mut String)
    ensures
        final(out)@ == old(out)@ + render(tree_of(*node), false, false),
{
    write_node(node, false, false, out);
}

/// Appends the type of `node` to `out`, every key in double quotes: each
/// leaf a `string`, each hole `undefined`.
pub fn generate_type_node(node: &IrNode, out: &mut String)
    ensures
        final(out)@ == old(out)@ + render(tree_of(*node), true, false),
{
    write_node(node, true, false, out);
}

/// The TypeScript module for `ir`: `export const theme = <value> as const;`.
pub fn generate_ts(ir: &IrNode) -> (r: String)
    ensures
        r@ == ts_text(tree_of(*ir)),
{
    let mut out = string_of("export const theme = ");
    write_node(ir, false, true, &mut out);
    out.append(" as const;\n");
    out
}

/// The JavaScript module for `ir`: `export const theme = <value>;`.
pub fn generate_js(ir: &IrNode) -> (r: String)
    ensures
        r@ == js_text(tree_of(*ir)),
{
    let mut out = string_of("export const theme = ");
    write_node(ir, false, true, &mut out);
    out.append(";\n");
    out
}

/// The declaration file for `ir`: `export declare const theme: <type>;`,
/// where each leaf is a `string`.
pub fn generate_dts(ir: &IrNode) -> (r: String)
    ensures
        r@ == dts_text(tree_of(*ir)),
{
    let mut out = string_of("export declare const theme: ");
    write_node(ir, true, true, &mut out);
    out.append(";\n");
    out
}

} // verus!
