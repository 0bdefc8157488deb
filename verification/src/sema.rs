//! Semantic analysis: the symbol table of a file's declarations, and the
//! checks on names, duplicate paths, path shapes and array indices.

use vstd::prelude::*;
use crate::span::Span;
use crate::diagnostics::{DiagnosticBag, DiagnosticView, error_diag, warn_diag};
use crate::ast::{
    PathSegment, SegmentView, Value, ValueView, ThemeDecl, DeclView, File, Path, path_view,
};
use crate::text::{string_of, concat2, concat3, decimal_chars, u32_to_string};

verus! {

/// What the table records for a path: its value and the span of the
/// declaration that gave it.
#[derive(Debug)]
pub struct ThemeSymbol {
    pub value: Value,
    pub decl_span: Span,
}

pub struct SymbolView {
    pub value: ValueView,
    pub decl_span: Span,
}

impl View for ThemeSymbol {
    type V = SymbolView;

    open spec fn view(&self) -> SymbolView {
        SymbolView { value: self.value@, decl_span: self.decl_span }
    }
}

pub type EntryView = (Seq<SegmentView>, SymbolView);

pub open spec fn entries_view(es: Seq<(Path, ThemeSymbol)>) -> Seq<EntryView> {
    es.map_values(|e: (Path, ThemeSymbol)| (path_view(e.0@), e.1@))
}

/// The declared paths of a file, each with its first declaration, in the
/// order in which the paths were first declared.
///
/// The entries are a `Vec` in declaration order, with no path twice (see
/// `wf`), rather than an `IndexMap` keyed by path: such a map's lookups
/// would rest on the derived `Eq` and `Hash` of `PathSegment`, which Verus
/// does not read, so nothing could be proved of what a lookup finds.
#[derive(Default, Debug)]
pub struct SymbolTable {
    pub entries: Vec<(Path, ThemeSymbol)>,
}

impl View for SymbolTable {
    type V = Seq<EntryView>;

    open spec fn view(&self) -> Seq<EntryView> {
        entries_view(self.entries@)
    }
}

// ---------------------------------------------------------------------------
// The table.
// ---------------------------------------------------------------------------

/// The index of the first entry at or after `j` whose path is `path`.
pub open spec fn find_entry_from(es: Seq<EntryView>, path: Seq<SegmentView>, j: int) -> Option<int>
    decreases es.len() - j,
{
    if j < 0 || j >= es.len() {
        None
    } else if es[j].0 == path {
        Some(j)
    } else {
        find_entry_from(es, path, j + 1)
    }
}

/// The index of the entry for `path`, if there is one.
pub open spec fn find_entry(es: Seq<EntryView>, path: Seq<SegmentView>) -> Option<int> {
    find_entry_from(es, path, 0)
}

/// The table after the first `n` declarations.
pub open spec fn table_upto(ds: Seq<DeclView>, n: int) -> Seq<EntryView>
    decreases n,
{
    if n <= 0 {
        seq![]
    } else {
        let t = table_upto(ds, n - 1);
        let d = ds[n - 1];
        if find_entry(t, d.path) is Some {
            t
        } else {
            t.push((d.path, SymbolView { value: d.value, decl_span: d.span }))
        }
    }
}

pub open spec fn table_of(ds: Seq<DeclView>) -> Seq<EntryView> {
    table_upto(ds, ds.len() as int)
}

// ---------------------------------------------------------------------------
// Per-declaration checks.
// ---------------------------------------------------------------------------

/// The CSS variable that a declaration named `name` is expected to read.
pub open spec fn expected_css_var(name: Seq<char>) -> Seq<char> {
    "--"@ + name
}

pub open spec fn var_type_text(is_sass_var: bool) -> Seq<char> {
    if is_sass_var {
        "scss variable $"@
    } else {
        "css variable --"@
    }
}

/// A warning when a declaration reads a CSS variable whose name is not its own.
pub open spec fn name_diags(d: DeclView) -> Seq<DiagnosticView> {
    match d.value {
        ValueView::VarRef { css_var, span } => if css_var != expected_css_var(d.var_name) {
            seq![
                warn_diag(
                    "TC0202"@,
                    "name mismatch: "@ + var_type_text(d.is_sass_var) + d.var_name
                        + " but css variable "@ + css_var,
                    span,
                ),
            ]
        } else {
            seq![]
        },
        _ => seq![],
    }
}

/// Two errors when the path of `d` already has an entry in `t`.
pub open spec fn dup_diags(t: Seq<EntryView>, d: DeclView) -> Seq<DiagnosticView> {
    match find_entry(t, d.path) {
        Some(i) => seq![
            error_diag("TC0201"@, "duplicate path"@, d.path_span),
            error_diag("TC0201"@, "previously declared here"@, t[i].1.decl_span),
        ],
        None => seq![],
    }
}

/// The diagnostics of the per-declaration checks on the first `n`
/// declarations.
pub open spec fn decl_diags_upto(ds: Seq<DeclView>, n: int, check_names: bool) -> Seq<
    DiagnosticView,
>
    decreases n,
{
    if n <= 0 {
        seq![]
    } else {
        decl_diags_upto(ds, n - 1, check_names) + (if check_names {
            name_diags(ds[n - 1])
        } else {
            seq![]
        }) + dup_diags(table_upto(ds, n - 1), ds[n - 1])
    }
}

// ---------------------------------------------------------------------------
// Shape conflicts.
// ---------------------------------------------------------------------------

#[derive(Clone, Copy, PartialEq, Eq, Structural)]
pub enum ShapeKind {
    Leaf,
    Object,
    Array,
}

/// What a path makes of its prefix of length `i`: a leaf at its end, an
/// object before a field, an array before an index.
pub open spec fn shape_at(path: Seq<SegmentView>, i: int) -> ShapeKind {
    if i >= path.len() {
        ShapeKind::Leaf
    } else {
        match path[i] {
            SegmentView::Field(_) => ShapeKind::Object,
            SegmentView::Index(_) => ShapeKind::Array,
        }
    }
}

/// The shape first registered for `key`, looking from position `j` of the
/// registry on.
pub open spec fn shape_lookup_from(
    reg: Seq<(Seq<SegmentView>, ShapeKind)>,
    key: Seq<SegmentView>,
    j: int,
) -> Option<ShapeKind>
    decreases reg.len() - j,
{
    if j < 0 || j >= reg.len() {
        None
    } else if reg[j].0 == key {
        Some(reg[j].1)
    } else {
        shape_lookup_from(reg, key, j + 1)
    }
}

pub open spec fn shape_lookup(reg: Seq<(Seq<SegmentView>, ShapeKind)>, key: Seq<SegmentView>) -> Option<
    ShapeKind,
> {
    shape_lookup_from(reg, key, 0)
}

/// The conflict between a registered shape and a new one, if any.
pub open spec fn shape_conflict(old: ShapeKind, new: ShapeKind, span: Span) -> Seq<DiagnosticView> {
    if (old == ShapeKind::Leaf) != (new == ShapeKind::Leaf) {
        seq![error_diag("TC0203"@, "path is used as both a leaf and a container"@, span)]
    } else if old != new {
        seq![error_diag("TC0203"@, "path mixes object and array children"@, span)]
    } else {
        seq![]
    }
}

/// The shape errors of the prefixes of `path` of length `i` and more, given
/// the shapes already registered; and the registry afterwards.
pub open spec fn entry_shapes(
    path: Seq<SegmentView>,
    span: Span,
    i: int,
    reg: Seq<(Seq<SegmentView>, ShapeKind)>,
) -> (Seq<DiagnosticView>, Seq<(Seq<SegmentView>, ShapeKind)>)
    decreases path.len() + 1 - i,
{
    if i < 0 || i > path.len() {
        (seq![], reg)
    } else {
        let key = path.subrange(0, i);
        let k = shape_at(path, i);
        match shape_lookup(reg, key) {
            Some(old) => {
                let r = entry_shapes(path, span, i + 1, reg);
                (shape_conflict(old, k, span) + r.0, r.1)
            },
            None => entry_shapes(path, span, i + 1, reg.push((key, k))),
        }
    }
}

/// The shape errors of the entries from `e` on.
pub open spec fn shapes_from(
    es: Seq<EntryView>,
    e: int,
    reg: Seq<(Seq<SegmentView>, ShapeKind)>,
) -> Seq<DiagnosticView>
    decreases es.len() - e,
{
    if e < 0 || e >= es.len() {
        seq![]
    } else {
        let r = entry_shapes(es[e].0, es[e].1.decl_span, 0, reg);
        r.0 + shapes_from(es, e + 1, r.1)
    }
}

pub open spec fn shape_diags(es: Seq<EntryView>) -> Seq<DiagnosticView> {
    shapes_from(es, 0, seq![])
}

// ---------------------------------------------------------------------------
// Array index contiguity.
// ---------------------------------------------------------------------------

/// The index of the first group at or after `j` for the array at `key`.
pub open spec fn group_find_from(
    gs: Seq<(Seq<SegmentView>, Seq<u32>)>,
    key: Seq<SegmentView>,
    j: int,
) -> Option<int>
    decreases gs.len() - j,
{
    if j < 0 || j >= gs.len() {
        None
    } else if gs[j].0 == key {
        Some(j)
    } else {
        group_find_from(gs, key, j + 1)
    }
}

/// Records that the array at `key` has index `idx`.
pub open spec fn group_add(
    gs: Seq<(Seq<SegmentView>, Seq<u32>)>,
    key: Seq<SegmentView>,
    idx: u32,
) -> Seq<(Seq<SegmentView>, Seq<u32>)> {
    match group_find_from(gs, key, 0) {
        Some(i) => gs.update(i, (gs[i].0, gs[i].1.push(idx))),
        None => gs.push((key, seq![idx])),
    }
}

/// Records the indices that `path` gives to arrays, from segment `i` on.
pub open spec fn entry_groups(
    path: Seq<SegmentView>,
    i: int,
    gs: Seq<(Seq<SegmentView>, Seq<u32>)>,
) -> Seq<(Seq<SegmentView>, Seq<u32>)>
    decreases path.len() - i,
{
    if i < 0 || i >= path.len() {
        gs
    } else {
        let gs2 = match path[i] {
            SegmentView::Index(idx) => group_add(gs, path.subrange(0, i), idx),
            SegmentView::Field(_) => gs,
        };
        entry_groups(path, i + 1, gs2)
    }
}

/// The arrays and the indices given to each, arrays in order of first use,
/// recording the entries from `e` on.
pub open spec fn groups_from(
    es: Seq<EntryView>,
    e: int,
    gs: Seq<(Seq<SegmentView>, Seq<u32>)>,
) -> Seq<(Seq<SegmentView>, Seq<u32>)>
    decreases es.len() - e,
{
    if e < 0 || e >= es.len() {
        gs
    } else {
        groups_from(es, e + 1, entry_groups(es[e].0, 0, gs))
    }
}

pub open spec fn seq_max(s: Seq<u32>) -> u32
    decreases s.len(),
{
    if s.len() == 0 {
        0
    } else if s.len() == 1 {
        s[0]
    } else {
        let m = seq_max(s.drop_last());
        if s.last() > m {
            s.last()
        } else {
            m
        }
    }
}

/// Whether the entry's path continues `prefix` with an index.
pub open spec fn indexes_into(e: EntryView, prefix: Seq<SegmentView>) -> bool {
    e.0.len() > prefix.len() && e.0.subrange(0, prefix.len() as int) == prefix && e.0[prefix.len() as int] is Index
}

/// The span of the first entry at or after `j` that indexes into `prefix`.
pub open spec fn array_span_from(es: Seq<EntryView>, prefix: Seq<SegmentView>, j: int) -> Span
    decreases es.len() - j,
{
    if j < 0 || j >= es.len() {
        Span { lo: 0, hi: 0 }
    } else if indexes_into(es[j], prefix) {
        es[j].1.decl_span
    } else {
        array_span_from(es, prefix, j + 1)
    }
}

/// A warning for each index from `i` up to `max` that the array lacks.
pub open spec fn gap_diags(idx: Seq<u32>, i: int, max: int, span: Span) -> Seq<DiagnosticView>
    decreases max + 1 - i,
{
    if i > max {
        seq![]
    } else {
        (if idx.contains(i as u32) {
            seq![]
        } else {
            seq![warn_diag("TC0204"@, "sparse array at index "@ + decimal_chars(i as u32), span)]
        }) + gap_diags(idx, i + 1, max, span)
    }
}

/// The gap warnings of the groups from `g` on.
pub open spec fn gaps_from(es: Seq<EntryView>, gs: Seq<(Seq<SegmentView>, Seq<u32>)>, g: int) -> Seq<
    DiagnosticView,
>
    decreases gs.len() - g,
{
    if g < 0 || g >= gs.len() {
        seq![]
    } else {
        gap_diags(gs[g].1, 0, seq_max(gs[g].1) as int, array_span_from(es, gs[g].0, 0))
            + gaps_from(es, gs, g + 1)
    }
}

pub open spec fn sparse_diags(es: Seq<EntryView>) -> Seq<DiagnosticView> {
    gaps_from(es, groups_from(es, 0, seq![]), 0)
}

/// All diagnostics of the analysis of declarations `ds`.
pub open spec fn analysis_diags(ds: Seq<DeclView>, check_names: bool) -> Seq<DiagnosticView> {
    decl_diags_upto(ds, ds.len() as int, check_names) + shape_diags(table_of(ds)) + sparse_diags(
        table_of(ds),
    )
}

// ---------------------------------------------------------------------------
// Copying and comparing paths.
// ---------------------------------------------------------------------------

pub fn clone_segment(s: &PathSegment) -> (r: PathSegment)
    ensures
        r@ == s@,
{
    match s {
        PathSegment::Field(f) => PathSegment::Field(f.clone()),
        PathSegment::Index(i) => PathSegment::Index(*i),
    }
}

pub fn clone_path(p: &Path) -> (r: Path)
    ensures
        path_view(r@) == path_view(p@),
{
    let mut r: Path = Vec::new();
    let mut i: usize = 0;
    while i < p.len()
        invariant
            i <= p@.len(),
            path_view(r@) == path_view(p@).subrange(0, i as int),
        decreases p@.len() - i,
    {
        let ghost prev = path_view(r@);
        let seg = clone_segment(&p[i]);
        assert(seg@ == path_view(p@)[i as int]);
        r.push(seg);
        assert(path_view(r@) =~= prev.push(seg@));
        i = i + 1;
        assert(path_view(r@) =~= path_view(p@).subrange(0, i as int));
    }
    assert(path_view(p@).subrange(0, p@.len() as int) =~= path_view(p@));
    r
}

pub fn clone_value(v: &Value) -> (r: Value)
    ensures
        r@ == v@,
{
    match v {
        Value::VarRef { css_var, span } => Value::VarRef { css_var: css_var.clone(), span: *span },
        Value::Raw { text, span } => Value::Raw { text: text.clone(), span: *span },
    }
}

pub fn segment_eq(a: &PathSegment, b: &PathSegment) -> (r: bool)
    ensures
        r == (a@ == b@),
{
    match (a, b) {
        (PathSegment::Field(x), PathSegment::Field(y)) => {
            let x: &String = x;
            let y: &String = y;
            x.eq(y)
        },
        (PathSegment::Index(i), PathSegment::Index(j)) => *i == *j,
        _ => false,
    }
}

/// Whether the first `la` segments of `a` are the first `lb` segments of `b`.
pub fn prefix_eq(a: &Path, la: usize, b: &Path, lb: usize) -> (r: bool)
    requires
        la <= a@.len(),
        lb <= b@.len(),
    ensures
        r == (path_view(a@).subrange(0, la as int) == path_view(b@).subrange(0, lb as int)),
{
    if la != lb {
        assert(path_view(a@).subrange(0, la as int).len() != path_view(b@).subrange(0, lb as int).len());
        return false;
    }
    let mut i: usize = 0;
    while i < la
        invariant
            la == lb,
            i <= la <= a@.len(),
            lb <= b@.len(),
            path_view(a@).subrange(0, i as int) == path_view(b@).subrange(0, i as int),
        decreases la - i,
    {
        if !segment_eq(&a[i], &b[i]) {
            assert(path_view(a@).subrange(0, la as int)[i as int] != path_view(b@).subrange(
                0,
                lb as int,
            )[i as int]);
            return false;
        }
        i = i + 1;
        assert(path_view(a@).subrange(0, i as int) =~= path_view(b@).subrange(0, i as int));
    }
    true
}

pub fn path_eq(a: &Path, b: &Path) -> (r: bool)
    ensures
        r == (path_view(a@) == path_view(b@)),
{
    let r = prefix_eq(a, a.len(), b, b.len());
    assert(path_view(a@).subrange(0, a@.len() as int) =~= path_view(a@));
    assert(path_view(b@).subrange(0, b@.len() as int) =~= path_view(b@));
    r
}

pub proof fn lemma_find_entry_from(es: Seq<EntryView>, path: Seq<SegmentView>, j: int)
    requires
        0 <= j,
    ensures
        match find_entry_from(es, path, j) {
            Some(i) => j <= i < es.len() && es[i].0 == path && forall|k: int|
                j <= k < i ==> (#[trigger] es[k]).0 != path,
            None => forall|k: int| j <= k < es.len() ==> (#[trigger] es[k]).0 != path,
        },
    decreases es.len() - j,
{
    if j < es.len() && es[j].0 != path {
        lemma_find_entry_from(es, path, j + 1);
    }
}

/// No two entries share a path.
pub open spec fn distinct_paths(es: Seq<EntryView>) -> bool {
    forall|i: int, j: int| 0 <= i < j < es.len() ==> (#[trigger] es[i]).0 != (#[trigger] es[j]).0
}

/// The table of the first `n` declarations holds each path once.
pub proof fn lemma_table_distinct(ds: Seq<DeclView>, n: int)
    requires
        0 <= n <= ds.len(),
    ensures
        distinct_paths(table_upto(ds, n)),
    decreases n,
{
    if n > 0 {
        lemma_table_distinct(ds, n - 1);
        let t = table_upto(ds, n - 1);
        lemma_find_entry_from(t, ds[n - 1].path, 0);
    }
}

impl SymbolTable {
    /// Each path has one entry at most.
    pub open spec fn wf(&self) -> bool {
        distinct_paths(self@)
    }

    pub proof fn lemma_entry(&self, j: int)
        requires
            0 <= j < self.entries@.len(),
        ensures
            self@[j] == (path_view(self.entries@[j].0@), self.entries@[j].1@),
            self@.len() == self.entries@.len(),
    {
    }

    /// The index of the entry for `path`.
    pub fn find(&self, path: &Path) -> (r: Option<usize>)
        ensures
            match r {
                Some(i) => find_entry(self@, path_view(path@)) == Some(i as int),
                None => find_entry(self@, path_view(path@)) is None,
            },
    {
        let ghost ev = self@;
        let mut j: usize = 0;
        while j < self.entries.len()
            invariant
                ev == self@,
                j <= self.entries@.len(),
                find_entry_from(ev, path_view(path@), j as int) == find_entry(ev, path_view(path@)),
            decreases self.entries@.len() - j,
        {
            proof {
                self.lemma_entry(j as int);
            }
            if path_eq(&self.entries[j].0, path) {
                return Some(j);
            }
            j = j + 1;
        }
        None
    }

    /// Whether the table has an entry for `path`.
    pub fn contains_key(&self, path: &Path) -> (r: bool)
        ensures
            r == find_entry(self@, path_view(path@)) is Some,
    {
        self.find(path).is_some()
    }

    /// The symbol recorded for `path`.
    pub fn get(&self, path: &Path) -> (r: Option<&ThemeSymbol>)
        ensures
            match r {
                Some(s) => find_entry(self@, path_view(path@)) matches Some(i) && self@[i].1 == s@,
                None => find_entry(self@, path_view(path@)) is None,
            },
    {
        proof {
            lemma_find_entry_from(self@, path_view(path@), 0);
        }
        match self.find(path) {
            Some(i) => {
                proof {
                    self.lemma_entry(i as int);
                }
                Some(&self.entries[i].1)
            },
            None => None,
        }
    }
}

// ---------------------------------------------------------------------------
// The analysis.
// ---------------------------------------------------------------------------

fn check_name_consistency(decl: &ThemeDecl, diags: &mut DiagnosticBag)
    ensures
        final(diags)@ == old(diags)@ + name_diags(decl@),
{
    match &decl.value {
        Value::VarRef { css_var, span } => {
            let expected = concat2("--", decl.var_name.as_str());
            if *css_var != expected {
                let var_type = if decl.is_sass_var {
                    "scss variable $"
                } else {
                    "css variable --"
                };
                let head = concat3("name mismatch: ", var_type, decl.var_name.as_str());
                let msg = concat3(head.as_str(), " but css variable ", css_var.as_str());
                diags.warn("TC0202", msg, *span);
                assert(diags@ =~= old(diags)@ + name_diags(decl@));
            } else {
                assert(diags@ =~= old(diags)@ + name_diags(decl@));
            }
        },
        Value::Raw { .. } => {
            assert(diags@ =~= old(diags)@ + name_diags(decl@));
        },
    }
}

fn check_duplicate_paths(table: &SymbolTable, decl: &ThemeDecl, diags: &mut DiagnosticBag)
    ensures
        final(diags)@ == old(diags)@ + dup_diags(table@, decl@),
{
    proof {
        lemma_find_entry_from(table@, path_view(decl.path@), 0);
    }
    match table.find(&decl.path) {
        Some(i) => {
            proof {
                table.lemma_entry(i as int);
            }
            diags.error("TC0201", string_of("duplicate path"), decl.path_span);
            diags.error("TC0201", string_of("previously declared here"), table.entries[i].1.decl_span);
            assert(diags@ =~= old(diags)@ + dup_diags(table@, decl@));
        },
        None => {
            assert(diags@ =~= old(diags)@ + dup_diags(table@, decl@));
        },
    }
}

/// Builds the symbol table of `file` and reports what the checks find; the
/// name check runs only when `check_names` holds.
pub fn analyze_with(file: &File, diags: &mut DiagnosticBag, check_names: bool) -> (t: SymbolTable)
    ensures
        t@ == table_of(file@),
        t.wf(),
        final(diags)@ == old(diags)@ + analysis_diags(file@, check_names),
{
    let ghost ds = file@;
    let mut table = SymbolTable { entries: Vec::new() };
    assert(table@ =~= table_upto(ds, 0));
    let mut i: usize = 0;
    while i < file.decls.len()
        invariant
            ds == file@,
            i <= file.decls@.len(),
            table@ == table_upto(ds, i as int),
            diags@ == old(diags)@ + decl_diags_upto(ds, i as int, check_names),
        decreases file.decls@.len() - i,
    {
        let decl = &file.decls[i];
        assert(decl@ == ds[i as int]);
        let ghost d0 = diags@;
        if check_names {
            check_name_consistency(decl, diags);
        }
        check_duplicate_paths(&table, decl, diags);
        if table.find(&decl.path).is_none() {
            let ghost tv = table@;
            let sym = ThemeSymbol { value: clone_value(&decl.value), decl_span: decl.span };
            table.entries.push((clone_path(&decl.path), sym));
            assert(table@ =~= tv.push((ds[i as int].path, SymbolView { value: ds[i as int].value, decl_span: ds[i as int].span })));
        }
        i = i + 1;
        assert(diags@ =~= old(diags)@ + decl_diags_upto(ds, i as int, check_names));
    }
    check_path_shape_conflicts(&table, diags);
    check_array_index_contiguity(&table, diags);
    assert(diags@ =~= old(diags)@ + analysis_diags(ds, check_names));
    proof {
        lemma_table_distinct(ds, ds.len() as int);
    }
    table
}

/// Builds the symbol table of `file` and reports duplicate paths, names that
/// do not match their CSS variable, paths used with conflicting shapes, and
/// arrays with missing indices.
pub fn analyze(file: &File, diags: &mut DiagnosticBag) -> (t: SymbolTable)
    ensures
        t@ == table_of(file@),
        t.wf(),
        final(diags)@ == old(diags)@ + analysis_diags(file@, true),
{
    analyze_with(file, diags, true)
}

fn shape_of(path: &Path, i: usize) -> (k: ShapeKind)
    ensures
        k == shape_at(path_view(path@), i as int),
{
    if i >= path.len() {
        ShapeKind::Leaf
    } else {
        match &path[i] {
            PathSegment::Field(_) => ShapeKind::Object,
            PathSegment::Index(_) => ShapeKind::Array,
        }
    }
}

fn report_conflict(first: ShapeKind, new: ShapeKind, span: Span, diags: &mut DiagnosticBag)
    ensures
        final(diags)@ == old(diags)@ + shape_conflict(first, new, span),
{
    if (first == ShapeKind::Leaf) != (new == ShapeKind::Leaf) {
        diags.error("TC0203", string_of("path is used as both a leaf and a container"), span);
    } else if first != new {
        diags.error("TC0203", string_of("path mixes object and array children"), span);
    }
    assert(diags@ =~= old(diags)@ + shape_conflict(first, new, span));
}

/// The registry of shapes as plain values: each record names a prefix by an
/// entry of the table and a length.
spec fn reg_view(ev: Seq<EntryView>, reg: Seq<(usize, usize, ShapeKind)>) -> Seq<
    (Seq<SegmentView>, ShapeKind),
> {
    reg.map_values(|r: (usize, usize, ShapeKind)| (ev[r.0 as int].0.subrange(0, r.1 as int), r.2))
}

spec fn reg_ok(ev: Seq<EntryView>, reg: Seq<(usize, usize, ShapeKind)>) -> bool {
    forall|j: int|
        0 <= j < reg.len() ==> (#[trigger] reg[j]).0 < ev.len() && reg[j].1 <= ev[reg[j].0 as int].0.len()
}

fn check_path_shape_conflicts(table: &SymbolTable, diags: &mut DiagnosticBag)
    ensures
        final(diags)@ == old(diags)@ + shape_diags(table@),
{
    let ghost ev = table@;
    let n = table.entries.len();
    let mut reg: Vec<(usize, usize, ShapeKind)> = Vec::new();
    let mut e: usize = 0;
    assert(reg_view(ev, reg@) =~= Seq::<(Seq<SegmentView>, ShapeKind)>::empty());
    while e < n
        invariant
            ev == table@,
            n == table.entries@.len(),
            e <= n,
            reg_ok(ev, reg@),
            old(diags)@ + shape_diags(ev) == diags@ + shapes_from(ev, e as int, reg_view(ev, reg@)),
        decreases n - e,
    {
        let path = &table.entries[e].0;
        let span = table.entries[e].1.decl_span;
        proof {
            table.lemma_entry(e as int);
        }
        let len = path.len();
        let mut i: usize = 0;
        let mut finished = false;
        while !finished
            invariant
                ev == table@,
                n == table.entries@.len(),
                e < n,
                len == path@.len(),
                *path == table.entries@[e as int].0,
                ev[e as int].0 == path_view(path@),
                span == ev[e as int].1.decl_span,
                i <= len,
                reg_ok(ev, reg@),
                old(diags)@ + shape_diags(ev) == diags@ + entry_shapes(
                    path_view(path@),
                    span,
                    if finished { len + 1 } else { i as int },
                    reg_view(ev, reg@),
                ).0 + shapes_from(
                    ev,
                    e + 1,
                    entry_shapes(
                        path_view(path@),
                        span,
                        if finished { len + 1 } else { i as int },
                        reg_view(ev, reg@),
                    ).1,
                ),
            decreases len + 1 - i, if finished { 0int } else { 1int },
        {
            let kind = shape_of(path, i);
            let ghost key = path_view(path@).subrange(0, i as int);
            let ghost rv = reg_view(ev, reg@);
            let mut found: Option<ShapeKind> = None;
            let mut j: usize = 0;
            while j < reg.len()
                invariant_except_break
                    found is None,
                    shape_lookup_from(rv, key, j as int) == shape_lookup(rv, key),
                invariant
                    ev == table@,
                    rv == reg_view(ev, reg@),
                    reg_ok(ev, reg@),
                    n == table.entries@.len(),
                    e < n,
                    i <= len,
                    len == path@.len(),
                    *path == table.entries@[e as int].0,
                    key == path_view(path@).subrange(0, i as int),
                    j <= reg@.len(),
                ensures
                    found matches Some(k) ==> shape_lookup(rv, key) == Some(k),
                    found is None ==> shape_lookup(rv, key) is None,
                decreases reg@.len() - j,
            {
                let r = reg[j];
                assert(reg@[j as int] == r);
                assert(rv[j as int] == (ev[r.0 as int].0.subrange(0, r.1 as int), r.2));
                proof {
                    table.lemma_entry(r.0 as int);
                }
                if prefix_eq(&table.entries[r.0].0, r.1, path, i) {
                    found = Some(r.2);
                    break;
                }
                j = j + 1;
            }
            let ghost d0 = diags@;
            let ghost pv = path_view(path@);
            let ghost cur = entry_shapes(pv, span, i as int, rv);
            let ghost nxt = entry_shapes(pv, span, i + 1, rv);
            match found {
                Some(old_kind) => {
                    report_conflict(old_kind, kind, span, diags);
                    assert(cur.0 == shape_conflict(old_kind, kind, span) + nxt.0);
                    assert(cur.1 == nxt.1);
                    assert(diags@ + nxt.0 =~= d0 + cur.0);
                },
                None => {
                    reg.push((e, i, kind));
                    assert(reg_view(ev, reg@) =~= rv.push((key, kind)));
                    assert(cur == entry_shapes(pv, span, i + 1, reg_view(ev, reg@)));
                },
            }
            if i == len {
                finished = true;
            } else {
                i = i + 1;
            }
        }
        e = e + 1;
    }
}

spec fn groups_view(ev: Seq<EntryView>, gs: Seq<(usize, usize, Vec<u32>)>) -> Seq<
    (Seq<SegmentView>, Seq<u32>),
> {
    gs.map_values(|g: (usize, usize, Vec<u32>)| (ev[g.0 as int].0.subrange(0, g.1 as int), g.2@))
}

spec fn groups_ok(ev: Seq<EntryView>, gs: Seq<(usize, usize, Vec<u32>)>) -> bool {
    forall|j: int|
        0 <= j < gs.len() ==> (#[trigger] gs[j]).0 < ev.len() && gs[j].1 <= ev[gs[j].0 as int].0.len()
}

/// The largest of `v`, 0 when empty.
fn max_of(v: &Vec<u32>) -> (m: u32)
    ensures
        m == seq_max(v@),
{
    let mut m: u32 = 0;
    let mut k: usize = 0;
    while k < v.len()
        invariant
            k <= v@.len(),
            m == seq_max(v@.take(k as int)),
        decreases v@.len() - k,
    {
        assert(v@.take(k + 1).drop_last() =~= v@.take(k as int));
        if k == 0 || v[k] > m {
            m = v[k];
        }
        k = k + 1;
    }
    assert(v@.take(v@.len() as int) =~= v@);
    m
}

fn contains_u32(v: &Vec<u32>, x: u32) -> (r: bool)
    ensures
        r == v@.contains(x),
{
    let mut k: usize = 0;
    while k < v.len()
        invariant
            k <= v@.len(),
            forall|j: int| 0 <= j < k ==> v@[j] != x,
        decreases v@.len() - k,
    {
        if v[k] == x {
            return true;
        }
        k = k + 1;
    }
    false
}

/// The span of the first entry that indexes into the prefix of length `plen`
/// of `prefix`.
fn array_span(table: &SymbolTable, prefix: &Path, plen: usize) -> (s: Span)
    requires
        plen <= prefix@.len(),
    ensures
        s == array_span_from(table@, path_view(prefix@).subrange(0, plen as int), 0),
{
    let ghost ev = table@;
    let ghost key = path_view(prefix@).subrange(0, plen as int);
    let mut j: usize = 0;
    while j < table.entries.len()
        invariant
            ev == table@,
            plen <= prefix@.len(),
            key == path_view(prefix@).subrange(0, plen as int),
            j <= table.entries@.len(),
            array_span_from(ev, key, j as int) == array_span_from(ev, key, 0),
        decreases table.entries@.len() - j,
    {
        let p = &table.entries[j].0;
        proof {
            table.lemma_entry(j as int);
        }
        if p.len() > plen && prefix_eq(p, plen, prefix, plen) {
            let is_index = match &p[plen] {
                PathSegment::Index(_) => true,
                PathSegment::Field(_) => false,
            };
            if is_index {
                return table.entries[j].1.decl_span;
            }
        }
        j = j + 1;
    }
    Span::new(0, 0)
}

fn check_array_index_contiguity(table: &SymbolTable, diags: &mut DiagnosticBag)
    ensures
        final(diags)@ == old(diags)@ + sparse_diags(table@),
{
    let ghost ev = table@;
    let n = table.entries.len();
    let mut groups: Vec<(usize, usize, Vec<u32>)> = Vec::new();
    let mut e: usize = 0;
    assert(groups_view(ev, groups@) =~= Seq::<(Seq<SegmentView>, Seq<u32>)>::empty());
    while e < n
        invariant
            ev == table@,
            n == table.entries@.len(),
            e <= n,
            groups_ok(ev, groups@),
            groups_from(ev, 0, seq![]) == groups_from(ev, e as int, groups_view(ev, groups@)),
        decreases n - e,
    {
        let path = &table.entries[e].0;
        proof {
            table.lemma_entry(e as int);
        }
        let len = path.len();
        let mut i: usize = 0;
        while i < len
            invariant
                ev == table@,
                n == table.entries@.len(),
                e < n,
                len == path@.len(),
                *path == table.entries@[e as int].0,
                ev[e as int].0 == path_view(path@),
                i <= len,
                groups_ok(ev, groups@),
                groups_from(ev, 0, seq![]) == groups_from(
                    ev,
                    e + 1,
                    entry_groups(path_view(path@), i as int, groups_view(ev, groups@)),
                ),
            decreases len - i,
        {
            match &path[i] {
                PathSegment::Index(idx) => {
                    let idx = *idx;
                    let ghost key = path_view(path@).subrange(0, i as int);
                    let ghost gv = groups_view(ev, groups@);
                    let mut j: usize = 0;
                    let mut found = false;
                    while j < groups.len()
                        invariant_except_break
                            !found,
                            group_find_from(gv, key, j as int) == group_find_from(gv, key, 0),
                        invariant
                            ev == table@,
                            gv == groups_view(ev, groups@),
                            groups_ok(ev, groups@),
                            n == table.entries@.len(),
                            e < n,
                            i < len,
                            len == path@.len(),
                            *path == table.entries@[e as int].0,
                            key == path_view(path@).subrange(0, i as int),
                            j <= groups@.len(),
                        ensures
                            found ==> j < groups@.len() && group_find_from(gv, key, 0) == Some(
                                j as int,
                            ),
                            !found ==> group_find_from(gv, key, 0) is None,
                        decreases groups@.len() - j,
                    {
                        let g0 = groups[j].0;
                        let g1 = groups[j].1;
                        assert(gv[j as int].0 == ev[g0 as int].0.subrange(0, g1 as int));
                        proof {
                            table.lemma_entry(g0 as int);
                        }
                        if prefix_eq(&table.entries[g0].0, g1, path, i) {
                            found = true;
                            break;
                        }
                        j = j + 1;
                    }
                    if found {
                        let ghost old_g = groups@[j as int];
                        groups[j].2.push(idx);
                        assert(groups_view(ev, groups@) =~= gv.update(
                            j as int,
                            (gv[j as int].0, gv[j as int].1.push(idx)),
                        ));
                    } else {
                        let mut v: Vec<u32> = Vec::new();
                        v.push(idx);
                        groups.push((e, i, v));
                        assert(groups_view(ev, groups@) =~= gv.push((key, seq![idx])));
                    }
                    assert(groups_view(ev, groups@) == group_add(gv, key, idx));
                },
                PathSegment::Field(_) => {},
            }
            i = i + 1;
        }
        e = e + 1;
    }
    let ghost gv = groups_view(ev, groups@);
    assert(gv == groups_from(ev, 0, seq![]));
    let mut g: usize = 0;
    while g < groups.len()
        invariant
            ev == table@,
            gv == groups_view(ev, groups@),
            groups_ok(ev, groups@),
            n == table.entries@.len(),
            g <= groups@.len(),
            old(diags)@ + sparse_diags(ev) == diags@ + gaps_from(ev, gv, g as int),
        decreases groups@.len() - g,
    {
        let idx = &groups[g].2;
        let max = max_of(idx);
        let span = array_span(table, &table.entries[groups[g].0].0, groups[g].1);
        proof {
            table.lemma_entry(groups@[g as int].0 as int);
        }
        let mut i: u64 = 0;
        while i <= max as u64
            invariant
                i <= max as u64 + 1,
                old(diags)@ + sparse_diags(ev) == diags@ + gap_diags(idx@, i as int, max as int, span)
                    + gaps_from(ev, gv, g + 1),
            decreases max as u64 + 1 - i,
        {
            if !contains_u32(idx, i as u32) {
                let ghost d0 = diags@;
                let msg = concat2("sparse array at index ", u32_to_string(i as u32).as_str());
                diags.warn("TC0204", msg, span);
            }
            i = i + 1;
        }
        g = g + 1;
    }
}

} // verus!
