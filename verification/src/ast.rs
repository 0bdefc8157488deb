//! The syntax tree of a source file: its `@theme` declarations.

use vstd::prelude::*;
use crate::span::Span;

verus! {

#[derive(Debug, Clone, PartialEq, Eq, Hash)]
pub enum PathSegment {
    Field(String),
    Index(u32),
}

pub type Path = Vec<PathSegment>;

/// A path segment as plain values.
pub enum SegmentView {
    Field(Seq<char>),
    Index(u32),
}

impl View for PathSegment {
    type V = SegmentView;

    open spec fn view(&self) -> SegmentView {
        match self {
            PathSegment::Field(s) => SegmentView::Field(s@),
            PathSegment::Index(i) => SegmentView::Index(*i),
        }
    }
}

pub open spec fn path_view(p: Seq<PathSegment>) -> Seq<SegmentView> {
    p.map_values(|s: PathSegment| s@)
}

#[derive(Debug, Clone, PartialEq, Eq)]
pub enum Value {
    VarRef { css_var: String, span: Span },
    Raw { text: String, span: Span },
}

pub enum ValueView {
    VarRef { css_var: Seq<char>, span: Span },
    Raw { text: Seq<char>, span: Span },
}

impl View for Value {
    type V = ValueView;

    open spec fn view(&self) -> ValueView {
        match self {
            Value::VarRef { css_var, span } => ValueView::VarRef { css_var: css_var@, span: *span },
            Value::Raw { text, span } => ValueView::Raw { text: text@, span: *span },
        }
    }
}

#[derive(Debug, Clone, PartialEq, Eq)]
pub struct ThemeDecl {
    pub path: Path,
    pub path_span: Span,
    pub var_name: String,
    pub is_sass_var: bool,
    pub value: Value,
    pub span: Span,
}

pub struct DeclView {
    pub path: Seq<SegmentView>,
    pub path_span: Span,
    pub var_name: Seq<char>,
    pub is_sass_var: bool,
    pub value: ValueView,
    pub span: Span,
}

impl View for ThemeDecl {
    type V = DeclView;

    open spec fn view(&self) -> DeclView {
        DeclView {
            path: path_view(self.path@),
            path_span: self.path_span,
            var_name: self.var_name@,
            is_sass_var: self.is_sass_var,
            value: self.value@,
            span: self.span,
        }
    }
}

pub open spec fn decls_view(ds: Seq<ThemeDecl>) -> Seq<DeclView> {
    ds.map_values(|d: ThemeDecl| d@)
}

#[derive(Debug, Clone, Default, PartialEq, Eq)]
pub struct File {
    pub decls: Vec<ThemeDecl>,
}

impl View for File {
    type V = Seq<DeclView>;

    open spec fn view(&self) -> Seq<DeclView> {
        decls_view(self.decls@)
    }
}

} // verus!
