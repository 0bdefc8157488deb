//! Diagnostics: errors and warnings with a code, a message and a span.

use vstd::prelude::*;
use crate::span::Span;
use crate::text::{string_of, concat3};

verus! {

#[derive(Debug, Clone, Copy, PartialEq, Eq, Structural)]
pub enum Severity {
    Error,
    Warning,
}

/// A suggested edit: replace the text under `span` by `replacement`.
#[derive(Debug, Clone)]
pub struct LintFix {
    pub span: Span,
    pub replacement: String,
}

#[derive(Debug, Clone)]
pub struct Diagnostic {
    pub severity: Severity,
    pub code: &'static str,
    pub message: String,
    pub span: Span,
    pub notes: Vec<String>,
    pub fix: Option<LintFix>,
}

/// Each string by its characters.
pub open spec fn strings_view(v: Seq<String>) -> Seq<Seq<char>> {
    v.map_values(|n: String| n@)
}

/// What a diagnostic says, as plain values.
pub struct DiagnosticView {
    pub severity: Severity,
    pub code: Seq<char>,
    pub message: Seq<char>,
    pub span: Span,
    pub notes: Seq<Seq<char>>,
    pub fix: Option<(Span, Seq<char>)>,
}

impl View for Diagnostic {
    type V = DiagnosticView;

    open spec fn view(&self) -> DiagnosticView {
        DiagnosticView {
            severity: self.severity,
            code: self.code@,
            message: self.message@,
            span: self.span,
            notes: strings_view(self.notes@),
            fix: match self.fix {
                Some(f) => Some((f.span, f.replacement@)),
                None => None,
            },
        }
    }
}

/// A diagnostic without notes or fix.
pub open spec fn plain_diag(
    severity: Severity,
    code: Seq<char>,
    message: Seq<char>,
    span: Span,
) -> DiagnosticView {
    DiagnosticView { severity, code, message, span, notes: seq![], fix: None }
}

pub open spec fn error_diag(code: Seq<char>, message: Seq<char>, span: Span) -> DiagnosticView {
    plain_diag(Severity::Error, code, message, span)
}

pub open spec fn warn_diag(code: Seq<char>, message: Seq<char>, span: Span) -> DiagnosticView {
    plain_diag(Severity::Warning, code, message, span)
}

pub open spec fn diags_view(v: Seq<Diagnostic>) -> Seq<DiagnosticView> {
    v.map_values(|d: Diagnostic| d@)
}

/// Whether some diagnostic of `ds` is an error.
pub open spec fn has_error(ds: Seq<DiagnosticView>) -> bool {
    exists|i: int| 0 <= i < ds.len() && (#[trigger] ds[i]).severity == Severity::Error
}

/// `d` with its severity raised to an error; the rest unchanged.
pub open spec fn promoted(d: DiagnosticView) -> DiagnosticView {
    DiagnosticView { severity: Severity::Error, ..d }
}

pub open spec fn promote_all(ds: Seq<DiagnosticView>) -> Seq<DiagnosticView> {
    ds.map_values(|d: DiagnosticView| promoted(d))
}

/// An ordered collection of diagnostics.
#[derive(Default, Debug, Clone)]
pub struct DiagnosticBag(Vec<Diagnostic>);

impl View for DiagnosticBag {
    type V = Seq<DiagnosticView>;

    closed spec fn view(&self) -> Seq<DiagnosticView> {
        diags_view(self.0@)
    }
}

impl DiagnosticBag {
    pub fn new() -> (b: DiagnosticBag)
        ensures
            b@ == Seq::<DiagnosticView>::empty(),
    {
        let b = DiagnosticBag(Vec::new());
        assert(b@ =~= Seq::<DiagnosticView>::empty());
        b
    }

    fn push(&mut self, d: Diagnostic)
        ensures
            final(self)@ == old(self)@.push(d@),
    {
        self.0.push(d);
        assert(diags_view(self.0@) =~= diags_view(old(self).0@).push(d@));
    }

    /// Records an error.
    pub fn error(&mut self, code: &'static str, msg: String, span: Span)
        ensures
            final(self)@ == old(self)@.push(error_diag(code@, msg@, span)),
    {
        let d = Diagnostic {
            severity: Severity::Error,
            code,
            message: msg,
            span,
            notes: Vec::new(),
            fix: None,
        };
        assert(d@.notes =~= Seq::<Seq<char>>::empty());
        self.push(d);
    }

    /// Records a warning.
    pub fn warn(&mut self, code: &'static str, msg: String, span: Span)
        ensures
            final(self)@ == old(self)@.push(warn_diag(code@, msg@, span)),
    {
        let d = Diagnostic {
            severity: Severity::Warning,
            code,
            message: msg,
            span,
            notes: Vec::new(),
            fix: None,
        };
        assert(d@.notes =~= Seq::<Seq<char>>::empty());
        self.push(d);
    }

    /// Records a warning that carries a suggested fix.
    pub fn warn_with_fix(&mut self, code: &'static str, msg: String, span: Span, fix: LintFix)
        ensures
            final(self)@ == old(self)@.push(
                DiagnosticView {
                    severity: Severity::Warning,
                    code: code@,
                    message: msg@,
                    span,
                    notes: seq![],
                    fix: Some((fix.span, fix.replacement@)),
                },
            ),
    {
        let ghost fv = (fix.span, fix.replacement@);
        let d = Diagnostic {
            severity: Severity::Warning,
            code,
            message: msg,
            span,
            notes: Vec::new(),
            fix: Some(fix),
        };
        assert(d@.notes =~= Seq::<Seq<char>>::empty());
        self.push(d);
    }

    /// Whether some recorded diagnostic is an error.
    pub fn has_errors(&self) -> (r: bool)
        ensures
            r == has_error(self@),
    {
        let mut i: usize = 0;
        while i < self.0.len()
            invariant
                i <= self.0@.len(),
                forall|j: int| 0 <= j < i ==> self@[j].severity != Severity::Error,
            decreases self.0@.len() - i,
        {
            if self.0[i].severity == Severity::Error {
                assert(self@[i as int].severity == Severity::Error);
                return true;
            }
            i = i + 1;
        }
        false
    }

    /// Turns every warning into an error.
    pub fn promote_warnings_to_errors(&mut self)
        ensures
            final(self)@ == promote_all(old(self)@),
    {
        let mut old_items: Vec<Diagnostic> = Vec::new();
        std::mem::swap(&mut old_items, &mut self.0);
        let mut items: Vec<Diagnostic> = Vec::new();
        let mut i: usize = 0;
        let n = old_items.len();
        let ghost before = diags_view(old_items@);
        for d in it: old_items
            invariant
                it.seq() == old_items@,
                items@.len() == it.index(),
                diags_view(items@) == promote_all(before.take(it.index() as int)),
                before == diags_view(old_items@),
        {
            let ghost k = it.index() as int;
            let ghost dv = d@;
            assert(dv == before[k]);
            let mut d = d;
            if d.severity == Severity::Warning {
                d.severity = Severity::Error;
            }
            assert(d@ == promoted(dv));
            let ghost prev = items@;
            items.push(d);
            assert(diags_view(items@) =~= diags_view(prev).push(promoted(dv)));
            assert(before.take(k + 1) =~= before.take(k).push(before[k]));
            assert(promote_all(before.take(k + 1)) =~= promote_all(before.take(k)).push(promoted(before[k])));
            assert(diags_view(items@) =~= promote_all(before.take(k + 1)));
        }
        assert(before.take(n as int) =~= before);
        self.0 = items;
    }

    pub fn into_vec(self) -> (v: Vec<Diagnostic>)
        ensures
            diags_view(v@) == self@,
    {
        self.0
    }

    /// The recorded diagnostics, in the order they were recorded.
    pub fn as_slice(&self) -> (s: &[Diagnostic])
        ensures
            diags_view(s@) == self@,
    {
        self.0.as_slice()
    }

    pub fn iter(&self) -> (it: std::slice::Iter<'_, Diagnostic>)
        ensures
            diags_view(vstd::std_specs::slice::into_iter_elts(it)) == self@,
    {
        self.0.iter()
    }

    /// Appends `other` after the recorded diagnostics.
    pub fn extend(&mut self, other: Vec<Diagnostic>)
        ensures
            final(self)@ == old(self)@ + diags_view(other@),
    {
        let ghost o = other@;
        let mut other = other;
        self.0.append(&mut other);
        assert(diags_view(self.0@) =~= diags_view(old(self).0@) + diags_view(o));
    }

    pub fn is_empty(&self) -> (r: bool)
        ensures
            r == (self@.len() == 0),
    {
        self.0.len() == 0
    }

    pub fn len(&self) -> (r: usize)
        ensures
            r == self@.len(),
    {
        self.0.len()
    }
}

/// Raising every warning to an error leaves no warning behind, keeps the
/// number of diagnostics, and is idempotent.
pub proof fn lemma_promote_laws(ds: Seq<DiagnosticView>)
    ensures
        promote_all(ds).len() == ds.len(),
        forall|i: int| 0 <= i < ds.len() ==> (#[trigger] promote_all(ds)[i]).severity == Severity::Error,
        promote_all(promote_all(ds)) == promote_all(ds),
        ds.len() > 0 ==> has_error(promote_all(ds)),
{
    assert(promote_all(promote_all(ds)) =~= promote_all(ds));
    if ds.len() > 0 {
        assert(promote_all(ds)[0].severity == Severity::Error);
    }
}

/// Recording an error makes the bag have errors; recording a warning leaves
/// whether it has errors unchanged.
pub proof fn lemma_record_laws(ds: Seq<DiagnosticView>, code: Seq<char>, msg: Seq<char>, span: Span)
    ensures
        has_error(ds.push(error_diag(code, msg, span))),
        has_error(ds.push(warn_diag(code, msg, span))) == has_error(ds),
{
    let e = ds.push(error_diag(code, msg, span));
    assert(e[ds.len() as int].severity == Severity::Error);
    let w = ds.push(warn_diag(code, msg, span));
    if has_error(ds) {
        let i = choose|i: int| 0 <= i < ds.len() && (#[trigger] ds[i]).severity == Severity::Error;
        assert(w[i] == ds[i]);
    }
    if has_error(w) {
        let i = choose|i: int| 0 <= i < w.len() && (#[trigger] w[i]).severity == Severity::Error;
        assert(ds[i] == w[i]);
    }
}

/// The notes shown under a diagnostic: its own notes, then, where it has a
/// fix, one that suggests the replacement.
pub open spec fn shown_notes(d: DiagnosticView) -> Seq<Seq<char>> {
    match d.fix {
        Some((_, replacement)) => d.notes.push("Suggestion: replace with `"@ + replacement + "`"@),
        None => d.notes,
    }
}

/// The notes to show under `d`, as `shown_notes` states them.
pub fn rendered_notes(d: &Diagnostic) -> (r: Vec<String>)
    ensures
        strings_view(r@) == shown_notes(d@),
{
    let mut out: Vec<String> = Vec::new();
    let mut i: usize = 0;
    while i < d.notes.len()
        invariant
            i <= d.notes.len(),
            strings_view(out@) == d@.notes.take(i as int),
        decreases d.notes.len() - i,
    {
        let ghost before = out@;
        let note = string_of(d.notes[i].as_str());
        assert(d@.notes[i as int] == note@);
        out.push(note);
        assert(strings_view(out@) =~= strings_view(before).push(note@));
        i += 1;
        assert(strings_view(out@) =~= d@.notes.take(i as int));
    }
    assert(d@.notes.take(i as int) =~= d@.notes);
    match &d.fix {
        Some(f) => {
            out.push(concat3("Suggestion: replace with `", f.replacement.as_str(), "`"));
            assert(strings_view(out@) =~= d@.notes.push(
                "Suggestion: replace with `"@ + f.replacement@ + "`"@,
            ));
        },
        None => {},
    }
    out
}

} // verus!
