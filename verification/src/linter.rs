//! Lint rules over the declarations of a file, and the linter that runs a
//! set of them in turn.

use vstd::prelude::*;
use crate::ast::{File, DeclView};
use crate::diagnostics::{DiagnosticBag, DiagnosticView};

verus! {

/// A check over the declarations of a file that reports what it finds.
pub trait LintRule {
    /// The name of the rule.
    fn name(&self) -> &'static str;

    /// The diagnostics that the rule reports on the declarations `decls`.
    spec fn lint_diags(&self, decls: Seq<DeclView>) -> Seq<DiagnosticView>;

    /// Appends the rule's diagnostics on `file` to `diags`.
    fn check_file(&self, file: &File, diags: &mut DiagnosticBag)
        ensures
            final(diags)@ == old(diags)@ + self.lint_diags(file@),
    ;
}

/// The diagnostics of the first `n` rules, one rule after another.
pub open spec fn rules_diags(rules: Seq<Box<dyn LintRule>>, decls: Seq<DeclView>, n: int) -> Seq<
    DiagnosticView,
>
    decreases n,
{
    if n <= 0 {
        seq![]
    } else {
        rules_diags(rules, decls, n - 1) + rules[n - 1].lint_diags(decls)
    }
}

/// Runs a set of lint rules.
pub struct Linter {
    rules: Vec<Box<dyn LintRule>>,
}

impl Linter {
    /// The rules, in the order in which they run.
    pub closed spec fn rules(&self) -> Seq<Box<dyn LintRule>> {
        self.rules@
    }

    pub fn new(rules: Vec<Box<dyn LintRule>>) -> (l: Linter)
        ensures
            l.rules() == rules@,
    {
        Linter { rules }
    }

    /// Runs each rule on `file` in turn, appending what they report.
    pub fn lint_file(&self, file: &File, diags: &mut DiagnosticBag)
        ensures
            final(diags)@ == old(diags)@ + rules_diags(self.rules(), file@, self.rules().len() as int),
    {
        let mut i: usize = 0;
        while i < self.rules.len()
            invariant
                i <= self.rules@.len(),
                diags@ == old(diags)@ + rules_diags(self.rules@, file@, i as int),
            decreases self.rules@.len() - i,
        {
            self.rules[i].check_file(file, diags);
            i = i + 1;
            assert(diags@ =~= old(diags)@ + rules_diags(self.rules@, file@, i as int));
        }
    }
}

} // verus!
