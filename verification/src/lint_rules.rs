//! The lint rules: hex colors in one letter case, variable names in kebab
//! case.

use vstd::prelude::*;
use crate::ast::{File, DeclView, Value, ValueView};
use crate::config::{HexCase, hex_case_name};
use crate::diagnostics::{DiagnosticBag, DiagnosticView, Severity, LintFix, warn_diag};
use crate::linter::LintRule;
use crate::text::{concat3, push_char, chars_of};
use crate::span::Span;

verus! {

/// What `str::to_lowercase` gives for a string: its lowercase equivalent
/// under Unicode's case mappings.
pub uninterp spec fn lowercase_of(s: Seq<char>) -> Seq<char>;

/// What `str::to_uppercase` gives for a string: its uppercase equivalent
/// under Unicode's case mappings.
pub uninterp spec fn uppercase_of(s: Seq<char>) -> Seq<char>;

/// Whether every character of `s` is ASCII.
pub open spec fn all_ascii(s: Seq<char>) -> bool {
    forall|i: int| 0 <= i < s.len() ==> (#[trigger] s[i] as u32) < 128
}

/// `c` with `A`-`Z` mapped to `a`-`z`.
pub open spec fn ascii_lower_char(c: char) -> char {
    if 'A' <= c && c <= 'Z' {
        ((c as u32) + 32) as char
    } else {
        c
    }
}

/// `c` with `a`-`z` mapped to `A`-`Z`.
pub open spec fn ascii_upper_char(c: char) -> char {
    if 'a' <= c && c <= 'z' {
        ((c as u32) - 32) as char
    } else {
        c
    }
}

pub open spec fn ascii_lower(s: Seq<char>) -> Seq<char> {
    s.map_values(|c: char| ascii_lower_char(c))
}

pub open spec fn ascii_upper(s: Seq<char>) -> Seq<char> {
    s.map_values(|c: char| ascii_upper_char(c))
}

/// Calls `str::to_lowercase`. Its result, which Unicode's case tables
/// decide, is named; for an ASCII string it is the string with each of
/// `A`-`Z` mapped to `a`-`z`, as the Unicode mapping has it. What it is for
/// other strings is not spelled out.
#[verifier::external_body]
fn to_lowercase(s: &str) -> (r: String)
    ensures
        r@ == lowercase_of(s@),
        all_ascii(s@) ==> r@ == ascii_lower(s@),
{
    s.to_lowercase()
}

/// Calls `str::to_uppercase`. Its result, which Unicode's case tables
/// decide, is named; for an ASCII string it is the string with each of
/// `a`-`z` mapped to `A`-`Z`, as the Unicode mapping has it. What it is for
/// other strings is not spelled out.
#[verifier::external_body]
fn to_uppercase(s: &str) -> (r: String)
    ensures
        r@ == uppercase_of(s@),
        all_ascii(s@) ==> r@ == ascii_upper(s@),
{
    s.to_uppercase()
}

// ---------------------------------------------------------------------------
// Hex colors.
// ---------------------------------------------------------------------------

/// Reports hex colors that are not written in the configured case.
pub struct HexCaseRule {
    case: HexCase,
}

/// A hex color written in `case`.
pub open spec fn hex_expected(case: HexCase, text: Seq<char>) -> Seq<char> {
    match case {
        HexCase::Lower => if all_ascii(text) {
            ascii_lower(text)
        } else {
            lowercase_of(text)
        },
        HexCase::Upper => if all_ascii(text) {
            ascii_upper(text)
        } else {
            uppercase_of(text)
        },
    }
}

/// The warning on a hex color `text` at `span` that differs from its
/// spelling `expected` in `case`, with `expected` as fix.
pub open spec fn hex_warning(case: HexCase, text: Seq<char>, span: Span, expected: Seq<char>) -> Seq<
    DiagnosticView,
> {
    if text != expected {
        seq![
            DiagnosticView {
                severity: Severity::Warning,
                code: "LINT002"@,
                message: "Hex color '"@ + text + "' should be "@ + hex_case_name(case),
                span,
                notes: seq![],
                fix: Some((span, expected)),
            },
        ]
    } else {
        seq![]
    }
}

/// The warning on a declaration whose raw value starts with `#` and is not
/// written in `case`, with the rewritten color as fix.
pub open spec fn hex_diag(case: HexCase, d: DeclView) -> Seq<DiagnosticView> {
    match d.value {
        ValueView::Raw { text, span } => if text.len() > 0 && text[0] == '#' {
            hex_warning(case, text, span, hex_expected(case, text))
        } else {
            seq![]
        },
        _ => seq![],
    }
}

/// Reports the hex color `text` at `span` when it differs from `expected`,
/// its spelling in `case`, which becomes the fix.
pub fn report_hex_case(
    case: HexCase,
    text: &String,
    span: Span,
    expected: String,
    diags: &mut DiagnosticBag,
)
    ensures
        final(diags)@ == old(diags)@ + hex_warning(case, text@, span, expected@),
{
    if *text != expected {
        let fix = LintFix { span, replacement: expected };
        let mut msg = concat3("Hex color '", text.as_str(), "' should be ");
        msg.append(case.name());
        diags.warn_with_fix("LINT002", msg, span, fix);
    }
    assert(final(diags)@ =~= old(diags)@ + hex_warning(case, text@, span, expected@));
}

/// The hex-case warnings on the first `n` declarations, in order.
pub open spec fn hex_diags(case: HexCase, ds: Seq<DeclView>, n: int) -> Seq<DiagnosticView>
    decreases n,
{
    if n <= 0 {
        seq![]
    } else {
        hex_diags(case, ds, n - 1) + hex_diag(case, ds[n - 1])
    }
}

impl HexCaseRule {
    pub fn new(case: HexCase) -> (r: HexCaseRule)
        ensures
            r.case() == case,
    {
        HexCaseRule { case }
    }

    pub closed spec fn case(&self) -> HexCase {
        self.case
    }
}

fn starts_with_hash(s: &String) -> (r: bool)
    ensures
        r == (s@.len() > 0 && s@[0] == '#'),
{
    let n = s.as_str().unicode_len();
    n > 0 && s.as_str().get_char(0) == '#'
}

impl LintRule for HexCaseRule {
    fn name(&self) -> (r: &'static str)
        ensures
            r@ == "hex-case"@,
    {
        "hex-case"
    }

    open spec fn lint_diags(&self, decls: Seq<DeclView>) -> Seq<DiagnosticView> {
        hex_diags(self.case(), decls, decls.len() as int)
    }

    fn check_file(&self, file: &File, diags: &mut DiagnosticBag) {
        let ghost ds = file@;
        let mut i: usize = 0;
        while i < file.decls.len()
            invariant
                ds == file@,
                i <= file.decls@.len(),
                ds.len() == file.decls@.len(),
                diags@ == old(diags)@ + hex_diags(self.case, ds, i as int),
            decreases file.decls@.len() - i,
        {
            let decl = &file.decls[i];
            assert(ds[i as int] == decl@);
            let ghost before = diags@;
            match &decl.value {
                Value::Raw { text, span } => {
                    if starts_with_hash(text) {
                        let expected = match self.case {
                            HexCase::Lower => to_lowercase(text.as_str()),
                            HexCase::Upper => to_uppercase(text.as_str()),
                        };
                        report_hex_case(self.case, text, *span, expected, diags);
                    }
                },
                Value::VarRef { .. } => {},
            }
            i = i + 1;
            assert(diags@ =~= old(diags)@ + hex_diags(self.case, ds, i as int));
        }
    }
}

// ---------------------------------------------------------------------------
// Kebab-case variable names.
// ---------------------------------------------------------------------------

/// Reports variable names that are not in kebab case.
pub struct KebabCaseVarsRule;

pub open spec fn is_kebab_char(c: char) -> bool {
    ('a' <= c && c <= 'z') || ('0' <= c && c <= '9') || c == '-'
}

/// Whether `name` has only lowercase ASCII letters, digits and dashes.
pub open spec fn is_kebab(name: Seq<char>) -> bool {
    forall|i: int| 0 <= i < name.len() ==> is_kebab_char(#[trigger] name[i])
}

/// `name` with each underscore turned into a dash.
pub open spec fn dashed(name: Seq<char>) -> Seq<char> {
    name.map_values(|c: char| if c == '_' { '-' } else { c })
}

/// The suggested kebab-case spelling of `name`.
pub open spec fn kebab_suggestion(name: Seq<char>) -> Seq<char> {
    if all_ascii(dashed(name)) {
        ascii_lower(dashed(name))
    } else {
        lowercase_of(dashed(name))
    }
}

/// The warning on the variable name `name` of a declaration at `span`,
/// which suggests `suggestion` instead.
pub open spec fn kebab_warning(name: Seq<char>, span: Span, suggestion: Seq<char>) -> DiagnosticView {
    warn_diag(
        "LINT001"@,
        "Variable name '"@ + name + "' is not kebab-case (try '"@ + suggestion + "')"@,
        span,
    )
}

/// The warning on a declaration whose variable name is not in kebab case.
pub open spec fn kebab_diag(d: DeclView) -> Seq<DiagnosticView> {
    if is_kebab(d.var_name) {
        seq![]
    } else {
        seq![kebab_warning(d.var_name, d.span, kebab_suggestion(d.var_name))]
    }
}

/// Reports the variable name `name` of a declaration at `span` as not in
/// kebab case, suggesting `suggestion`.
pub fn report_kebab_case(name: &String, span: Span, suggestion: &String, diags: &mut DiagnosticBag)
    ensures
        final(diags)@ == old(diags)@.push(kebab_warning(name@, span, suggestion@)),
{
    let mut msg = concat3("Variable name '", name.as_str(), "' is not kebab-case (try '");
    msg.append(suggestion.as_str());
    msg.append("')");
    diags.warn("LINT001", msg, span);
}

/// The kebab-case warnings on the first `n` declarations, in order.
pub open spec fn kebab_diags(ds: Seq<DeclView>, n: int) -> Seq<DiagnosticView>
    decreases n,
{
    if n <= 0 {
        seq![]
    } else {
        kebab_diags(ds, n - 1) + kebab_diag(ds[n - 1])
    }
}

fn kebab_name(name: &String) -> (r: bool)
    ensures
        r == is_kebab(name@),
{
    let cs = chars_of(name.as_str());
    let mut i: usize = 0;
    while i < cs.len()
        invariant
            cs@ == name@,
            i <= cs@.len(),
            forall|j: int| 0 <= j < i ==> is_kebab_char(#[trigger] cs@[j]),
        decreases cs@.len() - i,
    {
        let c = cs[i];
        if !(('a' <= c && c <= 'z') || ('0' <= c && c <= '9') || c == '-') {
            return false;
        }
        i = i + 1;
    }
    true
}

fn dash_underscores(name: &String) -> (r: String)
    ensures
        r@ == dashed(name@),
{
    let cs = chars_of(name.as_str());
    let mut out = String::new();
    let mut i: usize = 0;
    while i < cs.len()
        invariant
            cs@ == name@,
            i <= cs@.len(),
            out@ == dashed(name@).subrange(0, i as int),
        decreases cs@.len() - i,
    {
        let c = cs[i];
        if c == '_' {
            push_char(&mut out, '-');
        } else {
            push_char(&mut out, c);
        }
        i = i + 1;
        assert(out@ =~= dashed(name@).subrange(0, i as int));
    }
    assert(out@ =~= dashed(name@));
    out
}

impl LintRule for KebabCaseVarsRule {
    fn name(&self) -> (r: &'static str)
        ensures
            r@ == "kebab-case-vars"@,
    {
        "kebab-case-vars"
    }

    open spec fn lint_diags(&self, decls: Seq<DeclView>) -> Seq<DiagnosticView> {
        kebab_diags(decls, decls.len() as int)
    }

    fn check_file(&self, file: &File, diags: &mut DiagnosticBag) {
        let ghost ds = file@;
        let mut i: usize = 0;
        while i < file.decls.len()
            invariant
                ds == file@,
                i <= file.decls@.len(),
                ds.len() == file.decls@.len(),
                diags@ == old(diags)@ + kebab_diags(ds, i as int),
            decreases file.decls@.len() - i,
        {
            let decl = &file.decls[i];
            assert(ds[i as int] == decl@);
            if !kebab_name(&decl.var_name) {
                let dashed_name = dash_underscores(&decl.var_name);
                let suggested = to_lowercase(dashed_name.as_str());
                report_kebab_case(&decl.var_name, decl.span, &suggested, diags);
            }
            i = i + 1;
            assert(diags@ =~= old(diags)@ + kebab_diags(ds, i as int));
        }
    }
}

// ---------------------------------------------------------------------------
// What the rules report, over all declarations.
// ---------------------------------------------------------------------------

/// The kebab-case rule (what `KebabCaseVarsRule::check_file` reports, and
/// what compiling with the rule on reports) warns on a declaration exactly
/// when its variable name holds a character other than an ASCII lowercase
/// letter, an ASCII digit or `-`: every warning is a LINT001 warning on such
/// a declaration, and every such declaration gets its warning.
pub proof fn law_kebab_warns_on_other_chars(ds: Seq<DeclView>)
    ensures
        forall|k: int|
            0 <= k < kebab_diags(ds, ds.len() as int).len() ==> exists|i: int|
                #![trigger ds[i]]
                0 <= i < ds.len() && #[trigger] kebab_diags(ds, ds.len() as int)[k] == kebab_warning(
                    ds[i].var_name,
                    ds[i].span,
                    kebab_suggestion(ds[i].var_name),
                ) && exists|j: int|
                    0 <= j < ds[i].var_name.len() && !(('a' <= #[trigger] ds[i].var_name[j]
                        && ds[i].var_name[j] <= 'z') || ('0' <= ds[i].var_name[j]
                        && ds[i].var_name[j] <= '9') || ds[i].var_name[j] == '-'),
        forall|i: int, j: int|
            0 <= i < ds.len() && 0 <= j < ds[i].var_name.len() && !(('a' <= #[trigger] ds[i].var_name[j]
                && ds[i].var_name[j] <= 'z') || ('0' <= ds[i].var_name[j] && ds[i].var_name[j]
                <= '9') || ds[i].var_name[j] == '-') ==> kebab_diags(ds, ds.len() as int).contains(
                kebab_warning(ds[i].var_name, ds[i].span, kebab_suggestion(ds[i].var_name)),
            ),
        (forall|i: int, j: int|
            0 <= i < ds.len() && 0 <= j < ds[i].var_name.len() ==> ('a' <= #[trigger] ds[i].var_name[j]
                && ds[i].var_name[j] <= 'z') || ('0' <= ds[i].var_name[j] && ds[i].var_name[j]
                <= '9') || ds[i].var_name[j] == '-') ==> kebab_diags(ds, ds.len() as int).len() == 0,
{
    lemma_kebab_prefix(ds, ds.len() as int);
}

proof fn lemma_kebab_prefix(ds: Seq<DeclView>, n: int)
    requires
        0 <= n <= ds.len(),
    ensures
        forall|k: int|
            0 <= k < kebab_diags(ds, n).len() ==> exists|i: int|
                #![trigger ds[i]]
                0 <= i < n && #[trigger] kebab_diags(ds, n)[k] == kebab_warning(
                    ds[i].var_name,
                    ds[i].span,
                    kebab_suggestion(ds[i].var_name),
                ) && !is_kebab(ds[i].var_name),
        forall|i: int|
            0 <= i < n && !is_kebab(#[trigger] ds[i].var_name) ==> kebab_diags(ds, n).contains(
                kebab_warning(ds[i].var_name, ds[i].span, kebab_suggestion(ds[i].var_name)),
            ),
        (forall|i: int| 0 <= i < n ==> is_kebab(#[trigger] ds[i].var_name)) ==> kebab_diags(ds, n).len()
            == 0,
    decreases n,
{
    if n > 0 {
        lemma_kebab_prefix(ds, n - 1);
        let prev = kebab_diags(ds, n - 1);
        let cur = kebab_diags(ds, n);
        assert(cur == prev + kebab_diag(ds[n - 1]));
        assert forall|k: int| 0 <= k < cur.len() implies exists|i: int|
            #![trigger ds[i]]
            0 <= i < n && #[trigger] cur[k] == kebab_warning(
                ds[i].var_name,
                ds[i].span,
                kebab_suggestion(ds[i].var_name),
            ) && !is_kebab(ds[i].var_name) by {
            if k < prev.len() {
                assert(cur[k] == prev[k]);
            } else {
                assert(cur[k] == kebab_diag(ds[n - 1])[k - prev.len()]);
            }
        }
        assert forall|i: int|
            0 <= i < n && !is_kebab(#[trigger] ds[i].var_name) implies cur.contains(
                kebab_warning(ds[i].var_name, ds[i].span, kebab_suggestion(ds[i].var_name)),
            ) by {
            let w = kebab_warning(ds[i].var_name, ds[i].span, kebab_suggestion(ds[i].var_name));
            if i < n - 1 {
                let k = choose|k: int| 0 <= k < prev.len() && prev[k] == w;
                assert(cur[k] == w);
            } else {
                assert(cur[prev.len() as int] == w);
            }
        }
        if forall|i: int| 0 <= i < n ==> is_kebab(#[trigger] ds[i].var_name) {
            assert(is_kebab(ds[n - 1].var_name));
        }
    }
}

/// What the hex-case rule reports (in `HexCaseRule::check_file`, and when
/// compiling with the rule on) depends on the declarations' values alone:
/// two lists of declarations with the same values, one by one, get the same
/// warnings, whatever their names, paths, spans and whether each is a Sass
/// or a CSS variable.
pub proof fn law_hex_case_reads_values_only(case: HexCase, ds1: Seq<DeclView>, ds2: Seq<DeclView>)
    requires
        ds1.len() == ds2.len(),
        forall|i: int| 0 <= i < ds1.len() ==> (#[trigger] ds1[i]).value == ds2[i].value,
    ensures
        hex_diags(case, ds1, ds1.len() as int) == hex_diags(case, ds2, ds2.len() as int),
{
    lemma_hex_same_values(case, ds1, ds2, ds1.len() as int);
}

proof fn lemma_hex_same_values(case: HexCase, ds1: Seq<DeclView>, ds2: Seq<DeclView>, n: int)
    requires
        0 <= n <= ds1.len(),
        ds1.len() == ds2.len(),
        forall|i: int| 0 <= i < ds1.len() ==> (#[trigger] ds1[i]).value == ds2[i].value,
    ensures
        hex_diags(case, ds1, n) == hex_diags(case, ds2, n),
    decreases n,
{
    if n > 0 {
        lemma_hex_same_values(case, ds1, ds2, n - 1);
        assert(ds1[n - 1].value == ds2[n - 1].value);
    }
}

/// The hex-case rule warns on every declaration whose raw value starts with
/// `#` and differs from its spelling in the configured case, and on nothing
/// else: each such declaration gets a LINT002 warning at its value's span
/// with that spelling as fix, and each warning is one of these.
pub proof fn law_hex_case_warns(case: HexCase, ds: Seq<DeclView>)
    ensures
        forall|i: int|
            0 <= i < ds.len() && (#[trigger] ds[i]).value is Raw && ds[i].value->Raw_text.len() > 0
                && ds[i].value->Raw_text[0] == '#' && ds[i].value->Raw_text != hex_expected(
                case,
                ds[i].value->Raw_text,
            ) ==> exists|k: int|
                0 <= k < hex_diags(case, ds, ds.len() as int).len() && #[trigger] hex_diags(
                    case,
                    ds,
                    ds.len() as int,
                )[k].code == "LINT002"@ && hex_diags(case, ds, ds.len() as int)[k].severity
                    == Severity::Warning && hex_diags(case, ds, ds.len() as int)[k].span
                    == ds[i].value->Raw_span && hex_diags(case, ds, ds.len() as int)[k].fix == Some(
                    (ds[i].value->Raw_span, hex_expected(case, ds[i].value->Raw_text)),
                ),
        forall|k: int|
            0 <= k < hex_diags(case, ds, ds.len() as int).len() ==> exists|i: int|
                #![trigger ds[i]]
                0 <= i < ds.len() && ds[i].value is Raw && ds[i].value->Raw_text.len() > 0
                    && ds[i].value->Raw_text[0] == '#' && ds[i].value->Raw_text != hex_expected(
                    case,
                    ds[i].value->Raw_text,
                ) && (#[trigger] hex_diags(case, ds, ds.len() as int)[k]).code == "LINT002"@
                    && hex_diags(case, ds, ds.len() as int)[k].span == ds[i].value->Raw_span
                    && hex_diags(case, ds, ds.len() as int)[k].fix == Some(
                    (ds[i].value->Raw_span, hex_expected(case, ds[i].value->Raw_text)),
                ),
{
    lemma_hex_prefix(case, ds, ds.len() as int);
}

/// Whether `d` has a raw value starting with `#` that `case` spells
/// otherwise, and `w` is the warning on it.
spec fn warns_on(case: HexCase, d: DeclView, w: DiagnosticView) -> bool {
    &&& d.value is Raw
    &&& d.value->Raw_text.len() > 0
    &&& d.value->Raw_text[0] == '#'
    &&& d.value->Raw_text != hex_expected(case, d.value->Raw_text)
    &&& w.code == "LINT002"@
    &&& w.severity == Severity::Warning
    &&& w.span == d.value->Raw_span
    &&& w.fix == Some((d.value->Raw_span, hex_expected(case, d.value->Raw_text)))
}

proof fn lemma_hex_prefix(case: HexCase, ds: Seq<DeclView>, n: int)
    requires
        0 <= n <= ds.len(),
    ensures
        forall|i: int|
            0 <= i < n && (#[trigger] ds[i]).value is Raw && ds[i].value->Raw_text.len() > 0
                && ds[i].value->Raw_text[0] == '#' && ds[i].value->Raw_text != hex_expected(
                case,
                ds[i].value->Raw_text,
            ) ==> exists|k: int|
                0 <= k < hex_diags(case, ds, n).len() && warns_on(
                    case,
                    ds[i],
                    #[trigger] hex_diags(case, ds, n)[k],
                ),
        forall|k: int|
            0 <= k < hex_diags(case, ds, n).len() ==> exists|i: int|
                #![trigger ds[i]]
                0 <= i < n && warns_on(case, ds[i], #[trigger] hex_diags(case, ds, n)[k]),
    decreases n,
{
    if n > 0 {
        lemma_hex_prefix(case, ds, n - 1);
        let prev = hex_diags(case, ds, n - 1);
        let cur = hex_diags(case, ds, n);
        let last = hex_diag(case, ds[n - 1]);
        assert(cur == prev + last);
        assert forall|i: int|
            0 <= i < n && (#[trigger] ds[i]).value is Raw && ds[i].value->Raw_text.len() > 0
                && ds[i].value->Raw_text[0] == '#' && ds[i].value->Raw_text != hex_expected(
                case,
                ds[i].value->Raw_text,
            ) implies exists|k: int| 0 <= k < cur.len() && warns_on(case, ds[i], #[trigger] cur[k]) by {
            if i < n - 1 {
                let k = choose|k: int| 0 <= k < prev.len() && warns_on(case, ds[i], #[trigger] prev[k]);
                assert(cur[k] == prev[k]);
            } else {
                assert(cur[prev.len() as int] == last[0]);
                assert(warns_on(case, ds[i], cur[prev.len() as int]));
            }
        }
        assert forall|k: int| 0 <= k < cur.len() implies exists|i: int|
            #![trigger ds[i]]
            0 <= i < n && warns_on(case, ds[i], #[trigger] cur[k]) by {
            if k < prev.len() {
                assert(cur[k] == prev[k]);
                let i = choose|i: int| #![trigger ds[i]] 0 <= i < n - 1 && warns_on(case, ds[i], prev[k]);
                assert(warns_on(case, ds[i], cur[k]));
            } else {
                assert(cur[k] == last[k - prev.len()]);
                assert(warns_on(case, ds[n - 1], cur[k]));
            }
        }
    }
}

} // verus!
