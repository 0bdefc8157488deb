//! The compilation of one source: lexing, parsing, lint rules, analysis,
//! lowering, the passes and code generation; and the checks that a project
//! run makes of each output.

use vstd::prelude::*;
use vstd::string::StringSliceAdditionalSpecFns;
use crate::lexer::{Lexer, lex, lex_faults};
use crate::parser::{Parser, FileParse, parse_decls};
use crate::diagnostics::{DiagnosticBag, DiagnosticView, Severity, has_error, promote_all};
use crate::ast::DeclView;
use crate::sema::{analyze_with, analysis_diags, table_of, table_upto, shape_diags, decl_diags_upto, sparse_diags};
use crate::holes::{lemma_lower_no_holes, lemma_holes_upto};
use crate::ordering::{lemma_fill_get, lemma_fill_well_keyed, lemma_order_get};
use crate::sema::SymbolView;
use crate::shapes::{
    lemma_shapes_from_errors, lemma_decls_rooted, lemma_table_paths, lemma_lowerable, lemma_lower_reads,
    lemma_no_shape_diags, tree_get,
};
use crate::ir::{IrTree, PassConfig, lower, run_passes, passes_tree, lower_tree, fill_tree, leaf_of};
use crate::codegen::{generate_ts, generate_js, generate_dts, ts_text, js_text, dts_text};
use crate::linter::LintRule;
use crate::lint_rules::{KebabCaseVarsRule, HexCaseRule, kebab_diags, hex_diags};
use crate::config::LintConfig;
use crate::discovery::{map_output_path, output_path};
use crate::text::{string_of, concat3};

verus! {

/// What parsing a source with bytes `b` gives.
pub open spec fn source_parse(b: Seq<u8>) -> FileParse {
    parse_decls(b, lex(b).0)
}

/// Whether the kebab-case rule runs: unless turned off.
pub open spec fn kebab_on(c: LintConfig) -> bool {
    match c.kebab_case_vars {
        Some(on) => on,
        None => true,
    }
}

/// What the configured lint rules report on `ds`: the kebab-case rule, then
/// the hex-case rule.
pub open spec fn lint_result(lint: Option<LintConfig>, ds: Seq<DeclView>) -> Seq<DiagnosticView> {
    match lint {
        None => seq![],
        Some(c) => (if kebab_on(c) {
            kebab_diags(ds, ds.len() as int)
        } else {
            seq![]
        }) + match c.hex_case {
            Some(case) => hex_diags(case, ds, ds.len() as int),
            None => seq![],
        },
    }
}

/// The diagnostics of a source once it has been read, linted and analyzed;
/// in strict mode every warning is an error.
pub open spec fn checked_diags(
    b: Seq<u8>,
    strict: bool,
    allow_name_mismatch: bool,
    lint: Option<LintConfig>,
) -> Seq<DiagnosticView> {
    let p = source_parse(b);
    let ds = lex(b).1 + p.diags + lint_result(lint, p.decls) + analysis_diags(p.decls, !allow_name_mismatch);
    if strict {
        promote_all(ds)
    } else {
        ds
    }
}

/// The theme tree of a source that compiles.
pub open spec fn source_tree(b: Seq<u8>, cfg: (bool, Seq<(Seq<char>, Seq<Seq<char>>)>)) -> IrTree {
    passes_tree(lower_tree(table_of(source_parse(b).decls)), cfg)
}

/// What compiling a source with bytes `b` gives: the diagnostics, when
/// reading it finds an error, or when linting and analysis (with warnings
/// made errors in strict mode) do; else the module and, for JavaScript with
/// declarations, the declaration file (a source that declares nothing gives
/// an empty theme).
pub open spec fn compile_result(
    b: Seq<u8>,
    cfg: (bool, Seq<(Seq<char>, Seq<Seq<char>>)>),
    allow_name_mismatch: bool,
    lint: Option<LintConfig>,
    is_js: bool,
    declaration: bool,
) -> Result<Option<(Seq<char>, Option<Seq<char>>)>, Seq<DiagnosticView>> {
    let p = source_parse(b);
    let read = lex(b).1 + p.diags;
    let checked = checked_diags(b, cfg.0, allow_name_mismatch, lint);
    if has_error(read) {
        Err(read)
    } else if has_error(checked) {
        Err(checked)
    } else {
        let t = source_tree(b, cfg);
        Ok(
            Some(
                (
                    if is_js {
                        js_text(t)
                    } else {
                        ts_text(t)
                    },
                    if declaration && is_js {
                        Some(dts_text(t))
                    } else {
                        None
                    },
                ),
            ),
        )
    }
}

pub open spec fn output_view(r: Result<Option<(String, Option<String>)>, DiagnosticBag>) -> Result<
    Option<(Seq<char>, Option<Seq<char>>)>,
    Seq<DiagnosticView>,
> {
    match r {
        Ok(None) => Ok(None),
        Ok(Some((main, decl))) => Ok(
            Some(
                (
                    main@,
                    match decl {
                        Some(d) => Some(d@),
                        None => None,
                    },
                ),
            ),
        ),
        Err(bag) => Err(bag@),
    }
}

/// Compiles the source `src`: reads it, runs the configured lint rules and
/// the analysis (the name check unless `allow_name_mismatch`), and when
/// nothing is an error lowers it, runs the passes and generates the module
/// (JavaScript with `is_js`) and, for JavaScript with `declaration`, the
/// declaration file. `compile_result` states the outcome.
pub fn compile(
    src: &str,
    cfg: &PassConfig,
    allow_name_mismatch: bool,
    lint_cfg: Option<&LintConfig>,
    is_js: bool,
    declaration: bool,
) -> (r: Result<Option<(String, Option<String>)>, DiagnosticBag>)
    requires
        !lex_faults(src.spec_bytes()),
        !source_parse(src.spec_bytes()).fault,
    ensures
        output_view(r) == compile_result(
            src.spec_bytes(),
            cfg@,
            allow_name_mismatch,
            match lint_cfg {
                Some(c) => Some(*c),
                None => None,
            },
            is_js,
            declaration,
        ),
{
    let ghost b = src.spec_bytes();
    let (tokens, lex_diags) = Lexer::new(src).tokenize();
    let mut diags = DiagnosticBag::new();
    diags.extend(lex_diags);
    let parser = Parser::new(src, tokens.as_slice(), &mut diags);
    let file = parser.parse_file();
    assert(diags@ =~= lex(b).1 + source_parse(b).diags);
    if diags.has_errors() {
        return Err(diags);
    }
    if let Some(l_cfg) = lint_cfg {
        let kebab = match l_cfg.kebab_case_vars {
            Some(on) => on,
            None => true,
        };
        if kebab {
            let rule = KebabCaseVarsRule;
            rule.check_file(&file, &mut diags);
        }
        match l_cfg.hex_case {
            Some(case) => {
                let rule = HexCaseRule::new(case);
                rule.check_file(&file, &mut diags);
            },
            None => {},
        }
    }
    let ghost lint = match lint_cfg {
        Some(c) => Some(*c),
        None => None,
    };
    assert(diags@ == lex(b).1 + source_parse(b).diags + lint_result(lint, file@));
    let table = analyze_with(&file, &mut diags, !allow_name_mismatch);
    if cfg.strict {
        diags.promote_warnings_to_errors();
    }
    assert(diags@ == checked_diags(b, cfg.strict, allow_name_mismatch, lint));
    if diags.has_errors() {
        return Err(diags);
    }
    proof {
        lemma_no_shape_errors(
            lex(b).1 + source_parse(b).diags + lint_result(lint, file@),
            file@,
            !allow_name_mismatch,
            cfg.strict,
        );
        lemma_decls_rooted(b, lex(b).0, 0);
        lemma_table_paths(file@, file@.len() as int);
        lemma_lowerable(table@);
        if cfg.strict {
            lemma_strict_no_gaps(
                lex(b).1 + source_parse(b).diags + lint_result(lint, file@),
                file@,
                !allow_name_mismatch,
            );
            lemma_lower_no_holes(table@);
        }
    }
    let ir = lower(&table);
    let ir = run_passes(ir, cfg);
    let main_code = if is_js {
        generate_js(&ir)
    } else {
        generate_ts(&ir)
    };
    let decl_code = if declaration && is_js {
        Some(generate_dts(&ir))
    } else {
        None
    };
    Ok(Some((main_code, decl_code)))
}

/// Compiles `src` as `compile` does; `None` where reading it would cut the
/// source inside a character or meet an array index too large for `u32`,
/// the sources that `compile` does not take.
pub fn try_compile(
    src: &str,
    cfg: &PassConfig,
    allow_name_mismatch: bool,
    lint_cfg: Option<&LintConfig>,
    is_js: bool,
    declaration: bool,
) -> (r: Option<Result<Option<(String, Option<String>)>, DiagnosticBag>>)
    ensures
        r is None <==> (lex_faults(src.spec_bytes()) || source_parse(src.spec_bytes()).fault),
        r matches Some(out) ==> output_view(out) == compile_result(
            src.spec_bytes(),
            cfg@,
            allow_name_mismatch,
            match lint_cfg {
                Some(c) => Some(*c),
                None => None,
            },
            is_js,
            declaration,
        ),
{
    if Lexer::new(src).faults() {
        return None;
    }
    let (tokens, _lex_diags) = Lexer::new(src).tokenize();
    let mut scratch = DiagnosticBag::new();
    let parser = Parser::new(src, tokens.as_slice(), &mut scratch);
    match parser.try_parse_file() {
        None => None,
        Some(_) => Some(compile(src, cfg, allow_name_mismatch, lint_cfg, is_js, declaration)),
    }
}

/// In strict mode, a source without errors has no diagnostic at all, so
/// no gap warning either.
proof fn lemma_strict_no_gaps(pre: Seq<DiagnosticView>, ds: Seq<DeclView>, check_names: bool)
    requires
        !has_error(promote_all(pre + analysis_diags(ds, check_names))),
    ensures
        sparse_diags(table_of(ds)).len() == 0,
{
    let all = pre + analysis_diags(ds, check_names);
    if all.len() > 0 {
        assert(promote_all(all)[0].severity == Severity::Error);
    }
    assert(all.len() == 0);
}

/// Analysis that reports no error, once warnings are made errors or not,
/// found no shape conflict: each shape diagnostic is an error.
proof fn lemma_no_shape_errors(pre: Seq<DiagnosticView>, ds: Seq<DeclView>, check_names: bool, strict: bool)
    requires
        !has_error(
            if strict {
                promote_all(pre + analysis_diags(ds, check_names))
            } else {
                pre + analysis_diags(ds, check_names)
            },
        ),
    ensures
        shape_diags(table_of(ds)).len() == 0,
{
    let sd = shape_diags(table_of(ds));
    if sd.len() > 0 {
        lemma_shapes_from_errors(table_of(ds), 0, seq![]);
        let all = pre + analysis_diags(ds, check_names);
        let k: int = (pre.len() + decl_diags_upto(ds, ds.len() as int, check_names).len()) as int;
        assert(all[k] == sd[0]);
        assert(sd[0].severity == Severity::Error);
        if strict {
            assert(promote_all(all)[k].severity == Severity::Error);
        }
    }
}

/// Without errors in the declaration checks, no path is declared twice: the
/// table holds the declarations themselves, in order.
proof fn lemma_table_is_decls(ds: Seq<DeclView>, n: int, check_names: bool)
    requires
        0 <= n <= ds.len(),
        !has_error(decl_diags_upto(ds, n, check_names)),
    ensures
        table_upto(ds, n).len() == n,
        forall|j: int|
            0 <= j < n ==> #[trigger] table_upto(ds, n)[j] == (
                ds[j].path,
                SymbolView { value: ds[j].value, decl_span: ds[j].span },
            ),
    decreases n,
{
    if n > 0 {
        let prev = decl_diags_upto(ds, n - 1, check_names);
        let names = if check_names {
            crate::sema::name_diags(ds[n - 1])
        } else {
            seq![]
        };
        let dup = crate::sema::dup_diags(table_upto(ds, n - 1), ds[n - 1]);
        let all = prev + names + dup;
        assert(decl_diags_upto(ds, n, check_names) == all);
        assert(!has_error(prev)) by {
            if has_error(prev) {
                let i = choose|i: int| 0 <= i < prev.len() && (#[trigger] prev[i]).severity == Severity::Error;
                assert(all[i] == prev[i]);
            }
        }
        lemma_table_is_decls(ds, n - 1, check_names);
        if crate::sema::find_entry(table_upto(ds, n - 1), ds[n - 1].path) is Some {
            let k = (prev + names).len() as int;
            assert(all[k] == dup[0]);
        }
    }
}

/// Promoting warnings only adds errors.
proof fn lemma_promote_keeps_errors(ds: Seq<DiagnosticView>)
    ensures
        has_error(ds) ==> has_error(promote_all(ds)),
{
    if has_error(ds) {
        let i = choose|i: int| 0 <= i < ds.len() && (#[trigger] ds[i]).severity == Severity::Error;
        assert(promote_all(ds)[i].severity == Severity::Error);
    }
}

/// A source that compiles gives a theme object that holds, at the path of
/// each of its declarations, that declaration's value.
pub proof fn lemma_compiled_reads(
    b: Seq<u8>,
    cfg: (bool, Seq<(Seq<char>, Seq<Seq<char>>)>),
    allow_name_mismatch: bool,
    lint: Option<LintConfig>,
    k: int,
)
    requires
        !has_error(lex(b).1 + source_parse(b).diags),
        !has_error(checked_diags(b, cfg.0, allow_name_mismatch, lint)),
        0 <= k < source_parse(b).decls.len(),
    ensures
        tree_get(source_tree(b, cfg), source_parse(b).decls[k].path) == Some(
            IrTree::Leaf(leaf_of(source_parse(b).decls[k].value)),
        ),
{
    let ds = source_parse(b).decls;
    let cn = !allow_name_mismatch;
    let pre = lex(b).1 + source_parse(b).diags + lint_result(lint, ds);
    let all = pre + analysis_diags(ds, cn);
    lemma_promote_keeps_errors(all);
    assert(!has_error(all));
    lemma_no_shape_errors(pre, ds, cn, false);
    let dd = decl_diags_upto(ds, ds.len() as int, cn);
    assert(!has_error(dd)) by {
        if has_error(dd) {
            let i = choose|i: int| 0 <= i < dd.len() && (#[trigger] dd[i]).severity == Severity::Error;
            assert(all[pre.len() + i] == dd[i]);
        }
    }
    lemma_table_is_decls(ds, ds.len() as int, cn);
    let es = table_of(ds);
    lemma_decls_rooted(b, lex(b).0, 0);
    lemma_table_paths(ds, ds.len() as int);
    assert(es[k] == (ds[k].path, SymbolView { value: ds[k].value, decl_span: ds[k].span }));
    lemma_lower_reads(es, k);
    lemma_no_shape_diags(es, 0);
    lemma_holes_upto(es, es.len() as int);
    let t = lower_tree(es);
    lemma_fill_get(t, ds[k].path);
    lemma_fill_well_keyed(t);
    lemma_order_get(fill_tree(t), seq![], cfg.1, ds[k].path, leaf_of(ds[k].value));
}

/// What a project run found for its files: how many compiled and were
/// written or checked, and the diagnostics of each that did not.
pub struct ProjectResult {
    pub success_count: usize,
    pub errors: Vec<(String, DiagnosticBag)>,
}

/// The number of successes among `rs`.
pub open spec fn count_ok(rs: Seq<Result<(), (String, DiagnosticBag)>>) -> nat
    decreases rs.len(),
{
    if rs.len() == 0 {
        0
    } else {
        count_ok(rs.drop_last()) + if rs.last() is Ok {
            1nat
        } else {
            0nat
        }
    }
}

/// The failures among `rs`, in order, each with its path and diagnostics.
pub open spec fn failures(rs: Seq<Result<(), (String, DiagnosticBag)>>) -> Seq<(Seq<char>, Seq<DiagnosticView>)>
    decreases rs.len(),
{
    if rs.len() == 0 {
        seq![]
    } else {
        let rest = failures(rs.drop_last());
        match rs.last() {
            Ok(_) => rest,
            Err((path, bag)) => rest.push((path@, bag@)),
        }
    }
}

pub open spec fn errors_view(es: Seq<(String, DiagnosticBag)>) -> Seq<(Seq<char>, Seq<DiagnosticView>)> {
    es.map_values(|e: (String, DiagnosticBag)| (e.0@, e.1@))
}

impl ProjectResult {
    /// Tallies the outcome of each file: the successes counted, the
    /// failures kept in order.
    pub fn collect(results: Vec<Result<(), (String, DiagnosticBag)>>) -> (r: ProjectResult)
        ensures
            r.success_count == count_ok(results@),
            errors_view(r.errors@) == failures(results@),
    {
        let ghost rs = results@;
        let mut success_count: usize = 0;
        let mut errors: Vec<(String, DiagnosticBag)> = Vec::new();
        let n = results.len();
        for res in it: results
            invariant
                n == rs.len(),
                it.seq() == rs,
                success_count == count_ok(rs.take(it.index() as int)),
                count_ok(rs.take(it.index() as int)) <= it.index(),
                errors_view(errors@) == failures(rs.take(it.index() as int)),
        {
            let ghost idx = it.index() as int;
            assert(rs.take(idx + 1).drop_last() =~= rs.take(idx));
            assert(rs.take(idx + 1).last() == rs[idx]);
            match res {
                Ok(_) => {
                    success_count = success_count + 1;
                },
                Err(e) => {
                    errors.push(e);
                },
            }
            assert(errors_view(errors@) =~= failures(rs.take(idx + 1)));
        }
        assert(rs.take(rs.len() as int) =~= rs);
        ProjectResult { success_count, errors }
    }
}

/// What checking an output against the file on disk finds: nothing when
/// the file holds exactly the expected text; else that it is out of date,
/// or missing.
pub open spec fn drift_result(out_path: Seq<char>, existing: Option<Seq<char>>, expected: Seq<char>) -> Option<
    Seq<DiagnosticView>,
> {
    match existing {
        Some(text) => if text == expected {
            None
        } else {
            Some(
                seq![
                    crate::diagnostics::error_diag(
                        "DRIFT_ERROR"@,
                        "File "@ + out_path + " is out of date"@,
                        crate::span::Span { lo: 0, hi: 0 },
                    ),
                ],
            )
        },
        None => Some(
            seq![
                crate::diagnostics::error_diag(
                    "DRIFT_ERROR"@,
                    "File "@ + out_path + " is missing"@,
                    crate::span::Span { lo: 0, hi: 0 },
                ),
            ],
        ),
    }
}

/// Checks the output at `out_path`, whose current text is `existing`
/// (`None` when it cannot be read), against the `expected` text.
pub fn check_drift(out_path: &str, existing: Option<&str>, expected: &str) -> (r: Result<(), DiagnosticBag>)
    ensures
        match r {
            Ok(()) => drift_result(out_path@, match existing {
                Some(e) => Some(e@),
                None => None,
            }, expected@) is None,
            Err(bag) => drift_result(out_path@, match existing {
                Some(e) => Some(e@),
                None => None,
            }, expected@) == Some(bag@),
        },
{
    match existing {
        Some(text) => {
            let a = string_of(text);
            let b = string_of(expected);
            if a == b {
                Ok(())
            } else {
                let mut bag = DiagnosticBag::new();
                bag.error("DRIFT_ERROR", concat3("File ", out_path, " is out of date"), crate::span::Span::new(0, 0));
                assert(bag@ =~= drift_result(out_path@, Some(text@), expected@)->0);
                Err(bag)
            }
        },
        None => {
            let mut bag = DiagnosticBag::new();
            bag.error("DRIFT_ERROR", concat3("File ", out_path, " is missing"), crate::span::Span::new(0, 0));
            assert(bag@ =~= drift_result(out_path@, None, expected@)->0);
            Err(bag)
        },
    }
}

/// The outputs to write for a compiled source at `path`: the module at its
/// output path with extension `js` or `ts`, then the declaration file, if
/// there is one, at its output path with extension `d.ts`. An output whose
/// path cannot be mapped is left out.
pub open spec fn planned_outputs(
    path: Seq<char>,
    root: Seq<char>,
    out_dir: Seq<char>,
    is_js: bool,
    main: Seq<char>,
    decl: Option<Seq<char>>,
) -> Seq<(Seq<char>, Seq<char>)> {
    let ext = if is_js {
        "js"@
    } else {
        "ts"@
    };
    let m = match output_path(path, root, out_dir, ext) {
        Some(p) => seq![(p, main)],
        None => seq![],
    };
    let d = match decl {
        Some(text) => match output_path(path, root, out_dir, "d.ts"@) {
            Some(p) => seq![(p, text)],
            None => seq![],
        },
        None => seq![],
    };
    m + d
}

/// Each pair of strings by the views of its two strings.
pub open spec fn pairs_view(v: Seq<(String, String)>) -> Seq<(Seq<char>, Seq<char>)> {
    v.map_values(|e: (String, String)| (e.0@, e.1@))
}

/// Where each output of the source at `path` goes, with its text.
pub fn plan_outputs(
    path: &str,
    root: &str,
    output_dir: &str,
    is_js: bool,
    main_code: String,
    decl_code: Option<String>,
) -> (r: Vec<(String, String)>)
    ensures
        pairs_view(r@) == planned_outputs(
            path@,
            root@,
            output_dir@,
            is_js,
            main_code@,
            match decl_code {
                Some(d) => Some(d@),
                None => None,
            },
        ),
{
    let ghost main_v = main_code@;
    let ghost decl_v = match &decl_code {
        Some(d) => Some(d@),
        None => None,
    };
    let mut out: Vec<(String, String)> = Vec::new();
    let ext = if is_js {
        "js"
    } else {
        "ts"
    };
    match map_output_path(path, root, output_dir, ext) {
        Some(p) => {
            out.push((p, main_code));
        },
        None => {},
    }
    let ghost first = pairs_view(out@);
    match decl_code {
        Some(text) => match map_output_path(path, root, output_dir, "d.ts") {
            Some(p) => {
                out.push((p, text));
            },
            None => {},
        },
        None => {},
    }
    assert(pairs_view(out@) =~= planned_outputs(path@, root@, output_dir@, is_js, main_v, decl_v));
    out
}

} // verus!
