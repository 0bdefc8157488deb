//! The parser: reads `@theme` declarations from a token stream, reporting
//! syntax errors and recovering at the next `@theme` comment.

use vstd::prelude::*;
use vstd::utf8::*;
use vstd::string::*;
use crate::span::Span;
use crate::diagnostics::{DiagnosticBag, DiagnosticView, error_diag};
use crate::lexer::{Token, TokenKind, TokenKindView, TokenView, tokens_view};
use crate::ast::{
    PathSegment, SegmentView, Value, ValueView, ThemeDecl, DeclView, File, path_view,
    decls_view,
};
use crate::text::{
    is_ascii_ws_char, is_ascii_digit_char, unicode_alphanumeric, unicode_white_space,
    char_is_alphanumeric, char_is_whitespace, push_char, string_of, concat2, chars_of, str_slice,
    nat_decimal, digit_char,
};

verus! {

broadcast use vstd::utf8::group_utf8_lib;

// ---------------------------------------------------------------------------
// The path grammar of `@theme` comments, over the comment's characters.
// ---------------------------------------------------------------------------

pub open spec fn skip_ws_chars(t: Seq<char>, i: int) -> int
    decreases t.len() - i,
{
    if 0 <= i < t.len() && is_ascii_ws_char(t[i]) {
        skip_ws_chars(t, i + 1)
    } else {
        i
    }
}

pub open spec fn is_path_char(c: char) -> bool {
    unicode_alphanumeric(c) || c == '_' || c == '$' || c == '-'
}

pub open spec fn ident_end(t: Seq<char>, i: int) -> int
    decreases t.len() - i,
{
    if 0 <= i < t.len() && is_path_char(t[i]) {
        ident_end(t, i + 1)
    } else {
        i
    }
}

pub open spec fn digit_chars_end(t: Seq<char>, i: int) -> int
    decreases t.len() - i,
{
    if 0 <= i < t.len() && is_ascii_digit_char(t[i]) {
        digit_chars_end(t, i + 1)
    } else {
        i
    }
}

/// The decimal value of the digits `t[lo..hi]`.
pub open spec fn decimal_value(t: Seq<char>, lo: int, hi: int) -> int
    decreases hi - lo,
{
    if hi <= lo {
        0
    } else {
        decimal_value(t, lo, hi - 1) * 10 + (t[hi - 1] as int - '0' as int)
    }
}

pub proof fn lemma_runs(t: Seq<char>, i: int)
    requires
        0 <= i <= t.len(),
    ensures
        i <= skip_ws_chars(t, i) <= t.len(),
        i <= ident_end(t, i) <= t.len(),
        i <= digit_chars_end(t, i) <= t.len(),
    decreases t.len() - i,
{
    if i < t.len() {
        lemma_runs(t, i + 1);
    }
}

/// The outcome of reading a path: its segments, a syntax error with its
/// code and message, or an index too large for `u32`.
pub enum PathParse {
    Parsed(Seq<SegmentView>),
    Invalid(Seq<char>, Seq<char>),
    Overflow,
}

/// The outcome of reading the `[n]` suffixes that follow a field.
pub enum SuffixParse {
    Parsed(Seq<SegmentView>, int),
    Invalid(Seq<char>, Seq<char>),
    Overflow,
}

/// Reads `[n]` suffixes starting at `p`.
pub open spec fn suffixes_at(t: Seq<char>, p: int) -> SuffixParse
    decreases t.len() - p,
{
    if 0 <= p < t.len() && t[p] == '[' {
        let a = skip_ws_chars(t, p + 1);
        let k = digit_chars_end(t, a);
        if k == a {
            SuffixParse::Invalid("TC0105"@, "expected number in index suffix"@)
        } else {
            let c = skip_ws_chars(t, k);
            if c >= t.len() || t[c] != ']' {
                SuffixParse::Invalid("TC0106"@, "expected ']' after index"@)
            } else if decimal_value(t, a, k) > u32::MAX {
                SuffixParse::Overflow
            } else {
                proof {
                    lemma_runs(t, p + 1);
                    lemma_runs(t, a);
                    lemma_runs(t, k);
                    lemma_runs(t, c + 1);
                }
                match suffixes_at(t, skip_ws_chars(t, c + 1)) {
                    SuffixParse::Parsed(segs, q) => SuffixParse::Parsed(
                        seq![SegmentView::Index(decimal_value(t, a, k) as u32)] + segs,
                        q,
                    ),
                    other => other,
                }
            }
        }
    } else {
        SuffixParse::Parsed(seq![], p)
    }
}

/// Reads a field, its suffixes, and, after a `.`, the rest of the path,
/// starting at `i`.
pub open spec fn path_from(t: Seq<char>, i: int) -> PathParse
    decreases t.len() - i,
{
    if i < 0 || i > t.len() {
        PathParse::Invalid(seq![], seq![])
    } else {
        let i0 = skip_ws_chars(t, i);
        let j = ident_end(t, i0);
        if j == i0 {
            PathParse::Invalid("TC0104"@, "expected path segment"@)
        } else {
            proof {
                lemma_runs(t, i);
                lemma_runs(t, i0);
                lemma_runs(t, j);
                lemma_suffixes_pos(t, skip_ws_chars(t, j));
            }
            let field = SegmentView::Field(t.subrange(i0, j));
            match suffixes_at(t, skip_ws_chars(t, j)) {
                SuffixParse::Parsed(idx, p) => {
                    if p < t.len() && t[p] == '.' {
                        match path_from(t, p + 1) {
                            PathParse::Parsed(rest) => PathParse::Parsed(seq![field] + idx + rest),
                            other => other,
                        }
                    } else if p < t.len() {
                        PathParse::Invalid("TC0107"@, "trailing characters in path"@)
                    } else {
                        PathParse::Parsed(seq![field] + idx)
                    }
                },
                SuffixParse::Invalid(c, m) => PathParse::Invalid(c, m),
                SuffixParse::Overflow => PathParse::Overflow,
            }
        }
    }
}

/// Reads the path written in a `@theme` comment.
pub open spec fn parse_path(t: Seq<char>) -> PathParse {
    if skip_ws_chars(t, 0) >= t.len() {
        PathParse::Invalid("TC0103"@, "empty path in @theme annotation"@)
    } else {
        path_from(t, 0)
    }
}

pub proof fn lemma_suffixes_pos(t: Seq<char>, p: int)
    requires
        0 <= p <= t.len(),
    ensures
        suffixes_at(t, p) matches SuffixParse::Parsed(_, q) ==> p <= q <= t.len(),
    decreases t.len() - p,
{
    if 0 <= p < t.len() && t[p] == '[' {
        lemma_runs(t, p + 1);
        let a = skip_ws_chars(t, p + 1);
        lemma_runs(t, a);
        let k = digit_chars_end(t, a);
        lemma_runs(t, k);
        let c = skip_ws_chars(t, k);
        if c < t.len() {
            lemma_runs(t, c + 1);
            lemma_suffixes_pos(t, skip_ws_chars(t, c + 1));
        }
    }
}

/// The `[n]` suffixes written for the indices `ix`, one after another, each
/// index in decimal.
pub open spec fn index_suffixes(ix: Seq<u32>) -> Seq<char>
    decreases ix.len(),
{
    if ix.len() == 0 {
        seq![]
    } else {
        seq!['['] + nat_decimal(ix[0] as nat) + seq![']'] + index_suffixes(ix.drop_first())
    }
}

/// Index suffixes are read in the order they are written: after any text
/// `pre`, the suffixes written for the indices `ix`, in that order, read as
/// the index segments of `ix` in the same order, ending at the end of the
/// text.
pub proof fn law_suffixes_in_written_order(pre: Seq<char>, ix: Seq<u32>)
    ensures
        suffixes_at(pre + index_suffixes(ix), pre.len() as int) == SuffixParse::Parsed(
            ix.map_values(|i: u32| SegmentView::Index(i)),
            (pre + index_suffixes(ix)).len() as int,
        ),
    decreases ix.len(),
{
    let t = pre + index_suffixes(ix);
    let p = pre.len() as int;
    if ix.len() == 0 {
        assert(t =~= pre);
        assert(ix.map_values(|i: u32| SegmentView::Index(i)) =~= seq![]);
    } else {
        let d = nat_decimal(ix[0] as nat);
        let pre2 = pre + seq!['['] + d + seq![']'];
        let rest = ix.drop_first();
        assert(t =~= pre2 + index_suffixes(rest));
        lemma_decimal_digits(ix[0] as nat);
        let a = p + 1;
        let k = a + d.len();
        assert(t[p] == '[');
        assert forall|j: int| a <= j < k implies t[j] == d[j - a] by {}
        assert(t[k] == ']');
        assert(!is_ascii_ws_char(t[a])) by {
            assert(t[a] == d[0]);
        }
        assert(skip_ws_chars(t, a) == a);
        lemma_digit_run_end(t, a, k);
        assert(t.subrange(a, k) =~= d);
        lemma_decimal_value_of(t, a, ix[0] as nat);
        assert(skip_ws_chars(t, k) == k);
        let c1 = k + 1;
        assert(c1 == pre2.len());
        if rest.len() > 0 {
            assert(index_suffixes(rest)[0] == '[');
            assert(t[c1] == '[');
        }
        assert(skip_ws_chars(t, c1) == c1);
        law_suffixes_in_written_order(pre2, rest);
        assert(ix.map_values(|i: u32| SegmentView::Index(i)) =~= seq![SegmentView::Index(ix[0])]
            + rest.map_values(|i: u32| SegmentView::Index(i)));
    }
}

/// A field name followed by index suffixes reads as the field and then the
/// indices, in the order the suffixes are written: `f[i][j]` is the path
/// `[Field(f), Index(i), Index(j)]`. The name `f` is any run of path
/// characters that does not start with whitespace, and `[` must end it, as
/// it does where `[` is not alphanumeric (`char::is_alphanumeric('[')` is
/// false).
pub proof fn law_path_indices_in_written_order(f: Seq<char>, ix: Seq<u32>)
    requires
        f.len() > 0,
        !is_ascii_ws_char(f[0]),
        forall|i: int| 0 <= i < f.len() ==> is_path_char(#[trigger] f[i]),
        !unicode_alphanumeric('['),
    ensures
        parse_path(f + index_suffixes(ix)) == PathParse::Parsed(
            seq![SegmentView::Field(f)] + ix.map_values(|i: u32| SegmentView::Index(i)),
        ),
{
    let t = f + index_suffixes(ix);
    let n = f.len() as int;
    assert(t[0] == f[0]);
    assert(skip_ws_chars(t, 0) == 0);
    if ix.len() > 0 {
        assert(index_suffixes(ix)[0] == '[');
        assert(t[n] == '[');
    }
    lemma_ident_run_end(t, 0, n);
    assert(t.subrange(0, n) =~= f);
    assert(skip_ws_chars(t, n) == n);
    law_suffixes_in_written_order(f, ix);
    lemma_runs(t, 0);
    lemma_runs(t, n);
    lemma_suffixes_pos(t, n);
}

proof fn lemma_ident_run_end(t: Seq<char>, i: int, e: int)
    requires
        0 <= i <= e <= t.len(),
        forall|j: int| i <= j < e ==> is_path_char(#[trigger] t[j]),
        e == t.len() || !is_path_char(t[e]),
    ensures
        ident_end(t, i) == e,
    decreases e - i,
{
    if i < e {
        lemma_ident_run_end(t, i + 1, e);
    }
}

proof fn lemma_digit_run_end(t: Seq<char>, i: int, e: int)
    requires
        0 <= i <= e <= t.len(),
        forall|j: int| i <= j < e ==> is_ascii_digit_char(#[trigger] t[j]),
        e == t.len() || !is_ascii_digit_char(t[e]),
    ensures
        digit_chars_end(t, i) == e,
    decreases e - i,
{
    if i < e {
        lemma_digit_run_end(t, i + 1, e);
    }
}

/// The decimal representation of a number is a non-empty run of digits.
proof fn lemma_decimal_digits(n: nat)
    ensures
        nat_decimal(n).len() > 0,
        forall|j: int| 0 <= j < nat_decimal(n).len() ==> is_ascii_digit_char(#[trigger] nat_decimal(n)[j]),
    decreases n,
{
    if n >= 10 {
        lemma_decimal_digits(n / 10);
    }
    lemma_digit_char(n % 10);
}

proof fn lemma_digit_char(d: nat)
    requires
        d < 10,
    ensures
        is_ascii_digit_char(digit_char(d)),
        digit_char(d) as int - '0' as int == d,
{
    assert(digit_char(d) as int == d + 48);
}

/// Reading the digits of `n`, where they stand in `t` from `lo` on, gives `n`.
proof fn lemma_decimal_value_of(t: Seq<char>, lo: int, n: nat)
    requires
        0 <= lo,
        lo + nat_decimal(n).len() <= t.len(),
        t.subrange(lo, lo + nat_decimal(n).len()) == nat_decimal(n),
    ensures
        decimal_value(t, lo, lo + nat_decimal(n).len()) == n,
    decreases n,
{
    let d = nat_decimal(n);
    let hi = lo + d.len();
    lemma_digit_char(n % 10);
    if n < 10 {
        assert(t[lo] == d[0]);
        assert(decimal_value(t, lo, lo) == 0);
    } else {
        let d2 = nat_decimal(n / 10);
        assert(d == d2.push(digit_char(n % 10)));
        assert(t.subrange(lo, lo + d2.len()) =~= d2) by {
            assert forall|j: int| 0 <= j < d2.len() implies t.subrange(lo, lo + d2.len())[j] == d2[j] by {
                assert(t.subrange(lo, hi)[j] == d[j]);
            }
        }
        lemma_decimal_value_of(t, lo, n / 10);
        assert(t[hi - 1] == d[d.len() - 1]);
    }
}

// ---------------------------------------------------------------------------
// The declaration grammar, over the tokens `ts` of a source with bytes `b`.
// ---------------------------------------------------------------------------

pub open spec fn at_end(ts: Seq<TokenView>, p: int) -> bool {
    p < 0 || p >= ts.len() || ts[p].kind is Eof
}

/// The kind of the current token, `Eof` past the end.
pub open spec fn kind_at(ts: Seq<TokenView>, p: int) -> TokenKindView {
    if at_end(ts, p) {
        TokenKindView::Eof
    } else {
        ts[p].kind
    }
}

/// The span of the current token; past the end, that of the last token.
pub open spec fn span_at(ts: Seq<TokenView>, p: int) -> Span {
    if at_end(ts, p) {
        if ts.len() > 0 {
            ts[ts.len() - 1].span
        } else {
            Span { lo: 0, hi: 0 }
        }
    } else {
        ts[p].span
    }
}

/// The name under which a token kind is written in messages.
pub open spec fn kind_name(k: TokenKindView) -> Seq<char> {
    match k {
        TokenKindView::Colon => "Colon"@,
        TokenKindView::Semicolon => "Semicolon"@,
        TokenKindView::LParen => "LParen"@,
        TokenKindView::RParen => "RParen"@,
        _ => seq![],
    }
}

/// The result of a parsing step: maybe a value, the diagnostics it reports,
/// the position after it, and whether it would read past the source or
/// overflow an index.
pub struct Parsed<T> {
    pub value: Option<T>,
    pub diags: Seq<DiagnosticView>,
    pub pos: int,
    pub fault: bool,
}

pub open spec fn ok<T>(value: T, pos: int) -> Parsed<T> {
    Parsed { value: Some(value), diags: seq![], pos, fault: false }
}

pub open spec fn fail<T>(diags: Seq<DiagnosticView>, pos: int) -> Parsed<T> {
    Parsed { value: None, diags, pos, fault: false }
}

pub open spec fn faulted<T>(pos: int) -> Parsed<T> {
    Parsed { value: None, diags: seq![], pos, fault: true }
}

/// Expects a token of kind `k` at `p`.
pub open spec fn expect_at(ts: Seq<TokenView>, p: int, k: TokenKindView) -> Parsed<Span> {
    if !at_end(ts, p) && ts[p].kind == k {
        ok(ts[p].span, p + 1)
    } else {
        fail(seq![error_diag("TC0102"@, "expected "@ + kind_name(k), span_at(ts, p))], p)
    }
}

pub open spec fn stops_raw(k: TokenKindView) -> bool {
    k is Semicolon || k is ThemeComment || k is Dollar
}

/// The first position at or after `p` where a raw value ends: the end of
/// the tokens, or a `;`, `$` or `@theme` comment.
pub open spec fn raw_end(ts: Seq<TokenView>, p: int) -> int
    decreases ts.len() - p,
{
    if at_end(ts, p) || stops_raw(ts[p].kind) {
        p
    } else {
        raw_end(ts, p + 1)
    }
}

/// `s` without its leading characters of the Unicode `White_Space` property.
pub open spec fn trim_start_ws(s: Seq<char>) -> Seq<char>
    decreases s.len(),
{
    if s.len() > 0 && unicode_white_space(s[0]) {
        trim_start_ws(s.drop_first())
    } else {
        s
    }
}

/// `s` without its trailing characters of the Unicode `White_Space` property.
pub open spec fn trim_end_ws(s: Seq<char>) -> Seq<char>
    decreases s.len(),
{
    if s.len() > 0 && unicode_white_space(s.last()) {
        trim_end_ws(s.drop_last())
    } else {
        s
    }
}

/// `s` with leading and trailing whitespace removed, as `str::trim` does.
pub open spec fn trim_ws(s: Seq<char>) -> Seq<char> {
    trim_end_ws(trim_start_ws(s))
}

/// Whether `lo..hi` is a valid cut of the source bytes.
pub open spec fn cuttable(b: Seq<u8>, lo: int, hi: int) -> bool {
    0 <= lo <= hi <= b.len() && is_char_boundary(b, lo) && is_char_boundary(b, hi)
}

/// Reads a value at `p`: `var(--name)`, or the raw source text up to the
/// next `;`, `$` or `@theme` comment.
pub open spec fn value_at(b: Seq<u8>, ts: Seq<TokenView>, p: int) -> Parsed<ValueView> {
    let start = span_at(ts, p);
    if kind_at(ts, p) is VarKw {
        let lp = expect_at(ts, p + 1, TokenKindView::LParen);
        if lp.value is None {
            lp.convert()
        } else {
            let q = lp.pos;
            match kind_at(ts, q) {
                TokenKindView::CssCustomProp(name) => {
                    let rp = expect_at(ts, q + 1, TokenKindView::RParen);
                    match rp.value {
                        Some(end) => ok(ValueView::VarRef { css_var: name, span: start.spec_merge(end) }, rp.pos),
                        None => rp.convert(),
                    }
                },
                _ => fail(
                    seq![error_diag("TC0109"@, "expected css custom property in var()"@, span_at(ts, q))],
                    q,
                ),
            }
        }
    } else {
        let q = raw_end(ts, p);
        if q == p {
            fail(seq![error_diag("TC0110"@, "expected value"@, span_at(ts, p))], p)
        } else {
            let end = ts[q - 1].span;
            if !cuttable(b, start.lo as int, end.hi as int) {
                faulted(q)
            } else {
                ok(
                    ValueView::Raw {
                        text: trim_ws(decode_utf8(b.subrange(start.lo as int, end.hi as int))),
                        span: start.spec_merge(end),
                    },
                    q,
                )
            }
        }
    }
}

impl<T> Parsed<T> {
    /// The same failure, for a result of another type.
    pub open spec fn convert<U>(self) -> Parsed<U> {
        Parsed { value: None, diags: self.diags, pos: self.pos, fault: self.fault }
    }
}

/// A variable declaration's name, whether it is a Sass variable, its value,
/// and the span of its closing `;`.
pub struct VarDecl {
    pub name: Seq<char>,
    pub is_sass_var: bool,
    pub value: ValueView,
    pub end: Span,
}

/// The name of a CSS custom property without its leading `--`.
pub open spec fn strip_dashes(name: Seq<char>) -> Seq<char> {
    decode_utf8(encode_utf8(name).subrange(2, encode_utf8(name).len() as int))
}

pub open spec fn strippable(name: Seq<char>) -> bool {
    encode_utf8(name).len() >= 2 && is_char_boundary(encode_utf8(name), 2)
}

/// The part of a declaration after its name: `: value ;`.
pub open spec fn decl_rest_at(
    b: Seq<u8>,
    ts: Seq<TokenView>,
    p: int,
    name: Seq<char>,
    is_sass_var: bool,
) -> Parsed<VarDecl> {
    let colon = expect_at(ts, p, TokenKindView::Colon);
    if colon.value is None {
        colon.convert()
    } else {
        let v = value_at(b, ts, colon.pos);
        match v.value {
            None => v.convert(),
            Some(value) => {
                let semi = expect_at(ts, v.pos, TokenKindView::Semicolon);
                match semi.value {
                    None => semi.convert(),
                    Some(end) => ok(VarDecl { name, is_sass_var, value, end }, semi.pos),
                }
            },
        }
    }
}

/// Reads a variable declaration at `p`: `$name: value;` or `--name: value;`.
pub open spec fn var_decl_at(b: Seq<u8>, ts: Seq<TokenView>, p: int) -> Parsed<VarDecl> {
    match kind_at(ts, p) {
        TokenKindView::Dollar => match kind_at(ts, p + 1) {
            TokenKindView::Ident(name) => decl_rest_at(b, ts, p + 2, name, true),
            _ => fail(
                seq![error_diag("TC0108"@, "expected identifier after '$'"@, span_at(ts, p + 1))],
                p + 1,
            ),
        },
        TokenKindView::CssCustomProp(name) => {
            if !strippable(name) {
                faulted(p + 1)
            } else {
                decl_rest_at(b, ts, p + 1, strip_dashes(name), false)
            }
        },
        _ => fail(
            seq![error_diag("TC0108"@, "expected '$' or '--' for variable declaration"@, span_at(ts, p))],
            p,
        ),
    }
}

/// Reads a declaration at `p`, where a `@theme` comment stands.
#[verifier::opaque]
pub open spec fn theme_decl_at(b: Seq<u8>, ts: Seq<TokenView>, p: int) -> Parsed<DeclView> {
    let comment_span = ts[p].span;
    let text = ts[p].kind->ThemeComment_0;
    match parse_path(text) {
        PathParse::Overflow => faulted(p + 1),
        PathParse::Invalid(code, msg) => fail(seq![error_diag(code, msg, comment_span)], p + 1),
        PathParse::Parsed(path) => {
            let d = var_decl_at(b, ts, p + 1);
            match d.value {
                None => d.convert(),
                Some(vd) => Parsed {
                    value: Some(
                        DeclView {
                            path,
                            path_span: comment_span,
                            var_name: vd.name,
                            is_sass_var: vd.is_sass_var,
                            value: vd.value,
                            span: comment_span.spec_merge(vd.end),
                        },
                    ),
                    diags: d.diags,
                    pos: d.pos,
                    fault: d.fault,
                },
            }
        },
    }
}

pub open spec fn is_theme_at(ts: Seq<TokenView>, p: int) -> bool {
    !at_end(ts, p) && ts[p].kind is ThemeComment
}

/// The first position at or after `p` that is the end or a `@theme` comment.
pub open spec fn next_theme(ts: Seq<TokenView>, p: int) -> int
    decreases ts.len() - p,
{
    if at_end(ts, p) || is_theme_at(ts, p) {
        p
    } else {
        next_theme(ts, p + 1)
    }
}

/// Where parsing resumes after an error at `p`: past the current token, at
/// the next `@theme` comment.
pub open spec fn resync(ts: Seq<TokenView>, p: int) -> int {
    if at_end(ts, p) {
        p
    } else {
        next_theme(ts, p + 1)
    }
}

pub proof fn lemma_token_runs(ts: Seq<TokenView>, p: int)
    requires
        0 <= p <= ts.len(),
    ensures
        p <= next_theme(ts, p) <= ts.len(),
        p <= raw_end(ts, p) <= ts.len(),
    decreases ts.len() - p,
{
    if p < ts.len() {
        lemma_token_runs(ts, p + 1);
    }
}

pub proof fn lemma_value_pos(b: Seq<u8>, ts: Seq<TokenView>, p: int)
    requires
        0 <= p <= ts.len(),
    ensures
        p <= value_at(b, ts, p).pos <= ts.len(),
{
    lemma_token_runs(ts, p);
}

pub proof fn lemma_decl_rest_pos(
    b: Seq<u8>,
    ts: Seq<TokenView>,
    p: int,
    name: Seq<char>,
    is_sass_var: bool,
)
    requires
        0 <= p <= ts.len(),
    ensures
        p <= decl_rest_at(b, ts, p, name, is_sass_var).pos <= ts.len(),
{
    let colon = expect_at(ts, p, TokenKindView::Colon);
    lemma_value_pos(b, ts, colon.pos);
}

pub proof fn lemma_theme_decl_advances(b: Seq<u8>, ts: Seq<TokenView>, p: int)
    requires
        0 <= p < ts.len(),
    ensures
        p < theme_decl_at(b, ts, p).pos <= ts.len(),
{
    reveal(theme_decl_at);
    if p + 2 <= ts.len() {
        lemma_decl_rest_pos(b, ts, p + 2, seq![], true);
        let k = kind_at(ts, p + 2);
        if let TokenKindView::Ident(name) = k {
            lemma_decl_rest_pos(b, ts, p + 3, name, true);
        }
        if let TokenKindView::CssCustomProp(name) = k {
            lemma_decl_rest_pos(b, ts, p + 3, strip_dashes(name), false);
        }
        if let TokenKindView::CssCustomProp(name) = kind_at(ts, p + 1) {
            lemma_decl_rest_pos(b, ts, p + 2, strip_dashes(name), false);
        }
    }
}

/// The declarations read from position `p` on, and the diagnostics reported.
pub struct FileParse {
    pub decls: Seq<DeclView>,
    pub diags: Seq<DiagnosticView>,
    pub fault: bool,
}

pub open spec fn decls_from(b: Seq<u8>, ts: Seq<TokenView>, p: int) -> FileParse
    decreases ts.len() - p,
{
    if p < 0 || at_end(ts, p) {
        FileParse { decls: seq![], diags: seq![], fault: false }
    } else if is_theme_at(ts, p) {
        let d = theme_decl_at(b, ts, p);
        if d.fault {
            FileParse { decls: seq![], diags: d.diags, fault: true }
        } else {
            proof {
                lemma_theme_decl_advances(b, ts, p);
                lemma_token_runs(ts, d.pos);
                if d.pos < ts.len() {
                    lemma_token_runs(ts, d.pos + 1);
                }
            }
            let next = if d.value is Some {
                d.pos
            } else {
                resync(ts, d.pos)
            };
            let rest = decls_from(b, ts, next);
            FileParse {
                decls: match d.value {
                    Some(decl) => seq![decl] + rest.decls,
                    None => rest.decls,
                },
                diags: d.diags + rest.diags,
                fault: rest.fault,
            }
        }
    } else {
        proof {
            lemma_token_runs(ts, p + 1);
        }
        decls_from(b, ts, resync(ts, p))
    }
}

/// The declarations of a source with bytes `b` and tokens `ts`, and the
/// diagnostics reported while reading them.
pub open spec fn parse_decls(b: Seq<u8>, ts: Seq<TokenView>) -> FileParse {
    decls_from(b, ts, 0)
}

// ---------------------------------------------------------------------------
// Reading paths.
// ---------------------------------------------------------------------------

/// Why reading a path stopped: a syntax error with its code and message, or
/// an index too large for `u32`.
pub enum PathFail {
    Invalid(&'static str, &'static str),
    Overflow,
}

pub open spec fn path_agrees(r: Result<Vec<PathSegment>, PathFail>, s: PathParse) -> bool {
    match r {
        Ok(v) => s == PathParse::Parsed(path_view(v@)),
        Err(PathFail::Invalid(c, m)) => s == PathParse::Invalid(c@, m@),
        Err(PathFail::Overflow) => s is Overflow,
    }
}

pub open spec fn suffix_agrees(
    r: Result<(Vec<PathSegment>, usize), PathFail>,
    s: SuffixParse,
) -> bool {
    match r {
        Ok((v, q)) => s == SuffixParse::Parsed(path_view(v@), q as int),
        Err(PathFail::Invalid(c, m)) => s == SuffixParse::Invalid(c@, m@),
        Err(PathFail::Overflow) => s is Overflow,
    }
}

fn skip_ws_at(t: &Vec<char>, i: usize) -> (r: usize)
    requires
        i <= t@.len(),
    ensures
        r == skip_ws_chars(t@, i as int),
        i <= r <= t@.len(),
{
    let mut j = i;
    while j < t.len() && (t[j] == ' ' || t[j] == '\t' || t[j] == '\n' || t[j] == '\x0C' || t[j]
        == '\r')
        invariant
            i <= j <= t@.len(),
            skip_ws_chars(t@, j as int) == skip_ws_chars(t@, i as int),
        decreases t@.len() - j,
    {
        j = j + 1;
    }
    j
}

fn ident_end_at(t: &Vec<char>, i: usize) -> (r: usize)
    requires
        i <= t@.len(),
    ensures
        r == ident_end(t@, i as int),
        i <= r <= t@.len(),
{
    let mut j = i;
    while j < t.len() && (char_is_alphanumeric(t[j]) || t[j] == '_' || t[j] == '$' || t[j] == '-')
        invariant
            i <= j <= t@.len(),
            ident_end(t@, j as int) == ident_end(t@, i as int),
        decreases t@.len() - j,
    {
        j = j + 1;
    }
    j
}

fn digits_end_at(t: &Vec<char>, i: usize) -> (r: usize)
    requires
        i <= t@.len(),
    ensures
        r == digit_chars_end(t@, i as int),
        i <= r <= t@.len(),
        forall|k: int| i <= k < r ==> is_ascii_digit_char(#[trigger] t@[k]),
{
    let mut j = i;
    while j < t.len() && ('0' <= t[j] && t[j] <= '9')
        invariant
            i <= j <= t@.len(),
            digit_chars_end(t@, j as int) == digit_chars_end(t@, i as int),
            forall|k: int| i <= k < j ==> is_ascii_digit_char(#[trigger] t@[k]),
        decreases t@.len() - j,
    {
        j = j + 1;
    }
    j
}

proof fn lemma_decimal_monotone(t: Seq<char>, lo: int, mid: int, hi: int)
    requires
        lo <= mid <= hi,
        forall|k: int| lo <= k < hi ==> is_ascii_digit_char(#[trigger] t[k]),
    ensures
        0 <= decimal_value(t, lo, mid) <= decimal_value(t, lo, hi),
    decreases hi - lo,
{
    if hi > mid {
        lemma_decimal_monotone(t, lo, mid, hi - 1);
        assert(is_ascii_digit_char(t[hi - 1]));
    } else if mid > lo {
        lemma_decimal_monotone(t, lo, mid - 1, mid - 1);
        assert(is_ascii_digit_char(t[mid - 1]));
    }
}

/// The decimal value of the digits `t[lo..hi]`, or `None` when it does not
/// fit in `u32`.
fn decimal_at(t: &Vec<char>, lo: usize, hi: usize) -> (r: Option<u32>)
    requires
        lo <= hi <= t@.len(),
        forall|k: int| lo <= k < hi ==> is_ascii_digit_char(#[trigger] t@[k]),
    ensures
        r matches Some(v) ==> decimal_value(t@, lo as int, hi as int) == v as int,
        r is None ==> decimal_value(t@, lo as int, hi as int) > u32::MAX,
{
    let mut acc: u64 = 0;
    let mut i = lo;
    while i < hi
        invariant
            lo <= i <= hi <= t@.len(),
            forall|k: int| lo <= k < hi ==> is_ascii_digit_char(#[trigger] t@[k]),
            acc == decimal_value(t@, lo as int, i as int),
            acc <= u32::MAX,
        decreases hi - i,
    {
        let d = (t[i] as u32 - '0' as u32) as u64;
        assert(is_ascii_digit_char(t@[i as int]));
        let next = acc * 10 + d;
        if next > 0xFFFF_FFFFu64 {
            proof {
                lemma_decimal_monotone(t@, lo as int, i + 1, hi as int);
            }
            return None;
        }
        acc = next;
        i = i + 1;
    }
    Some(acc as u32)
}

fn field_string(t: &Vec<char>, lo: usize, hi: usize) -> (r: String)
    requires
        lo <= hi <= t@.len(),
    ensures
        r@ == t@.subrange(lo as int, hi as int),
{
    let mut r = String::new();
    let mut i = lo;
    while i < hi
        invariant
            lo <= i <= hi <= t@.len(),
            r@ == t@.subrange(lo as int, i as int),
        decreases hi - i,
    {
        push_char(&mut r, t[i]);
        i = i + 1;
        assert(r@ =~= t@.subrange(lo as int, i as int));
    }
    r
}

fn parse_suffixes(t: &Vec<char>, p: usize) -> (r: Result<(Vec<PathSegment>, usize), PathFail>)
    requires
        p <= t@.len(),
    ensures
        suffix_agrees(r, suffixes_at(t@, p as int)),
        r matches Ok((_, q)) ==> q <= t@.len(),
    decreases t@.len() - p,
{
    if p < t.len() && t[p] == '[' {
        let a = skip_ws_at(t, p + 1);
        let k = digits_end_at(t, a);
        if k == a {
            return Err(PathFail::Invalid("TC0105", "expected number in index suffix"));
        }
        let c = skip_ws_at(t, k);
        if c >= t.len() || t[c] != ']' {
            return Err(PathFail::Invalid("TC0106", "expected ']' after index"));
        }
        let v = match decimal_at(t, a, k) {
            Some(v) => v,
            None => return Err(PathFail::Overflow),
        };
        let next = skip_ws_at(t, c + 1);
        match parse_suffixes(t, next) {
            Ok((rest, q)) => {
                let mut segs: Vec<PathSegment> = Vec::new();
                segs.push(PathSegment::Index(v));
                let ghost rv = path_view(rest@);
                let mut rest = rest;
                segs.append(&mut rest);
                assert(path_view(segs@) =~= seq![SegmentView::Index(v)] + rv);
                Ok((segs, q))
            },
            Err(e) => Err(e),
        }
    } else {
        let segs: Vec<PathSegment> = Vec::new();
        assert(path_view(segs@) =~= Seq::<SegmentView>::empty());
        Ok((segs, p))
    }
}

fn parse_path_from(t: &Vec<char>, i: usize) -> (r: Result<Vec<PathSegment>, PathFail>)
    requires
        i <= t@.len(),
    ensures
        path_agrees(r, path_from(t@, i as int)),
    decreases t@.len() - i,
{
    let i0 = skip_ws_at(t, i);
    let j = ident_end_at(t, i0);
    if j == i0 {
        return Err(PathFail::Invalid("TC0104", "expected path segment"));
    }
    let field = PathSegment::Field(field_string(t, i0, j));
    let after = skip_ws_at(t, j);
    match parse_suffixes(t, after) {
        Ok((idx, p)) => {
            let ghost iv = path_view(idx@);
            let mut segs: Vec<PathSegment> = Vec::new();
            segs.push(field);
            let mut idx = idx;
            segs.append(&mut idx);
            if p < t.len() && t[p] == '.' {
                proof {
                    lemma_suffixes_pos(t@, after as int);
                }
                match parse_path_from(t, p + 1) {
                    Ok(rest) => {
                        let ghost pre = path_view(segs@);
                        let ghost rv = path_view(rest@);
                        let mut rest = rest;
                        segs.append(&mut rest);
                        assert(path_view(segs@) =~= pre + rv);
                        assert(pre =~= seq![field@] + iv);
                        Ok(segs)
                    },
                    Err(e) => Err(e),
                }
            } else if p < t.len() {
                Err(PathFail::Invalid("TC0107", "trailing characters in path"))
            } else {
                assert(path_view(segs@) =~= seq![field@] + iv);
                Ok(segs)
            }
        },
        Err(e) => Err(e),
    }
}

/// Reads the path written in the text of a `@theme` comment.
fn parse_path_text(text: &str) -> (r: Result<Vec<PathSegment>, PathFail>)
    ensures
        path_agrees(r, parse_path(text@)),
{
    let t = chars_of(text);
    let i = skip_ws_at(&t, 0);
    if i >= t.len() {
        return Err(PathFail::Invalid("TC0103", "empty path in @theme annotation"));
    }
    parse_path_from(&t, 0)
}

/// `s` with leading and trailing Unicode whitespace removed, as
/// `str::trim` does.
pub fn trim_chars(s: &str) -> (r: String)
    ensures
        r@ == trim_ws(s@),
{
    let v = chars_of(s);
    let n = v.len();
    let mut i: usize = 0;
    assert(v@.subrange(0, n as int) =~= s@);
    while i < n && char_is_whitespace(v[i])
        invariant
            n == v@.len(),
            v@ == s@,
            i <= n,
            trim_start_ws(v@.subrange(i as int, n as int)) == trim_start_ws(s@),
        decreases n - i,
    {
        assert(v@.subrange(i as int, n as int).drop_first() =~= v@.subrange(i + 1, n as int));
        i = i + 1;
    }
    assert(trim_start_ws(v@.subrange(i as int, n as int)) == v@.subrange(i as int, n as int));
    let mut j: usize = n;
    while j > i && char_is_whitespace(v[j - 1])
        invariant
            n == v@.len(),
            v@ == s@,
            i <= j <= n,
            trim_end_ws(v@.subrange(i as int, j as int)) == trim_ws(s@),
        decreases j,
    {
        assert(v@.subrange(i as int, j as int).drop_last() =~= v@.subrange(i as int, j - 1));
        j = j - 1;
    }
    assert(trim_end_ws(v@.subrange(i as int, j as int)) == v@.subrange(i as int, j as int));
    field_string(&v, i, j)
}

// ---------------------------------------------------------------------------
// Reading declarations.
// ---------------------------------------------------------------------------

impl View for Span {
    type V = Span;

    open spec fn view(&self) -> Span {
        *self
    }
}

/// Why a parsing step stopped: a syntax error that was reported, or an input
/// on which reading would cut the source inside a character or overflow an
/// index.
#[derive(PartialEq, Eq, Structural, Clone, Copy)]
enum Stop {
    Failed,
    Fault,
}

/// Whether an executable parsing step did what the spec step `sp` says.
spec fn agrees<T: View>(
    sp: Parsed<T::V>,
    r: Result<T, Stop>,
    pos: usize,
    before: Seq<DiagnosticView>,
    after: Seq<DiagnosticView>,
) -> bool {
    &&& (sp.fault <==> r matches Err(Stop::Fault))
    &&& !sp.fault ==> {
        &&& pos == sp.pos
        &&& after == before + sp.diags
        &&& match r {
            Ok(v) => sp.value == Some(v@),
            Err(_) => sp.value is None,
        }
    }
}

/// A variable declaration read from the tokens.
struct VarDeclParts {
    name: String,
    is_sass_var: bool,
    value: Value,
    end: Span,
}

impl View for VarDeclParts {
    type V = VarDecl;

    closed spec fn view(&self) -> VarDecl {
        VarDecl { name: self.name@, is_sass_var: self.is_sass_var, value: self.value@, end: self.end }
    }
}

struct Cursor<'t> {
    src: &'t str,
    toks: &'t [Token],
    pos: usize,
}

impl<'t> Cursor<'t> {
    spec fn b(&self) -> Seq<u8> {
        self.src.spec_bytes()
    }

    spec fn ts(&self) -> Seq<TokenView> {
        tokens_view(self.toks@)
    }

    spec fn wf(&self) -> bool {
        &&& self.pos <= self.toks@.len()
        &&& self.toks@.len() <= usize::MAX
    }

    proof fn lemma_token_at(&self, i: int)
        requires
            0 <= i < self.toks@.len(),
        ensures
            self.ts()[i] == self.toks@[i]@,
            self.ts()[i].kind == self.toks@[i].kind@,
            self.ts().len() == self.toks@.len(),
    {
    }

    spec fn same(&self, other: &Cursor<'t>) -> bool {
        self.src == other.src && self.toks == other.toks
    }

    fn at_eof(&self) -> (r: bool)
        requires
            self.wf(),
        ensures
            r == at_end(self.ts(), self.pos as int),
    {
        if self.pos >= self.toks.len() {
            true
        } else {
            match self.toks[self.pos].kind {
                TokenKind::Eof => true,
                _ => false,
            }
        }
    }

    fn is_theme(&self) -> (r: bool)
        requires
            self.wf(),
        ensures
            r == is_theme_at(self.ts(), self.pos as int),
    {
        if self.at_eof() {
            false
        } else {
            match self.toks[self.pos].kind {
                TokenKind::ThemeComment(_) => true,
                _ => false,
            }
        }
    }

    fn stops_raw_here(&self) -> (r: bool)
        requires
            self.wf(),
            !at_end(self.ts(), self.pos as int),
        ensures
            r == stops_raw(self.ts()[self.pos as int].kind),
    {
        match self.toks[self.pos].kind {
            TokenKind::Semicolon => true,
            TokenKind::ThemeComment(_) => true,
            TokenKind::Dollar => true,
            _ => false,
        }
    }

    fn cur_span(&self) -> (r: Span)
        requires
            self.wf(),
        ensures
            r == span_at(self.ts(), self.pos as int),
    {
        if self.at_eof() {
            if self.toks.len() > 0 {
                self.toks[self.toks.len() - 1].span
            } else {
                Span::new(0, 0)
            }
        } else {
            self.toks[self.pos].span
        }
    }

    fn expect(&mut self, kind: TokenKind, diags: &mut DiagnosticBag) -> (r: Result<Span, Stop>)
        requires
            old(self).wf(),
            kind is Colon || kind is Semicolon || kind is LParen || kind is RParen,
        ensures
            final(self).wf(),
            final(self).same(old(self)),
            agrees(
                expect_at(old(self).ts(), old(self).pos as int, kind@),
                r,
                final(self).pos,
                old(diags)@,
                final(diags)@,
            ),
            !(r matches Err(Stop::Fault)),
    {
        let found = if self.at_eof() {
            false
        } else {
            match (&self.toks[self.pos].kind, &kind) {
                (TokenKind::Colon, TokenKind::Colon) => true,
                (TokenKind::Semicolon, TokenKind::Semicolon) => true,
                (TokenKind::LParen, TokenKind::LParen) => true,
                (TokenKind::RParen, TokenKind::RParen) => true,
                _ => false,
            }
        };
        if found {
            let span = self.toks[self.pos].span;
            self.pos = self.pos + 1;
            assert(diags@ =~= old(diags)@ + seq![]);
            Ok(span)
        } else {
            let name = match kind {
                TokenKind::Colon => "Colon",
                TokenKind::Semicolon => "Semicolon",
                TokenKind::LParen => "LParen",
                _ => "RParen",
            };
            assert(name@ == kind_name(kind@));
            let span = self.cur_span();
            assert(span == span_at(old(self).ts(), old(self).pos as int));
            diags.error("TC0102", concat2("expected ", name), span);
            assert(diags@ == old(diags)@ + expect_at(old(self).ts(), old(self).pos as int, kind@).diags);
            Err(Stop::Failed)
        }
    }

    fn parse_value(&mut self, diags: &mut DiagnosticBag) -> (r: Result<Value, Stop>)
        requires
            old(self).wf(),
        ensures
            final(self).wf(),
            final(self).same(old(self)),
            agrees(
                value_at(old(self).b(), old(self).ts(), old(self).pos as int),
                r,
                final(self).pos,
                old(diags)@,
                final(diags)@,
            ),
    {
        let ghost b = self.b();
        let ghost ts = self.ts();
        let ghost p = self.pos as int;
        proof {
            if p < self.toks@.len() {
                self.lemma_token_at(p);
            }
            if p + 1 < self.toks@.len() {
                self.lemma_token_at(p + 1);
            }
            if p + 2 < self.toks@.len() {
                self.lemma_token_at(p + 2);
            }
        }
        let start_span = self.cur_span();
        let is_var = if self.at_eof() {
            false
        } else {
            match self.toks[self.pos].kind {
                TokenKind::VarKw => true,
                _ => false,
            }
        };
        if is_var {
            self.pos = self.pos + 1;
            let lp = self.expect(TokenKind::LParen, diags);
            if lp.is_err() {
                return Err(Stop::Failed);
            }
            let ghost q = self.pos as int;
            let ghost d1 = diags@;
            let css_var = if self.at_eof() {
                None
            } else {
                match &self.toks[self.pos].kind {
                    TokenKind::CssCustomProp(name) => Some(name.clone()),
                    _ => None,
                }
            };
            match css_var {
                Some(css_var) => {
                    self.pos = self.pos + 1;
                    match self.expect(TokenKind::RParen, diags) {
                        Ok(end) => {
                            assert(diags@ =~= old(diags)@ + value_at(b, ts, p).diags);
                            Ok(Value::VarRef { css_var, span: start_span.merge(end) })
                        },
                        Err(e) => {
                            assert(diags@ =~= old(diags)@ + value_at(b, ts, p).diags);
                            Err(e)
                        },
                    }
                },
                None => {
                    let span = self.cur_span();
                    diags.error(
                        "TC0109",
                        string_of("expected css custom property in var()"),
                        span,
                    );
                    assert(diags@ =~= old(diags)@ + value_at(b, ts, p).diags);
                    Err(Stop::Failed)
                },
            }
        } else {
            let mut end_span = start_span;
            let mut has_tokens = false;
            proof {
                lemma_token_runs(ts, p);
            }
            while !self.at_eof() && !self.stops_raw_here()
                invariant
                    self.wf(),
                    self.same(old(self)),
                    ts == self.ts(),
                    p <= self.pos <= ts.len(),
                    raw_end(ts, self.pos as int) == raw_end(ts, p),
                    has_tokens == (self.pos > p),
                    has_tokens ==> end_span == ts[self.pos - 1].span,
                decreases ts.len() - self.pos,
            {
                end_span = self.toks[self.pos].span;
                self.pos = self.pos + 1;
                has_tokens = true;
            }
            assert(self.pos as int == raw_end(ts, p));
            if !has_tokens {
                let span = self.cur_span();
                diags.error("TC0110", string_of("expected value"), span);
                assert(diags@ =~= old(diags)@ + value_at(b, ts, p).diags);
                return Err(Stop::Failed);
            }
            let start_idx = start_span.lo as usize;
            let end_idx = end_span.hi as usize;
            let src_len = self.src.as_bytes().len();
            if !(start_idx <= end_idx && end_idx <= src_len && self.src.is_char_boundary(
                start_idx,
            ) && self.src.is_char_boundary(end_idx)) {
                assert(!cuttable(b, start_span.lo as int, end_span.hi as int));
                assert(value_at(b, ts, p).fault);
                return Err(Stop::Fault);
            }
            let raw = str_slice(self.src, start_idx, end_idx);
            let text = trim_chars(raw);
            assert(diags@ =~= old(diags)@ + seq![]);
            Ok(Value::Raw { text, span: start_span.merge(end_span) })
        }
    }

    fn parse_decl_rest(
        &mut self,
        name: String,
        is_sass_var: bool,
        diags: &mut DiagnosticBag,
    ) -> (r: Result<VarDeclParts, Stop>)
        requires
            old(self).wf(),
        ensures
            final(self).wf(),
            final(self).same(old(self)),
            agrees(
                decl_rest_at(old(self).b(), old(self).ts(), old(self).pos as int, name@, is_sass_var),
                r,
                final(self).pos,
                old(diags)@,
                final(diags)@,
            ),
    {
        let ghost b = self.b();
        let ghost ts = self.ts();
        let ghost p = self.pos as int;
        if self.expect(TokenKind::Colon, diags).is_err() {
            return Err(Stop::Failed);
        }
        let ghost d1 = diags@;
        let value = match self.parse_value(diags) {
            Ok(v) => v,
            Err(e) => {
                proof {
                    if e == Stop::Failed {
                        assert(diags@ =~= old(diags)@ + decl_rest_at(
                            b,
                            ts,
                            p,
                            name@,
                            is_sass_var,
                        ).diags);
                    }
                }
                return Err(e);
            },
        };
        match self.expect(TokenKind::Semicolon, diags) {
            Ok(end) => {
                assert(diags@ =~= old(diags)@ + decl_rest_at(b, ts, p, name@, is_sass_var).diags);
                Ok(VarDeclParts { name, is_sass_var, value, end })
            },
            Err(e) => {
                assert(diags@ =~= old(diags)@ + decl_rest_at(b, ts, p, name@, is_sass_var).diags);
                Err(e)
            },
        }
    }

    fn parse_var_decl(&mut self, diags: &mut DiagnosticBag) -> (r: Result<VarDeclParts, Stop>)
        requires
            old(self).wf(),
        ensures
            final(self).wf(),
            final(self).same(old(self)),
            agrees(
                var_decl_at(old(self).b(), old(self).ts(), old(self).pos as int),
                r,
                final(self).pos,
                old(diags)@,
                final(diags)@,
            ),
    {
        let ghost ts = self.ts();
        let ghost p = self.pos as int;
        proof {
            if p < self.toks@.len() {
                self.lemma_token_at(p);
            }
            if p + 1 < self.toks@.len() {
                self.lemma_token_at(p + 1);
            }
        }
        let is_dollar = if self.at_eof() {
            false
        } else {
            match self.toks[self.pos].kind {
                TokenKind::Dollar => true,
                _ => false,
            }
        };
        if is_dollar {
            self.pos = self.pos + 1;
            let ident = if self.at_eof() {
                None
            } else {
                match &self.toks[self.pos].kind {
                    TokenKind::Ident(name) => Some(name.clone()),
                    _ => None,
                }
            };
            match ident {
                Some(name) => {
                    self.pos = self.pos + 1;
                    self.parse_decl_rest(name, true, diags)
                },
                None => {
                    let span = self.cur_span();
                    diags.error("TC0108", string_of("expected identifier after '$'"), span);
                    assert(diags@ =~= old(diags)@ + var_decl_at(old(self).b(), ts, p).diags);
                    Err(Stop::Failed)
                },
            }
        } else {
            let prop = if self.at_eof() {
                None
            } else {
                match &self.toks[self.pos].kind {
                    TokenKind::CssCustomProp(name) => Some(name.as_str()),
                    _ => None,
                }
            };
            match prop {
                Some(name) => {
                    self.pos = self.pos + 1;
                    let nlen = name.as_bytes().len();
                    if nlen < 2 || !name.is_char_boundary(2) {
                        return Err(Stop::Fault);
                    }
                    proof {
                        encode_utf8_valid_utf8(name@);
                        is_char_boundary_start_end_of_seq(name.spec_bytes());
                    }
                    let stripped = string_of(str_slice(name, 2, nlen));
                    self.parse_decl_rest(stripped, false, diags)
                },
                None => {
                    let span = self.cur_span();
                    diags.error(
                        "TC0108",
                        string_of("expected '$' or '--' for variable declaration"),
                        span,
                    );
                    assert(diags@ =~= old(diags)@ + var_decl_at(old(self).b(), ts, p).diags);
                    Err(Stop::Failed)
                },
            }
        }
    }

    fn parse_theme_decl(&mut self, diags: &mut DiagnosticBag) -> (r: Result<ThemeDecl, Stop>)
        requires
            old(self).wf(),
            is_theme_at(old(self).ts(), old(self).pos as int),
        ensures
            final(self).wf(),
            final(self).same(old(self)),
            agrees(
                theme_decl_at(old(self).b(), old(self).ts(), old(self).pos as int),
                r,
                final(self).pos,
                old(diags)@,
                final(diags)@,
            ),
    {
        let ghost b = self.b();
        let ghost ts = self.ts();
        let ghost p = self.pos as int;
        proof {
            reveal(theme_decl_at);
            self.lemma_token_at(p);
        }
        let comment_span = self.toks[self.pos].span;
        let text = match &self.toks[self.pos].kind {
            TokenKind::ThemeComment(s) => s.as_str(),
            _ => {
                return Err(Stop::Failed);
            },
        };
        self.pos = self.pos + 1;
        let path = match parse_path_text(text) {
            Ok(path) => path,
            Err(PathFail::Invalid(code, msg)) => {
                diags.error(code, string_of(msg), comment_span);
                assert(diags@ =~= old(diags)@ + theme_decl_at(b, ts, p).diags);
                return Err(Stop::Failed);
            },
            Err(PathFail::Overflow) => {
                return Err(Stop::Fault);
            },
        };
        let vd = match self.parse_var_decl(diags) {
            Ok(vd) => vd,
            Err(e) => {
                return Err(e);
            },
        };
        Ok(
            ThemeDecl {
                path,
                path_span: comment_span,
                var_name: vd.name,
                is_sass_var: vd.is_sass_var,
                value: vd.value,
                span: comment_span.merge(vd.end),
            },
        )
    }

    fn synchronize(&mut self)
        requires
            old(self).wf(),
        ensures
            final(self).wf(),
            final(self).same(old(self)),
            final(self).pos == resync(old(self).ts(), old(self).pos as int),
    {
        if self.at_eof() {
            return;
        }
        self.pos = self.pos + 1;
        while !self.at_eof() && !self.is_theme()
            invariant
                self.wf(),
                self.same(old(self)),
                old(self).pos < self.pos,
                next_theme(self.ts(), self.pos as int) == next_theme(self.ts(), old(self).pos + 1),
            decreases self.toks@.len() - self.pos,
        {
            self.pos = self.pos + 1;
        }
    }

    /// Reads declarations up to the end of the tokens; `None` when reading
    /// would cut the source inside a character or overflow an index.
    fn parse_all(&mut self, diags: &mut DiagnosticBag) -> (r: Option<Vec<ThemeDecl>>)
        requires
            old(self).wf(),
        ensures
            r is None <==> decls_from(old(self).b(), old(self).ts(), old(self).pos as int).fault,
            r matches Some(v) ==> decls_view(v@) == decls_from(
                old(self).b(),
                old(self).ts(),
                old(self).pos as int,
            ).decls && final(diags)@ == old(diags)@ + decls_from(
                old(self).b(),
                old(self).ts(),
                old(self).pos as int,
            ).diags,
    {
        let ghost b = self.b();
        let ghost ts = self.ts();
        let ghost full = decls_from(b, ts, self.pos as int);
        let mut decls: Vec<ThemeDecl> = Vec::new();
        while !self.at_eof()
            invariant
                self.wf(),
                self.same(old(self)),
                b == self.b(),
                ts == self.ts(),
                decls_from(b, ts, self.pos as int).fault == full.fault,
                full == decls_from(old(self).b(), old(self).ts(), old(self).pos as int),
                decls_view(decls@) + decls_from(b, ts, self.pos as int).decls == full.decls,
                old(diags)@ + full.diags == diags@ + decls_from(b, ts, self.pos as int).diags,
            decreases self.toks@.len() - self.pos,
        {
            let ghost p = self.pos as int;
            let ghost dp = diags@;
            let ghost prev = decls_view(decls@);
            if self.is_theme() {
                proof {
                    lemma_theme_decl_advances(b, ts, p);
                }
                match self.parse_theme_decl(diags) {
                    Ok(d) => {
                        decls.push(d);
                        assert(decls_view(decls@) =~= prev.push(d@));
                        assert(decls_view(decls@) + decls_from(b, ts, self.pos as int).decls
                            =~= prev + decls_from(b, ts, p).decls);
                        assert(dp + decls_from(b, ts, p).diags =~= diags@ + decls_from(
                            b,
                            ts,
                            self.pos as int,
                        ).diags);
                    },
                    Err(Stop::Fault) => {
                        assert(theme_decl_at(b, ts, p).fault);
                        assert(decls_from(b, ts, p).fault);
                        return None;
                    },
                    Err(Stop::Failed) => {
                        let ghost q = self.pos as int;
                        self.synchronize();
                        proof {
                            lemma_token_runs(ts, q);
                            if q < ts.len() {
                                lemma_token_runs(ts, q + 1);
                            }
                        }
                        assert(dp + decls_from(b, ts, p).diags =~= diags@ + decls_from(
                            b,
                            ts,
                            self.pos as int,
                        ).diags);
                    },
                }
            } else {
                self.synchronize();
                proof {
                    lemma_token_runs(ts, p + 1);
                }
            }
        }
        Some(decls)
    }
}

/// Reads `@theme` declarations from the tokens of `src`, reporting syntax
/// errors into a diagnostic bag.
pub struct Parser<'t> {
    pub src: &'t str,
    pub toks: &'t [Token],
    pub pos: usize,
    pub diags: &'t mut DiagnosticBag,
}

impl<'t> Parser<'t> {
    pub fn new(src: &'t str, toks: &'t [Token], diags: &'t mut DiagnosticBag) -> (p: Parser<'t>)
        ensures
            p.src == src,
            p.toks == toks,
            p.pos == 0,
            *p.diags == *old(diags),
            *final(p.diags) == *final(diags),
    {
        Parser { src, toks, pos: 0, diags }
    }

    /// Whether parsing from the parser's position would cut the source text
    /// inside a character or read an index too large for `u32`.
    pub open spec fn faults(&self) -> bool {
        decls_from(self.src.spec_bytes(), tokens_view(self.toks@), self.pos as int).fault
    }

    /// The declarations read from the parser's position on.
    pub open spec fn spec_file(&self) -> FileParse {
        decls_from(self.src.spec_bytes(), tokens_view(self.toks@), self.pos as int)
    }

    /// Reads all declarations; syntax errors are reported and reading goes on
    /// at the next `@theme` comment.
    pub fn parse_file(self) -> (f: File)
        requires
            self.pos <= self.toks@.len(),
            !self.faults(),
        ensures
            f@ == self.spec_file().decls,
            final(self.diags)@ == old(self.diags)@ + self.spec_file().diags,
    {
        let Parser { src, toks, pos, diags } = self;
        let _n = toks.len();
        let mut cur = Cursor { src, toks, pos };
        match cur.parse_all(diags) {
            Some(decls) => File { decls },
            None => File { decls: Vec::new() },
        }
    }

    /// Like `parse_file`, but `None` on the inputs on which reading would cut
    /// the source inside a character or read an index too large for `u32`.
    pub fn try_parse_file(self) -> (f: Option<File>)
        requires
            self.pos <= self.toks@.len(),
        ensures
            f is None <==> self.faults(),
            f matches Some(f) ==> f@ == self.spec_file().decls && final(self.diags)@ == old(
                self.diags,
            )@ + self.spec_file().diags,
    {
        let Parser { src, toks, pos, diags } = self;
        let _n = toks.len();
        let mut cur = Cursor { src, toks, pos };
        match cur.parse_all(diags) {
            Some(decls) => Some(File { decls }),
            None => None,
        }
    }
}

} // verus!
