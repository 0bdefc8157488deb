//! The lexer: turns source text into tokens, skipping whitespace and
//! comments and keeping `@theme` block comments as tokens.

use vstd::prelude::*;
use vstd::utf8::*;
use vstd::string::*;
use crate::span::Span;
use crate::diagnostics::{Diagnostic, DiagnosticBag, DiagnosticView, diags_view, error_diag};
use crate::text::{
    is_ws, is_ws_byte, is_digit, is_digit_byte, is_alpha, is_alpha_byte, is_alnum,
    is_alnum_byte, bytes_as_chars, string_from_bytes, str_slice, lemma_boundary_after_ascii,
};

verus! {

broadcast use vstd::utf8::group_utf8_lib;

#[derive(Debug, Clone, PartialEq, Eq)]
pub enum TokenKind {
    ThemeComment(String),
    Dollar,
    Ident(String),
    Dot,
    LBracket,
    RBracket,
    Number(u32),
    Colon,
    Semicolon,
    LParen,
    RParen,
    VarKw,
    CssCustomProp(String),
    AnyChar(char),
    Eof,
}

/// A token kind as plain values.
pub enum TokenKindView {
    ThemeComment(Seq<char>),
    Dollar,
    Ident(Seq<char>),
    Dot,
    LBracket,
    RBracket,
    Number(u32),
    Colon,
    Semicolon,
    LParen,
    RParen,
    VarKw,
    CssCustomProp(Seq<char>),
    AnyChar(char),
    Eof,
}

impl View for TokenKind {
    type V = TokenKindView;

    open spec fn view(&self) -> TokenKindView {
        match self {
            TokenKind::ThemeComment(s) => TokenKindView::ThemeComment(s@),
            TokenKind::Dollar => TokenKindView::Dollar,
            TokenKind::Ident(s) => TokenKindView::Ident(s@),
            TokenKind::Dot => TokenKindView::Dot,
            TokenKind::LBracket => TokenKindView::LBracket,
            TokenKind::RBracket => TokenKindView::RBracket,
            TokenKind::Number(n) => TokenKindView::Number(*n),
            TokenKind::Colon => TokenKindView::Colon,
            TokenKind::Semicolon => TokenKindView::Semicolon,
            TokenKind::LParen => TokenKindView::LParen,
            TokenKind::RParen => TokenKindView::RParen,
            TokenKind::VarKw => TokenKindView::VarKw,
            TokenKind::CssCustomProp(s) => TokenKindView::CssCustomProp(s@),
            TokenKind::AnyChar(c) => TokenKindView::AnyChar(*c),
            TokenKind::Eof => TokenKindView::Eof,
        }
    }
}

#[derive(Debug, Clone, PartialEq, Eq)]
pub struct Token {
    pub kind: TokenKind,
    pub span: Span,
}

pub struct TokenView {
    pub kind: TokenKindView,
    pub span: Span,
}

impl View for Token {
    type V = TokenView;

    open spec fn view(&self) -> TokenView {
        TokenView { kind: self.kind@, span: self.span }
    }
}

pub open spec fn tokens_view(ts: Seq<Token>) -> Seq<TokenView> {
    ts.map_values(|t: Token| t@)
}

pub open spec fn span_of(lo: int, hi: int) -> Span {
    Span { lo: lo as u32, hi: hi as u32 }
}

pub open spec fn tok(kind: TokenKindView, lo: int, hi: int) -> TokenView {
    TokenView { kind, span: span_of(lo, hi) }
}

// ---------------------------------------------------------------------------
// The lexical grammar, over the UTF-8 bytes `b` of the source.
// ---------------------------------------------------------------------------

/// The first position at or after `p` that is not ASCII whitespace.
pub open spec fn skip_ws(b: Seq<u8>, p: int) -> int
    decreases b.len() - p,
{
    if 0 <= p < b.len() && is_ws_byte(b[p]) {
        skip_ws(b, p + 1)
    } else {
        p
    }
}

/// The end of the line starting at `p`: the first line feed at or after `p`,
/// or the end of the source.
pub open spec fn line_end(b: Seq<u8>, p: int) -> int
    decreases b.len() - p,
{
    if 0 <= p < b.len() && b[p] != 0x0Au8 {
        line_end(b, p + 1)
    } else {
        p
    }
}

/// The end of the run of ASCII digits starting at `p`.
pub open spec fn digits_end(b: Seq<u8>, p: int) -> int
    decreases b.len() - p,
{
    if 0 <= p < b.len() && is_digit_byte(b[p]) {
        digits_end(b, p + 1)
    } else {
        p
    }
}

pub open spec fn is_name_byte(c: u8) -> bool {
    is_alnum_byte(c) || c == 0x2Du8 || c == 0x5Fu8
}

/// The end of the run of ASCII letters, digits, `-` and `_` starting at `p`.
pub open spec fn name_end(b: Seq<u8>, p: int) -> int
    decreases b.len() - p,
{
    if 0 <= p < b.len() && is_name_byte(b[p]) {
        name_end(b, p + 1)
    } else {
        p
    }
}

/// The end of the run of `*` starting at `p`.
pub open spec fn stars_end(b: Seq<u8>, p: int) -> int
    decreases b.len() - p,
{
    if 0 <= p < b.len() && b[p] == 0x2Au8 {
        stars_end(b, p + 1)
    } else {
        p
    }
}

/// Whether a block comment closes at `k`: a run of `*` starts there and is
/// followed by `/`.
pub open spec fn closes_at(b: Seq<u8>, k: int) -> bool {
    0 <= k < b.len() && b[k] == 0x2Au8 && stars_end(b, k) < b.len() && b[stars_end(b, k)]
        == 0x2Fu8
}

/// The first position at or after `p` where a block comment closes.
pub open spec fn find_close(b: Seq<u8>, p: int) -> Option<int>
    decreases b.len() - p,
{
    if p < 0 || p >= b.len() {
        None
    } else if closes_at(b, p) {
        Some(p)
    } else {
        find_close(b, p + 1)
    }
}

/// Moves `e` back over ASCII whitespace, but not below `lo`.
pub open spec fn trim_back(b: Seq<u8>, lo: int, e: int) -> int
    decreases e - lo,
{
    if e > lo && 0 < e <= b.len() && is_ws_byte(b[e - 1]) {
        trim_back(b, lo, e - 1)
    } else {
        e
    }
}

/// The decimal value of the digits `b[lo..hi]`, wrapping modulo 2^32.
pub open spec fn digits_value(b: Seq<u8>, lo: int, hi: int) -> u32
    decreases hi - lo,
{
    if hi <= lo {
        0
    } else {
        ((digits_value(b, lo, hi - 1) as int * 10 + (b[hi - 1] - 0x30u8)) % 0x1_0000_0000) as u32
    }
}

pub open spec fn theme_marker() -> Seq<u8> {
    seq![0x40u8, 0x74u8, 0x68u8, 0x65u8, 0x6Du8, 0x65u8]
}

pub open spec fn has_theme_marker(b: Seq<u8>, p: int) -> bool {
    0 <= p && p + 6 <= b.len() && b.subrange(p, p + 6) == theme_marker()
}

/// What scanning at one position yields: maybe a token, diagnostics, and
/// the position after it.
pub struct Step {
    pub token: Option<TokenView>,
    pub diags: Seq<DiagnosticView>,
    pub next: int,
}

/// Where the text of a `@theme` comment starting at `p` begins.
pub open spec fn theme_text_start(b: Seq<u8>, p: int) -> int {
    skip_ws(b, skip_ws(b, p + 2) + 6)
}

/// A block comment starting at `p` (where `/*` stands).
pub open spec fn block_comment_step(b: Seq<u8>, p: int) -> Step {
    let is_theme = has_theme_marker(b, skip_ws(b, p + 2));
    match find_close(b, p + 2) {
        None => Step {
            token: None,
            diags: seq![error_diag("TC0002"@, "unclosed block comment"@, span_of(p, b.len() as int))],
            next: b.len() as int,
        },
        Some(k) => {
            let next = stars_end(b, k) + 1;
            if is_theme {
                let lo = theme_text_start(b, p);
                let hi = trim_back(b, lo, k);
                Step {
                    token: Some(
                        tok(
                            TokenKindView::ThemeComment(decode_utf8(b.subrange(lo, hi))),
                            p,
                            next,
                        ),
                    ),
                    diags: seq![],
                    next,
                }
            } else {
                Step { token: None, diags: seq![], next }
            }
        },
    }
}

pub open spec fn single(kind: TokenKindView, p: int) -> Step {
    Step { token: Some(tok(kind, p, p + 1)), diags: seq![], next: p + 1 }
}

pub open spec fn var_chars() -> Seq<char> {
    seq!['v', 'a', 'r']
}

/// What scanning yields at `p`, a position of the source that is not
/// whitespace.
pub open spec fn scan_step(b: Seq<u8>, p: int) -> Step {
    let c = b[p];
    if c == 0x2Fu8 && p + 1 < b.len() && b[p + 1] == 0x2Fu8 {
        Step { token: None, diags: seq![], next: line_end(b, p) }
    } else if c == 0x2Fu8 && p + 1 < b.len() && b[p + 1] == 0x2Au8 {
        block_comment_step(b, p)
    } else if c == 0x24u8 {
        single(TokenKindView::Dollar, p)
    } else if c == 0x2Eu8 {
        single(TokenKindView::Dot, p)
    } else if c == 0x5Bu8 {
        single(TokenKindView::LBracket, p)
    } else if c == 0x5Du8 {
        single(TokenKindView::RBracket, p)
    } else if c == 0x3Au8 {
        single(TokenKindView::Colon, p)
    } else if c == 0x3Bu8 {
        single(TokenKindView::Semicolon, p)
    } else if c == 0x28u8 {
        single(TokenKindView::LParen, p)
    } else if c == 0x29u8 {
        single(TokenKindView::RParen, p)
    } else if is_digit_byte(c) {
        let e = digits_end(b, p + 1);
        Step {
            token: Some(tok(TokenKindView::Number(digits_value(b, p, e)), p, e)),
            diags: seq![],
            next: e,
        }
    } else if c == 0x2Du8 && p + 1 < b.len() && b[p + 1] == 0x2Du8 {
        let e = name_end(b, p + 2);
        Step {
            token: Some(
                tok(TokenKindView::CssCustomProp(bytes_as_chars(b.subrange(p, e))), p, e),
            ),
            diags: seq![],
            next: e,
        }
    } else if is_alpha_byte(c) || c == 0x5Fu8 {
        let e = name_end(b, p + 1);
        let text = bytes_as_chars(b.subrange(p, e));
        Step {
            token: Some(
                tok(
                    if text == var_chars() {
                        TokenKindView::VarKw
                    } else {
                        TokenKindView::Ident(text)
                    },
                    p,
                    e,
                ),
            ),
            diags: seq![],
            next: e,
        }
    } else {
        single(TokenKindView::AnyChar(c as char), p)
    }
}

pub proof fn lemma_run_ends(b: Seq<u8>, p: int)
    requires
        0 <= p <= b.len(),
    ensures
        p <= skip_ws(b, p) <= b.len(),
        p <= line_end(b, p) <= b.len(),
        p <= digits_end(b, p) <= b.len(),
        p <= name_end(b, p) <= b.len(),
        p <= stars_end(b, p) <= b.len(),
    decreases b.len() - p,
{
    if p < b.len() {
        lemma_run_ends(b, p + 1);
    }
}

pub proof fn lemma_find_close(b: Seq<u8>, p: int)
    requires
        0 <= p,
    ensures
        find_close(b, p) matches Some(k) ==> p <= k < b.len() && closes_at(b, k),
    decreases b.len() - p,
{
    if 0 <= p < b.len() && !closes_at(b, p) {
        lemma_find_close(b, p + 1);
    }
}

pub proof fn lemma_scan_step_advances(b: Seq<u8>, p: int)
    requires
        0 <= p < b.len(),
    ensures
        p < scan_step(b, p).next <= b.len(),
{
    lemma_run_ends(b, p);
    lemma_run_ends(b, p + 1);
    if p + 2 <= b.len() {
        lemma_run_ends(b, p + 2);
        lemma_find_close(b, p + 2);
        if let Some(k) = find_close(b, p + 2) {
            lemma_run_ends(b, k);
        }
    }
}

/// The tokens and diagnostics of the source from position `p` on.
pub open spec fn lex_from(b: Seq<u8>, p: int) -> (Seq<TokenView>, Seq<DiagnosticView>)
    decreases b.len() - p,
{
    if p < 0 || p > b.len() {
        (seq![], seq![])
    } else {
        let q = skip_ws(b, p);
        if q >= b.len() {
            (seq![tok(TokenKindView::Eof, q, q)], seq![])
        } else {
            let st = scan_step(b, q);
            proof {
                lemma_run_ends(b, p);
                lemma_scan_step_advances(b, q);
            }
            let rest = lex_from(b, st.next);
            (
                match st.token {
                    Some(t) => seq![t] + rest.0,
                    None => rest.0,
                },
                st.diags + rest.1,
            )
        }
    }
}

/// The tokens and diagnostics of a source whose bytes are `b`.
pub open spec fn lex(b: Seq<u8>) -> (Seq<TokenView>, Seq<DiagnosticView>) {
    lex_from(b, 0)
}

/// A `//` comment runs up to the first line feed after it: lexing from the
/// comment gives exactly what lexing from that line feed gives, or, where
/// no line feed follows, what lexing from the end of the source gives.
pub proof fn law_line_comment_ends_at_line_feed(b: Seq<u8>, p: int, q: int)
    requires
        0 <= p,
        p + 1 < b.len(),
        b[p] == 0x2Fu8,
        b[p + 1] == 0x2Fu8,
        p + 2 <= q <= b.len(),
        forall|k: int| p + 2 <= k < q ==> b[k] != 0x0Au8,
        q == b.len() || b[q] == 0x0Au8,
    ensures
        lex_from(b, p) == lex_from(b, q),
{
    assert(skip_ws(b, p) == p);
    lemma_line_end_at(b, p, q);
    lemma_run_ends(b, p);
    lemma_scan_step_advances(b, p);
    let rest = lex_from(b, q);
    assert(seq![] + rest.1 =~= rest.1);
}

proof fn lemma_line_end_at(b: Seq<u8>, k: int, q: int)
    requires
        0 <= k <= q <= b.len(),
        forall|j: int| k <= j < q ==> b[j] != 0x0Au8,
        q == b.len() || b[q] == 0x0Au8,
    ensures
        line_end(b, k) == q,
    decreases q - k,
{
    if k < q {
        lemma_line_end_at(b, k + 1, q);
    }
}

/// Whether the six bytes that follow the opening of a block comment at `p`
/// and its whitespace end inside a character: the byte after them
/// continues a character. Reading them as text would cut that character.
pub open spec fn cuts_marker_window(b: Seq<u8>, p: int) -> bool {
    let q = skip_ws(b, p + 2);
    q + 6 < b.len() && is_continuation_byte(b[q + 6])
}

/// Whether scanning at `q` meets a block comment that cuts its marker
/// window.
pub open spec fn step_faults(b: Seq<u8>, q: int) -> bool {
    &&& b[q] == 0x2Fu8
    &&& q + 1 < b.len()
    &&& b[q + 1] == 0x2Au8
    &&& cuts_marker_window(b, q)
}

/// Whether scanning the source from `p` on meets such a comment.
pub open spec fn lex_faults_from(b: Seq<u8>, p: int) -> bool
    decreases b.len() - p,
{
    if p < 0 || p > b.len() {
        false
    } else {
        let q = skip_ws(b, p);
        if q >= b.len() {
            false
        } else {
            proof {
                lemma_run_ends(b, p);
                lemma_scan_step_advances(b, q);
            }
            step_faults(b, q) || lex_faults_from(b, scan_step(b, q).next)
        }
    }
}

/// Whether scanning a source with bytes `b` meets a block comment whose
/// marker window cuts a character.
pub open spec fn lex_faults(b: Seq<u8>) -> bool {
    lex_faults_from(b, 0)
}

/// The tokens of a source always end with the end-of-file token.
pub proof fn lemma_lex_ends_with_eof(b: Seq<u8>, p: int)
    requires
        0 <= p <= b.len(),
    ensures
        lex_from(b, p).0.len() > 0,
        lex_from(b, p).0.last().kind is Eof,
    decreases b.len() - p,
{
    lemma_run_ends(b, p);
    let q = skip_ws(b, p);
    if q < b.len() {
        lemma_scan_step_advances(b, q);
        let st = scan_step(b, q);
        lemma_lex_ends_with_eof(b, st.next);
        let rest = lex_from(b, st.next).0;
        if let Some(t) = st.token {
            assert((seq![t] + rest).last() == rest.last());
        }
    }
}

// ---------------------------------------------------------------------------
// The lexer.
// ---------------------------------------------------------------------------

pub struct Lexer<'a> {
    src: &'a str,
    bytes: &'a [u8],
    pos: usize,
}

impl<'a> Lexer<'a> {
    /// The UTF-8 bytes of the source.
    pub closed spec fn source(&self) -> Seq<u8> {
        self.src.spec_bytes()
    }

    /// The position the lexer has reached.
    pub closed spec fn position(&self) -> int {
        self.pos as int
    }

    /// The lexer reads the bytes of its source and stands within them.
    pub closed spec fn wf(&self) -> bool {
        &&& self.bytes@ == self.src.spec_bytes()
        &&& self.pos <= self.bytes@.len()
        &&& self.bytes@.len() <= usize::MAX
    }

    pub fn new(src: &'a str) -> (l: Lexer<'a>)
        ensures
            l.wf(),
            l.source() == src.spec_bytes(),
            l.position() == 0,
    {
        let bytes = src.as_bytes();
        let _n = bytes.len();
        Lexer { src, bytes, pos: 0 }
    }

    /// All tokens of the source, ending with `Eof`, and the diagnostics met
    /// on the way.
    pub fn tokenize(self) -> (r: (Vec<Token>, Vec<Diagnostic>))
        requires
            self.wf(),
            self.position() == 0,
            !lex_faults(self.source()),
        ensures
            tokens_view(r.0@) == lex(self.source()).0,
            diags_view(r.1@) == lex(self.source()).1,
    {
        let mut lx = self;
        let mut out: Vec<Token> = Vec::new();
        let mut diags = DiagnosticBag::new();
        let ghost b = lx.bytes@;
        loop
            invariant_except_break
                tokens_view(out@) + lex_from(b, lx.pos as int).0 == lex(b).0,
                diags@ + lex_from(b, lx.pos as int).1 == lex(b).1,
            invariant
                lx.wf(),
                b == lx.bytes@,
                b == lx.source(),
            ensures
                tokens_view(out@) == lex(b).0,
                diags@ == lex(b).1,
            decreases b.len() - lx.pos,
        {
            let ghost p0 = lx.pos as int;
            proof {
                lemma_run_ends(b, p0);
            }
            lx.skip_whitespace();
            if lx.at_eof() {
                let t = lx.eof_token();
                let ghost prev = out@;
                out.push(t);
                assert(tokens_view(out@) =~= tokens_view(prev).push(t@));
                assert(tokens_view(out@) =~= tokens_view(prev) + lex_from(b, p0).0);
                assert(diags@ =~= diags@ + lex_from(b, p0).1);
                break;
            }
            let ghost q = lx.pos as int;
            let ghost d0 = diags@;
            let t = lx.scan_one(&mut diags);
            proof {
                lemma_scan_step_advances(b, q);
            }
            match t {
                Some(t) => {
                    let ghost prev = out@;
                    out.push(t);
                    assert(tokens_view(out@) =~= tokens_view(prev).push(t@));
                    assert(tokens_view(out@) + lex_from(b, lx.pos as int).0 =~= tokens_view(prev)
                        + lex_from(b, p0).0);
                },
                None => {},
            }
            assert(diags@ + lex_from(b, lx.pos as int).1 =~= d0 + lex_from(b, p0).1);
        }
        (out, diags.into_vec())
    }

    /// Whether scanning the source meets a block comment whose six bytes
    /// after its opening and whitespace end inside a character: sources
    /// that `tokenize` does not take.
    pub fn faults(self) -> (r: bool)
        requires
            self.wf(),
            self.position() == 0,
        ensures
            r == lex_faults(self.source()),
    {
        let ghost b = self.source();
        let mut lx = self;
        let mut scratch = DiagnosticBag::new();
        loop
            invariant
                lx.wf(),
                b == lx.bytes@,
                b == lx.source(),
                lex_faults_from(b, lx.pos as int) == lex_faults(b),
                b == self.source(),
            decreases b.len() - lx.pos,
        {
            let ghost p0 = lx.pos as int;
            proof {
                lemma_run_ends(b, p0);
            }
            lx.skip_whitespace();
            if lx.at_eof() {
                return false;
            }
            let q = lx.pos;
            let n = lx.bytes.len();
            if q + 1 < n && lx.bytes[q] == 0x2Fu8 && lx.bytes[q + 1] == 0x2Au8 {
                let mut k = q + 2;
                while k < n && is_ws(lx.bytes[k])
                    invariant
                        n == b.len(),
                        b == lx.bytes@,
                        q + 2 <= k <= n,
                        skip_ws(b, k as int) == skip_ws(b, q + 2),
                    decreases n - k,
                {
                    k = k + 1;
                }
                if k < n && n - k > 6 && 0x80u8 <= lx.bytes[k + 6] && lx.bytes[k + 6] <= 0xBFu8 {
                    return true;
                }
            }
            proof {
                lemma_scan_step_advances(b, q as int);
            }
            let _ = lx.scan_one(&mut scratch);
        }
    }

    fn skip_whitespace(&mut self)
        requires
            old(self).wf(),
        ensures
            final(self).wf(),
            final(self).src == old(self).src,
            final(self).bytes == old(self).bytes,
            final(self).pos == skip_ws(old(self).bytes@, old(self).pos as int),
    {
        while !self.at_eof() && is_ws(self.bytes[self.pos])
            invariant
                self.wf(),
                self.src == old(self).src,
                self.bytes == old(self).bytes,
                skip_ws(self.bytes@, self.pos as int) == skip_ws(
                    old(self).bytes@,
                    old(self).pos as int,
                ),
            decreases self.bytes@.len() - self.pos,
        {
            self.pos = self.pos + 1;
        }
    }

    fn at_eof(&self) -> (r: bool)
        requires
            self.wf(),
        ensures
            r == (self.pos >= self.bytes@.len()),
    {
        self.pos >= self.bytes.len()
    }

    fn eof_token(&self) -> (t: Token)
        ensures
            t@ == tok(TokenKindView::Eof, self.pos as int, self.pos as int),
    {
        Token { kind: TokenKind::Eof, span: Span::new(self.pos as u32, self.pos as u32) }
    }

    fn single(&mut self, kind: TokenKind, start: usize) -> (t: Option<Token>)
        requires
            old(self).wf(),
            old(self).pos < old(self).bytes@.len(),
            start == old(self).pos,
        ensures
            final(self).wf(),
            final(self).src == old(self).src,
            final(self).bytes == old(self).bytes,
            final(self).pos == start + 1,
            t matches Some(t) && t@ == tok(kind@, start as int, start + 1),
    {
        self.pos = self.pos + 1;
        Some(Token { kind, span: Span::new(start as u32, self.pos as u32) })
    }

    fn scan_one(&mut self, diags: &mut DiagnosticBag) -> (t: Option<Token>)
        requires
            old(self).wf(),
            old(self).pos < old(self).bytes@.len(),
        ensures
            final(self).wf(),
            final(self).src == old(self).src,
            final(self).bytes == old(self).bytes,
            final(self).pos == scan_step(old(self).bytes@, old(self).pos as int).next,
            t matches Some(t) ==> scan_step(old(self).bytes@, old(self).pos as int).token
                == Some(t@),
            t is None ==> scan_step(old(self).bytes@, old(self).pos as int).token is None,
            final(diags)@ == old(diags)@ + scan_step(old(self).bytes@, old(self).pos as int).diags,
    {
        let ghost b = self.bytes@;
        let start = self.pos;
        let c = self.bytes[self.pos];
        proof {
            lemma_run_ends(b, start as int);
            lemma_run_ends(b, start + 1);
        }
        if c == 0x2Fu8 {
            if self.pos + 1 < self.bytes.len() {
                let next = self.bytes[self.pos + 1];
                if next == 0x2Fu8 {
                    self.skip_line_comment();
                    assert(diags@ =~= old(diags)@ + seq![]);
                    return None;
                } else if next == 0x2Au8 {
                    return self.scan_block_comment(diags);
                }
            }
        }
        let t = if c == 0x24u8 {
            self.single(TokenKind::Dollar, start)
        } else if c == 0x2Eu8 {
            self.single(TokenKind::Dot, start)
        } else if c == 0x5Bu8 {
            self.single(TokenKind::LBracket, start)
        } else if c == 0x5Du8 {
            self.single(TokenKind::RBracket, start)
        } else if c == 0x3Au8 {
            self.single(TokenKind::Colon, start)
        } else if c == 0x3Bu8 {
            self.single(TokenKind::Semicolon, start)
        } else if c == 0x28u8 {
            self.single(TokenKind::LParen, start)
        } else if c == 0x29u8 {
            self.single(TokenKind::RParen, start)
        } else if is_digit(c) {
            self.pos = self.pos + 1;
            let mut num: u32 = (c - 0x30u8) as u32;
            assert(digits_value(b, start as int, start + 1) == num) by {
                assert(digits_value(b, start as int, start as int) == 0);
            }
            while !self.at_eof() && is_digit(self.bytes[self.pos])
                invariant
                    self.wf(),
                    self.src == old(self).src,
                    self.bytes == old(self).bytes,
                    b == self.bytes@,
                    start < self.pos <= b.len(),
                    digits_end(b, self.pos as int) == digits_end(b, start + 1),
                    num == digits_value(b, start as int, self.pos as int),
                decreases b.len() - self.pos,
            {
                let d = self.bytes[self.pos] - 0x30u8;
                num = num.wrapping_mul(10).wrapping_add(d as u32);
                self.pos = self.pos + 1;
                assert(num == digits_value(b, start as int, self.pos as int)) by {
                    let prev = digits_value(b, start as int, self.pos - 1);
                    assert((prev as int * 10 + d) % 0x1_0000_0000 == ((prev as int * 10)
                        % 0x1_0000_0000 + d) % 0x1_0000_0000) by (nonlinear_arith);
                }
            }
            Some(Token { kind: TokenKind::Number(num), span: Span::new(start as u32, self.pos as u32) })
        } else if c == 0x2Du8 && self.pos + 1 < self.bytes.len() && self.bytes[self.pos + 1]
            == 0x2Du8 {
            self.pos = self.pos + 2;
            self.skip_name();
            let text = string_from_bytes(self.bytes, start, self.pos);
            Some(
                Token {
                    kind: TokenKind::CssCustomProp(text),
                    span: Span::new(start as u32, self.pos as u32),
                },
            )
        } else if is_alpha(c) || c == 0x5Fu8 {
            self.pos = self.pos + 1;
            self.skip_name();
            let is_var = self.pos - start == 3 && self.bytes[start] == 0x76u8 && self.bytes[start
                + 1] == 0x61u8 && self.bytes[start + 2] == 0x72u8;
            let ghost text = bytes_as_chars(b.subrange(start as int, self.pos as int));
            proof {
                if is_var {
                    assert(text =~= var_chars());
                } else if text.len() == 3 {
                    if text =~= var_chars() {
                        assert(text[0] == b[start as int] as char);
                        assert(text[1] == b[start + 1] as char);
                        assert(text[2] == b[start + 2] as char);
                    }
                }
            }
            let kind = if is_var {
                TokenKind::VarKw
            } else {
                TokenKind::Ident(string_from_bytes(self.bytes, start, self.pos))
            };
            Some(Token { kind, span: Span::new(start as u32, self.pos as u32) })
        } else {
            self.single(TokenKind::AnyChar(c as char), start)
        };
        assert(diags@ =~= old(diags)@ + seq![]);
        t
    }

    /// Moves over letters, digits, `-` and `_`.
    fn skip_name(&mut self)
        requires
            old(self).wf(),
        ensures
            final(self).wf(),
            final(self).src == old(self).src,
            final(self).bytes == old(self).bytes,
            final(self).pos == name_end(old(self).bytes@, old(self).pos as int),
    {
        while !self.at_eof() && (is_alnum(self.bytes[self.pos]) || self.bytes[self.pos] == 0x2Du8
            || self.bytes[self.pos] == 0x5Fu8)
            invariant
                self.wf(),
                self.src == old(self).src,
                self.bytes == old(self).bytes,
                name_end(self.bytes@, self.pos as int) == name_end(
                    old(self).bytes@,
                    old(self).pos as int,
                ),
            decreases self.bytes@.len() - self.pos,
        {
            self.pos = self.pos + 1;
        }
    }

    fn skip_line_comment(&mut self)
        requires
            old(self).wf(),
        ensures
            final(self).wf(),
            final(self).src == old(self).src,
            final(self).bytes == old(self).bytes,
            final(self).pos == line_end(old(self).bytes@, old(self).pos as int),
    {
        while !self.at_eof() && self.bytes[self.pos] != 0x0Au8
            invariant
                self.wf(),
                self.src == old(self).src,
                self.bytes == old(self).bytes,
                line_end(self.bytes@, self.pos as int) == line_end(
                    old(self).bytes@,
                    old(self).pos as int,
                ),
            decreases self.bytes@.len() - self.pos,
        {
            self.pos = self.pos + 1;
        }
    }

    fn scan_block_comment(&mut self, diags: &mut DiagnosticBag) -> (t: Option<Token>)
        requires
            old(self).wf(),
            old(self).pos + 1 < old(self).bytes@.len(),
            old(self).bytes@[old(self).pos as int] == 0x2Fu8,
            old(self).bytes@[old(self).pos + 1] == 0x2Au8,
        ensures
            final(self).wf(),
            final(self).src == old(self).src,
            final(self).bytes == old(self).bytes,
            final(self).pos == block_comment_step(old(self).bytes@, old(self).pos as int).next,
            t matches Some(t) ==> block_comment_step(old(self).bytes@, old(self).pos as int).token
                == Some(t@),
            t is None ==> block_comment_step(old(self).bytes@, old(self).pos as int).token is None,
            final(diags)@ == old(diags)@ + block_comment_step(
                old(self).bytes@,
                old(self).pos as int,
            ).diags,
    {
        let ghost b = self.bytes@;
        let n = self.bytes.len();
        let start = self.pos;
        self.pos = self.pos + 2;
        proof {
            lemma_run_ends(b, start + 2);
        }

        let mut inner_start = self.pos;
        while inner_start < n && is_ws(self.bytes[inner_start])
            invariant
                n == b.len(),
                b == self.bytes@,
                start + 2 <= inner_start <= n,
                skip_ws(b, inner_start as int) == skip_ws(b, start + 2),
                forall|i: int| start + 2 <= i < inner_start ==> is_ws_byte(#[trigger] b[i]),
            decreases n - inner_start,
        {
            inner_start = inner_start + 1;
        }
        let ghost ws_end = inner_start as int;

        let mut is_theme = false;
        if n >= 6 && inner_start <= n - 6 && self.bytes[inner_start] == 0x40u8 && self.bytes[inner_start
            + 1] == 0x74u8 && self.bytes[inner_start + 2] == 0x68u8 && self.bytes[inner_start
            + 3] == 0x65u8 && self.bytes[inner_start + 4] == 0x6Du8 && self.bytes[inner_start
            + 5] == 0x65u8 {
            assert(b.subrange(ws_end, ws_end + 6) =~= theme_marker());
            is_theme = true;
            inner_start = inner_start + 6;
            while inner_start < n && is_ws(self.bytes[inner_start])
                invariant
                    n == b.len(),
                    b == self.bytes@,
                    ws_end + 6 <= inner_start <= n,
                    skip_ws(b, inner_start as int) == skip_ws(b, ws_end + 6),
                    forall|i: int| start + 2 <= i < ws_end ==> is_ws_byte(#[trigger] b[i]),
                    forall|i: int| ws_end + 6 <= i < inner_start ==> is_ws_byte(#[trigger] b[i]),
                    b.subrange(ws_end, ws_end + 6) == theme_marker(),
                decreases n - inner_start,
            {
                inner_start = inner_start + 1;
            }
        } else {
            proof {
                if has_theme_marker(b, ws_end) {
                    let m = b.subrange(ws_end, ws_end + 6);
                    assert(m[0] == b[ws_end]);
                    assert(m[1] == b[ws_end + 1]);
                    assert(m[2] == b[ws_end + 2]);
                    assert(m[3] == b[ws_end + 3]);
                    assert(m[4] == b[ws_end + 4]);
                    assert(m[5] == b[ws_end + 5]);
                }
            }
        }
        assert(is_theme == has_theme_marker(b, skip_ws(b, start + 2)));
        assert(is_theme ==> inner_start == theme_text_start(b, start as int));

        let mut found_close = false;
        let mut inner_end = self.pos;
        while self.pos < n
            invariant_except_break
                !found_close,
                start + 2 <= self.pos <= n,
                find_close(b, self.pos as int) == find_close(b, start + 2),
            invariant
                self.wf(),
                self.src == old(self).src,
                self.bytes == old(self).bytes,
                n == b.len(),
                b == self.bytes@,
            ensures
                found_close ==> find_close(b, start + 2) == Some(inner_end as int) && self.pos
                    == stars_end(b, inner_end as int) + 1,
                !found_close ==> find_close(b, start + 2) is None && self.pos == n,
            decreases n - self.pos,
        {
            if self.bytes[self.pos] == 0x2Au8 {
                let mut star_count: usize = 1;
                while self.pos + star_count < n && self.bytes[self.pos + star_count] == 0x2Au8
                    invariant
                        n == b.len(),
                        b == self.bytes@,
                        self.pos < n,
                        1 <= star_count,
                        self.pos + star_count <= n,
                        stars_end(b, self.pos + star_count) == stars_end(b, self.pos as int),
                    decreases n - self.pos - star_count,
                {
                    star_count = star_count + 1;
                }
                if self.pos + star_count < n && self.bytes[self.pos + star_count] == 0x2Fu8 {
                    assert(closes_at(b, self.pos as int));
                    inner_end = self.pos;
                    self.pos = self.pos + star_count + 1;
                    found_close = true;
                    break;
                }
            }
            self.pos = self.pos + 1;
        }

        if !found_close {
            diags.error(
                "TC0002",
                crate::text::string_of("unclosed block comment"),
                Span::new(start as u32, self.pos as u32),
            );
            return None;
        }
        let ghost k = inner_end as int;
        assert(find_close(b, start + 2) == Some(k));
        if is_theme {
            proof {
                assert forall|i: int| start + 2 <= i < inner_start implies b[i] != 0x2Au8 by {
                    if ws_end <= i < ws_end + 6 {
                        assert(b[i] == b.subrange(ws_end, ws_end + 6)[i - ws_end]);
                    }
                }
                lemma_find_close_after(b, start + 2, inner_start as int);
                lemma_find_close(b, start + 2);
            }
            while inner_end > inner_start && is_ws(self.bytes[inner_end - 1])
                invariant
                    n == b.len(),
                    b == self.bytes@,
                    inner_start <= inner_end <= k < n,
                    trim_back(b, inner_start as int, inner_end as int) == trim_back(
                        b,
                        inner_start as int,
                        k,
                    ),
                    inner_end == k || is_ws_byte(b[inner_end as int]),
                decreases inner_end,
            {
                inner_end = inner_end - 1;
            }
            proof {
                let v = self.src@;
                assert(b == encode_utf8(v));
                encode_utf8_valid_utf8(v);
                lemma_boundary_after_ascii(b, inner_start - 1);
                if inner_end > inner_start {
                    let e = b[inner_end as int];
                    assert(e == 0x2Au8 || is_ws_byte(e));
                    assert(!is_continuation_byte(e)) by (bit_vector)
                        requires
                            e == 0x2Au8 || e == 0x20u8 || e == 0x09u8 || e == 0x0Au8 || e
                                == 0x0Cu8 || e == 0x0Du8,
                    ;
                    is_char_boundary_iff_not_is_continuation_byte(b, inner_end as int);
                }
            }
            let raw = str_slice(self.src, inner_start, inner_end);
            let text = crate::text::string_of(raw);
            assert(diags@ =~= old(diags)@ + seq![]);
            Some(
                Token {
                    kind: TokenKind::ThemeComment(text),
                    span: Span::new(start as u32, self.pos as u32),
                },
            )
        } else {
            assert(diags@ =~= old(diags)@ + seq![]);
            None
        }
    }
}

/// A block comment cannot close inside the whitespace and `@theme` marker
/// that open it: the close lies at or after the comment text's start.
proof fn lemma_find_close_after(b: Seq<u8>, p: int, m: int)
    requires
        0 <= p <= m <= b.len(),
        forall|i: int| p <= i < m ==> b[i] != 0x2Au8,
    ensures
        find_close(b, p) matches Some(k) ==> m <= k,
    decreases m - p,
{
    lemma_find_close(b, p);
    if p < m {
        assert(!closes_at(b, p));
        lemma_find_close_after(b, p + 1, m);
    }
}

} // verus!
