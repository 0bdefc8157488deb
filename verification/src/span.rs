//! Byte spans into a source text, and line/column lookup.

use vstd::prelude::*;
use vstd::utf8::*;
use vstd::string::*;
use crate::text::str_slice;

verus! {

/// A half-open range `lo..hi` of byte offsets into a source text.
#[derive(Clone, Copy, PartialEq, Eq, Debug, Structural)]
pub struct Span {
    pub lo: u32,
    pub hi: u32,
}

pub open spec fn min_u32(a: u32, b: u32) -> u32 {
    if a <= b { a } else { b }
}

pub open spec fn max_u32(a: u32, b: u32) -> u32 {
    if a >= b { a } else { b }
}

impl Span {
    pub open spec fn spec_merge(self, other: Span) -> Span {
        Span { lo: min_u32(self.lo, other.lo), hi: max_u32(self.hi, other.hi) }
    }

    pub fn new(lo: u32, hi: u32) -> (s: Span)
        ensures
            s == (Span { lo, hi }),
    {
        Span { lo, hi }
    }

    /// The smallest span that covers both `self` and `other`.
    pub fn merge(self, other: Span) -> (s: Span)
        ensures
            s == self.spec_merge(other),
    {
        Span {
            lo: if self.lo <= other.lo { self.lo } else { other.lo },
            hi: if self.hi >= other.hi { self.hi } else { other.hi },
        }
    }
}

/// Merging spans is commutative, associative and idempotent, and the merge
/// covers each of its operands.
pub proof fn lemma_merge_laws(a: Span, b: Span, c: Span)
    ensures
        a.spec_merge(b) == b.spec_merge(a),
        a.spec_merge(b).spec_merge(c) == a.spec_merge(b.spec_merge(c)),
        a.spec_merge(a) == a,
        a.spec_merge(b).lo <= a.lo,
        a.spec_merge(b).hi >= a.hi,
{
}

/// The line starts of a text whose bytes are `b`, looking at its first `n`
/// bytes: offset 0, then the offset after each line feed, in order.
pub open spec fn line_starts_upto(b: Seq<u8>, n: int) -> Seq<u32>
    decreases n,
{
    if n <= 0 {
        seq![0u32]
    } else if b[n - 1] == 0x0Au8 {
        line_starts_upto(b, n - 1).push(n as u32)
    } else {
        line_starts_upto(b, n - 1)
    }
}

pub open spec fn line_starts_of(b: Seq<u8>) -> Seq<u32> {
    line_starts_upto(b, b.len() as int)
}

/// A source text together with the byte offsets at which its lines start.
pub struct SourceMap {
    src: String,
    line_starts: Vec<u32>,
}

proof fn lemma_line_starts_sorted(b: Seq<u8>, n: int)
    requires
        0 <= n <= b.len(),
        b.len() <= u32::MAX,
    ensures
        line_starts_upto(b, n).len() >= 1,
        line_starts_upto(b, n)[0] == 0,
        forall|i: int, j: int|
            0 <= i < j < line_starts_upto(b, n).len() ==> line_starts_upto(b, n)[i]
                < line_starts_upto(b, n)[j],
        forall|i: int|
            0 <= i < line_starts_upto(b, n).len() ==> line_starts_upto(b, n)[i] <= n,
    decreases n,
{
    if n > 0 {
        lemma_line_starts_sorted(b, n - 1);
    }
}

impl SourceMap {
    /// The line starts are those of the source text.
    #[verifier::type_invariant]
    spec fn starts_match(&self) -> bool {
        self.line_starts@ == line_starts_of(encode_utf8(self.src@))
    }

    /// The characters of the source text.
    pub closed spec fn text(&self) -> Seq<char> {
        self.src@
    }

    /// The UTF-8 bytes of the source text.
    pub open spec fn bytes(&self) -> Seq<u8> {
        encode_utf8(self.text())
    }

    /// The offsets at which the lines of the source text start.
    pub closed spec fn starts(&self) -> Seq<u32> {
        self.line_starts@
    }

    pub fn new(src: String) -> (m: SourceMap)
        ensures
            m.text() == src@,
            m.starts() == line_starts_of(m.bytes()),
    {
        let mut line_starts: Vec<u32> = Vec::new();
        line_starts.push(0);
        let bytes = src.as_str().as_bytes();
        let n = bytes.len();
        let mut i: usize = 0;
        while i < n
            invariant
                n == bytes@.len(),
                bytes@ == encode_utf8(src@),
                i <= n,
                line_starts@ == line_starts_upto(bytes@, i as int),
            decreases n - i,
        {
            if bytes[i] == 0x0Au8 {
                line_starts.push((i + 1) as u32);
            }
            i = i + 1;
        }
        SourceMap { src, line_starts }
    }

    /// The 1-based line and column of byte offset `pos`: the line is the
    /// number of line starts at or before `pos`, the column counts bytes
    /// from that line's start.
    pub fn line_col(&self, pos: u32) -> (r: (usize, usize))
        requires
            self.bytes().len() <= u32::MAX,
            (pos as int) < usize::MAX,
        ensures
            1 <= r.0 <= self.starts().len(),
            self.starts()[r.0 - 1] <= pos,
            r.0 == self.starts().len() || pos < self.starts()[r.0 as int],
            r.1 == pos - self.starts()[r.0 - 1] + 1,
    {
        proof {
            use_type_invariant(self);
            lemma_line_starts_sorted(self.bytes(), self.bytes().len() as int);
        }
        let starts = &self.line_starts;
        let mut lo: usize = 0;
        let mut hi: usize = starts.len();
        while lo < hi
            invariant
                starts@ == self.starts(),
                0 <= lo <= hi <= starts@.len(),
                starts@.len() >= 1,
                starts@[0] == 0,
                forall|i: int, j: int| 0 <= i < j < starts@.len() ==> starts@[i] < starts@[j],
                forall|i: int| 0 <= i < lo ==> starts@[i] <= pos,
                forall|i: int| hi <= i < starts@.len() ==> starts@[i] > pos,
            decreases hi - lo,
        {
            let mid = lo + (hi - lo) / 2;
            if starts[mid] <= pos {
                lo = mid + 1;
            } else {
                hi = mid;
            }
        }
        let line_start = starts[lo - 1];
        let col = (pos - line_start) as usize + 1;
        (lo, col)
    }

    /// The source text between the two byte offsets of `span`.
    pub fn snippet(&self, span: Span) -> (r: &str)
        requires
            span.lo <= span.hi <= self.bytes().len(),
            is_char_boundary(self.bytes(), span.lo as int),
            is_char_boundary(self.bytes(), span.hi as int),
        ensures
            r.spec_bytes() == self.bytes().subrange(span.lo as int, span.hi as int),
    {
        str_slice(self.src.as_str(), span.lo as usize, span.hi as usize)
    }
}

} // verus!
