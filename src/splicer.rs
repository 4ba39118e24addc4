use vstd::prelude::*;
use vstd::string::*;
use vstd::utf8::*;

use crate::dockerfile::Dockerfile;
use crate::text::{utf8, substring, push_text, lemma_prefix_boundary, lemma_suffix_boundary, lemma_concat_boundary};

verus! {

broadcast use vstd::utf8::encode_utf8_valid_utf8;

/// A half-open range of byte offsets into one fixed text.
#[derive(Clone, Copy, Debug, PartialEq, Eq, Structural, PartialOrd, Ord, Hash)]
pub struct Span {
    pub start: usize,
    pub end: usize,
}

impl Span {
    pub fn new(start: usize, end: usize) -> (r: Span)
        ensures
            r.start == start,
            r.end == end,
    {
        Span { start, end }
    }

    /// This span, given in coordinates of the unedited text, carried
    /// through the replacements of `offsets`, oldest first.
    pub fn adjust_offsets(&self, offsets: &Vec<SpliceOffset>) -> (r: Span)
        ensures
            (r.start as int, r.end as int) == remap(offsets@, self.start as int, self.end as int),
    {
        let mut s: usize = self.start;
        let mut e: usize = self.end;
        let mut i: usize = 0;
        let ghost log = offsets@;
        while i < offsets.len()
            invariant
                log == offsets@,
                i <= log.len(),
                (s as int, e as int) == remap(log.subrange(0, i as int), self.start as int, self.end as int),
            decreases log.len() - i,
        {
            let o = &offsets[i];
            if o.position < s {
                s = shifted(s, o);
                e = shifted(e, o);
            } else if o.position < e {
                e = shifted(e, o);
            }
            proof {
                assert(log.subrange(0, i + 1).drop_last() =~= log.subrange(0, i as int));
            }
            i = i + 1;
        }
        proof {
            assert(log.subrange(0, log.len() as int) =~= log);
        }
        Span { start: s, end: e }
    }

    /// The 0-indexed line of this span's start in the text of `dockerfile`,
    /// and the span relative to the start of that line.
    pub fn relative_span(&self, dockerfile: &Dockerfile) -> (r: (usize, Span))
        requires
            self.start <= self.end,
        ensures
            ({
                let b = utf8(dockerfile.content@);
                let head = b.subrange(0, if self.start <= b.len() { self.start as int } else { b.len() as int });
                &&& r.0 == newline_count(head)
                &&& r.1.start == self.start - line_start(head)
                &&& r.1.end == r.1.start + (self.end - self.start)
            }),
    {
        self.relative_span_in(dockerfile.content.as_str())
    }

    /// Determines the 0-indexed line of this span's start in `content` and the
    /// span's position relative to the start of that line. A span that
    /// crosses a newline keeps its length, so its relative end may lie past
    /// the end of the line.
    pub fn relative_span_in(&self, content: &str) -> (r: (usize, Span))
        requires
            self.start <= self.end,
        ensures
            ({
                let b = content.spec_bytes();
                let head = b.subrange(0, if self.start <= b.len() { self.start as int } else { b.len() as int });
                &&& r.0 == newline_count(head)
                &&& r.1.start == self.start - line_start(head)
                &&& r.1.end == r.1.start + (self.end - self.start)
            }),
    {
        let bytes = content.as_bytes();
        let ghost b = bytes@;
        let mut line_start_offset: usize = 0;
        let mut lines: usize = 0;
        let mut i: usize = 0;
        while i < bytes.len() && i < self.start
            invariant
                b == content.spec_bytes(),
                bytes@ == b,
                i <= b.len(),
                i <= self.start,
                lines == newline_count(b.subrange(0, i as int)),
                line_start_offset == line_start(b.subrange(0, i as int)),
                line_start_offset <= i,
                lines <= i,
            decreases b.len() - i,
        {
            if bytes[i] == 10u8 {
                lines = lines + 1;
                line_start_offset = i + 1;
            }
            proof {
                assert(b.subrange(0, i + 1).drop_last() =~= b.subrange(0, i as int));
            }
            i = i + 1;
        }
        let start = self.start - line_start_offset;
        let end = start + (self.end - self.start);
        (lines, Span { start, end })
    }
}

/// The number of newline bytes in `b`.
pub open spec fn newline_count(b: Seq<u8>) -> nat
    decreases b.len(),
{
    if b.len() == 0 {
        0
    } else {
        newline_count(b.drop_last()) + if b.last() == 10u8 { 1nat } else { 0nat }
    }
}

/// The offset just past the last newline of `b`, or 0 when there is none.
pub open spec fn line_start(b: Seq<u8>) -> nat
    decreases b.len(),
{
    if b.len() == 0 {
        0
    } else if b.last() == 10u8 {
        b.len()
    } else {
        line_start(b.drop_last())
    }
}

/// One recorded replacement: at `position` (in the buffer as it was then),
/// `removed` bytes gave way to `added` bytes.
#[derive(Clone, Copy, Debug, PartialEq, Eq, Structural)]
pub struct SpliceOffset {
    pub position: usize,
    pub removed: usize,
    pub added: usize,
}

/// `x` held to the range of `usize`.
pub open spec fn clamp(x: int) -> int {
    if x < 0 {
        0
    } else if x > usize::MAX {
        usize::MAX as int
    } else {
        x
    }
}

/// A bound moved by the length change of one replacement.
pub open spec fn shift(x: int, o: SpliceOffset) -> int {
    clamp(x + o.added - o.removed)
}

/// One replacement's effect on a span: one made before its start moves the
/// whole span; one made inside it moves only the end.
pub open spec fn remap_one(o: SpliceOffset, s: int, e: int) -> (int, int) {
    if o.position < s {
        (shift(s, o), shift(e, o))
    } else if o.position < e {
        (s, shift(e, o))
    } else {
        (s, e)
    }
}

/// A span of the unedited text carried through every recorded replacement,
/// oldest first.
pub open spec fn remap(log: Seq<SpliceOffset>, s: int, e: int) -> (int, int)
    decreases log.len(),
{
    if log.len() == 0 {
        (s, e)
    } else {
        let p = remap(log.drop_last(), s, e);
        remap_one(log.last(), p.0, p.1)
    }
}

/// A span `s..e` that can be cut out of `content`.
pub open spec fn splice_applies(content: Seq<u8>, s: int, e: int) -> bool {
    &&& 0 <= s <= e <= content.len()
    &&& is_char_boundary(content, s)
    &&& is_char_boundary(content, e)
}

/// The effect of one splice on the buffer and its log: the span is carried
/// into current coordinates, then replaced. A span that does not fit the
/// current buffer changes nothing.
pub open spec fn splice_model(
    content: Seq<u8>,
    log: Seq<SpliceOffset>,
    span: Span,
    repl: Seq<u8>,
) -> (Seq<u8>, Seq<SpliceOffset>) {
    let (s, e) = remap(log, span.start as int, span.end as int);
    if splice_applies(content, s, e) && repl.len() <= usize::MAX {
        (
            content.subrange(0, s) + repl + content.subrange(e, content.len() as int),
            log.push(SpliceOffset { position: s as usize, removed: (e - s) as usize, added: repl.len() as usize }),
        )
    } else {
        (content, log)
    }
}

/// What two splices of a fresh buffer on disjoint spans leave, where the
/// first is the earlier span.
pub proof fn lemma_earlier_then_later(text: Seq<u8>, a: Span, ra: Seq<u8>, b: Span, rb: Seq<u8>)
    requires
        valid_utf8(text),
        valid_utf8(ra),
        text.len() + ra.len() + rb.len() <= usize::MAX,
        a.start <= a.end <= b.start <= b.end <= text.len(),
        a.start < b.start,
        is_char_boundary(text, a.start as int),
        is_char_boundary(text, a.end as int),
        is_char_boundary(text, b.start as int),
        is_char_boundary(text, b.end as int),
    ensures
        ({
            let first = splice_model(text, Seq::<SpliceOffset>::empty(), a, ra);
            splice_model(first.0, first.1, b, rb).0 == text.subrange(0, a.start as int) + ra
                + text.subrange(a.end as int, b.start as int) + rb + text.subrange(
                b.end as int,
                text.len() as int,
            )
        }),
{
    let empty = Seq::<SpliceOffset>::empty();
    let n = text.len() as int;
    let (as_, ae, bs, be) = (a.start as int, a.end as int, b.start as int, b.end as int);
    assert(remap(empty, as_, ae) == (as_, ae));
    let p = text.subrange(0, as_);
    let s = text.subrange(ae, n);
    let t1 = p + ra + s;
    let log1 = empty.push(
        SpliceOffset { position: a.start, removed: (ae - as_) as usize, added: ra.len() as usize },
    );
    assert(splice_model(text, empty, a, ra) == (t1, log1));
    lemma_prefix_boundary(text, as_, 0);
    lemma_suffix_boundary(text, ae, bs);
    lemma_suffix_boundary(text, ae, be);
    lemma_concat_boundary(p, ra, 0);
    let d = ra.len() - (ae - as_);
    lemma_concat_boundary(p + ra, s, as_ + ra.len() + (bs - ae));
    lemma_concat_boundary(p + ra, s, as_ + ra.len() + (be - ae));
    assert(log1.drop_last() =~= empty);
    assert(remap(empty, bs, be) == (bs, be));
    assert(remap(log1, bs, be) == remap_one(log1.last(), bs, be));
    assert(remap(log1, bs, be) == (bs + d, be + d));
    assert(t1.subrange(0, bs + d) =~= p + ra + text.subrange(ae, bs));
    assert(t1.subrange(be + d, t1.len() as int) =~= text.subrange(be, n));
}

/// What two splices of a fresh buffer on disjoint spans leave, where the
/// first is the later span.
pub proof fn lemma_later_then_earlier(text: Seq<u8>, a: Span, ra: Seq<u8>, b: Span, rb: Seq<u8>)
    requires
        valid_utf8(text),
        valid_utf8(rb),
        text.len() + ra.len() + rb.len() <= usize::MAX,
        a.start <= a.end <= b.start <= b.end <= text.len(),
        is_char_boundary(text, a.start as int),
        is_char_boundary(text, a.end as int),
        is_char_boundary(text, b.start as int),
        is_char_boundary(text, b.end as int),
    ensures
        ({
            let first = splice_model(text, Seq::<SpliceOffset>::empty(), b, rb);
            splice_model(first.0, first.1, a, ra).0 == text.subrange(0, a.start as int) + ra
                + text.subrange(a.end as int, b.start as int) + rb + text.subrange(
                b.end as int,
                text.len() as int,
            )
        }),
{
    let empty = Seq::<SpliceOffset>::empty();
    let n = text.len() as int;
    let (as_, ae, bs, be) = (a.start as int, a.end as int, b.start as int, b.end as int);
    assert(remap(empty, bs, be) == (bs, be));
    is_char_boundary_start_end_of_seq(text);
    let q = text.subrange(0, bs);
    let u = text.subrange(be, n);
    let t2 = q + rb + u;
    let log2 = empty.push(
        SpliceOffset { position: b.start, removed: (be - bs) as usize, added: rb.len() as usize },
    );
    assert(splice_model(text, empty, b, rb) == (t2, log2));
    lemma_prefix_boundary(text, bs, as_);
    lemma_prefix_boundary(text, bs, ae);
    lemma_suffix_boundary(text, be, n);
    lemma_concat_boundary(q, rb, as_);
    lemma_concat_boundary(q, rb, ae);
    lemma_concat_boundary(q + rb, u, as_);
    lemma_concat_boundary(q + rb, u, ae);
    assert(log2.drop_last() =~= empty);
    assert(remap(empty, as_, ae) == (as_, ae));
    assert(remap(log2, as_, ae) == remap_one(log2.last(), as_, ae));
    assert(remap(log2, as_, ae) == (as_, ae));
    assert(t2.subrange(0, as_) =~= text.subrange(0, as_));
    assert(t2.subrange(ae, t2.len() as int) =~= text.subrange(ae, bs) + rb + u);
}

/// Two splices of a fresh buffer, on disjoint spans of the unedited text
/// where the first begins strictly before the second, give the same text in
/// either order.
pub proof fn lemma_splice_order_independent(
    text: Seq<u8>,
    a: Span,
    ra: Seq<u8>,
    b: Span,
    rb: Seq<u8>,
)
    requires
        valid_utf8(text),
        valid_utf8(ra),
        valid_utf8(rb),
        text.len() + ra.len() + rb.len() <= usize::MAX,
        a.start <= a.end <= b.start <= b.end <= text.len(),
        a.start < b.start,
        is_char_boundary(text, a.start as int),
        is_char_boundary(text, a.end as int),
        is_char_boundary(text, b.start as int),
        is_char_boundary(text, b.end as int),
    ensures
        ({
            let empty = Seq::<SpliceOffset>::empty();
            let first_a = splice_model(text, empty, a, ra);
            let first_b = splice_model(text, empty, b, rb);
            splice_model(first_a.0, first_a.1, b, rb).0 == splice_model(first_b.0, first_b.1, a, ra).0
        }),
{
    lemma_earlier_then_later(text, a, ra, b, rb);
    lemma_later_then_earlier(text, a, ra, b, rb);
}

/// A text buffer on which spans of the unedited text are replaced, one call
/// after another; each call finds its span by way of the replacements before
/// it.
pub struct Splicer {
    /// The current content of the buffer.
    pub content: String,
    /// The replacements made so far, oldest first.
    pub splice_offsets: Vec<SpliceOffset>,
}

fn shifted(x: usize, o: &SpliceOffset) -> (r: usize)
    ensures
        r == shift(x as int, *o),
{
    let v: i128 = x as i128 + o.added as i128 - o.removed as i128;
    if v < 0 {
        0
    } else if v > usize::MAX as i128 {
        usize::MAX
    } else {
        v as usize
    }
}

impl Splicer {
    /// The bytes of the buffer.
    pub open spec fn bytes(&self) -> Seq<u8> {
        utf8(self.content@)
    }

    /// The replacements made so far, oldest first.
    pub open spec fn log(&self) -> Seq<SpliceOffset> {
        self.splice_offsets@
    }

    /// A splicer over a copy of the text of `dockerfile`.
    pub fn from(dockerfile: &Dockerfile) -> (r: Splicer)
        ensures
            r.content@ == dockerfile.content@,
            r.log() == Seq::<SpliceOffset>::empty(),
    {
        Splicer::from_str(dockerfile.content.as_str())
    }

    /// A splicer over a copy of `s`, with nothing replaced yet.
    pub fn from_str(s: &str) -> (r: Splicer)
        ensures
            r.content@ == s@,
            r.log() == Seq::<SpliceOffset>::empty(),
    {
        Splicer { content: s.to_owned(), splice_offsets: Vec::new() }
    }

    /// Replaces `span`, given in coordinates of the unedited text, with
    /// `replacement`. An empty replacement deletes the span. Where the
    /// carried span does not fit the current buffer (out of bounds or
    /// inside a character) nothing changes. A span that overlaps an earlier
    /// splice is carried by the same rule: the result is defined, but it is
    /// not an edit of the text that span once covered.
    pub fn splice(&mut self, span: &Span, replacement: &str)
        ensures
            (final(self).bytes(), final(self).log()) == splice_model(
                old(self).bytes(),
                old(self).log(),
                *span,
                replacement.spec_bytes(),
            ),
    {
        let carried = span.adjust_offsets(&self.splice_offsets);
        let (s, e) = (carried.start, carried.end);
        let ghost b = self.bytes();
        let len = self.content.as_str().as_bytes().len();
        let rlen = replacement.as_bytes().len();
        if s <= e && e <= len && self.content.as_str().is_char_boundary(s)
            && self.content.as_str().is_char_boundary(e) {
            let ghost repl = replacement.spec_bytes();
            proof {
                is_char_boundary_start_end_of_seq(b);
            }
            let mut out = substring(self.content.as_str(), 0, s);
            push_text(&mut out, replacement);
            let tail = substring(self.content.as_str(), e, len);
            push_text(&mut out, tail.as_str());
            self.content = out;
            self.splice_offsets.push(SpliceOffset { position: s, removed: e - s, added: rlen });
            proof {
                assert(self.bytes() =~= b.subrange(0, s as int) + repl + b.subrange(e as int, b.len() as int));
            }
        }
    }
}

} // verus!
