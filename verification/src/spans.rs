//! Highlight ranges of one matched line.
use smallvec::SmallVec;
use vstd::prelude::*;

verus! {

/// Byte ranges `(start, end)` within one displayed line, in the order in which they were found.
///
/// Up to four ranges live inline, which covers almost every line; the storage is
/// `smallvec::SmallVec`.
#[verifier::external_body]
#[derive(Debug)]
pub struct MatchSpans {
    ranges: SmallVec<[(u32, u32); 4]>,
}

/// The ranges held by a [`MatchSpans`], first to last.
pub uninterp spec fn span_seq(spans: MatchSpans) -> Seq<(u32, u32)>;

impl View for MatchSpans {
    type V = Seq<(u32, u32)>;

    open spec fn view(&self) -> Seq<(u32, u32)> {
        span_seq(*self)
    }
}

/// `smallvec::SmallVec::new`: a vector without items.
#[verifier::external_body]
fn empty_spans() -> (spans: MatchSpans)
    ensures
        span_seq(spans) == Seq::<(u32, u32)>::empty(),
{
    MatchSpans { ranges: SmallVec::new() }
}

/// `smallvec::SmallVec::push`: the item goes behind those already held, which stay as they are.
#[verifier::external_body]
fn push_span(spans: &mut MatchSpans, span: (u32, u32))
    ensures
        span_seq(*final(spans)) == span_seq(*old(spans)).push(span),
{
    spans.ranges.push(span)
}

/// `smallvec::SmallVec::len`: the number of items held.
#[verifier::external_body]
fn count_spans(spans: &MatchSpans) -> (count: usize)
    ensures
        count == span_seq(*spans).len(),
{
    spans.ranges.len()
}

/// Indexing of a `smallvec::SmallVec` for reading: the item at that position.
#[verifier::external_body]
fn read_span(spans: &MatchSpans, at: usize) -> (span: (u32, u32))
    requires
        at < span_seq(*spans).len(),
    ensures
        span == span_seq(*spans)[at as int],
{
    spans.ranges[at]
}

/// Indexing of a `smallvec::SmallVec` for writing: only the item at that position changes.
#[verifier::external_body]
fn write_span(spans: &mut MatchSpans, at: usize, span: (u32, u32))
    requires
        at < span_seq(*old(spans)).len(),
    ensures
        span_seq(*final(spans)) == span_seq(*old(spans)).update(at as int, span),
{
    spans.ranges[at] = span
}

impl MatchSpans {
    /// No ranges.
    pub fn new() -> (spans: Self)
        ensures
            spans@ == Seq::<(u32, u32)>::empty(),
    {
        empty_spans()
    }

    /// Adds a range behind the others.
    pub fn push(&mut self, span: (u32, u32))
        ensures
            final(self)@ == old(self)@.push(span),
    {
        push_span(self, span)
    }

    /// The number of ranges.
    pub fn len(&self) -> (count: usize)
        ensures
            count == self@.len(),
    {
        count_spans(self)
    }

    /// The range at position `at`.
    pub fn get(&self, at: usize) -> (span: (u32, u32))
        requires
            at < self@.len(),
        ensures
            span == self@[at as int],
    {
        read_span(self, at)
    }

    /// Replaces the range at position `at`.
    pub fn set(&mut self, at: usize, span: (u32, u32))
        requires
            at < old(self)@.len(),
        ensures
            final(self)@ == old(self)@.update(at as int, span),
    {
        write_span(self, at, span)
    }

    /// The ranges of a vector, in its order.
    pub fn from_vec(ranges: &Vec<(u32, u32)>) -> (spans: Self)
        ensures
            spans@ == ranges@,
    {
        let mut spans = MatchSpans::new();
        let mut at: usize = 0;
        while at < ranges.len()
            invariant
                at <= ranges.len(),
                spans@ == ranges@.take(at as int),
            decreases ranges.len() - at,
        {
            spans.push(ranges[at]);
            at += 1;
        }
        assert(ranges@.take(at as int) == ranges@);
        spans
    }

    /// The ranges as a vector.
    pub fn to_vec(&self) -> (ranges: Vec<(u32, u32)>)
        ensures
            ranges@ == self@,
    {
        let mut ranges: Vec<(u32, u32)> = Vec::new();
        let count: usize = self.len();
        let mut at: usize = 0;
        while at < count
            invariant
                at <= count,
                count == self@.len(),
                ranges@ == self@.take(at as int),
            decreases count - at,
        {
            ranges.push(self.get(at));
            at += 1;
        }
        assert(self@.take(count as int) == self@);
        ranges
    }
}

impl Clone for MatchSpans {
    fn clone(&self) -> (copy: Self)
        ensures
            copy@ == self@,
    {
        MatchSpans::from_vec(&self.to_vec())
    }
}

} // verus!
