//! [`EmptySpan`]: a span whose range is empty.
use core::ops::Deref;

use vstd::prelude::*;

use crate::span::{Span, SpanView};

verus! {

/// A [`Span`] whose range is empty: it marks an offset of its source.
#[derive(Debug)]
pub struct EmptySpan {
    span: Span,
}

impl View for EmptySpan {
    type V = SpanView;

    closed spec fn view(&self) -> SpanView {
        self.span@
    }
}

impl EmptySpan {
    #[verifier::type_invariant]
    closed spec fn inv(self) -> bool {
        self.span@.start == self.span@.end
    }

    /// The range is empty.
    pub fn is_empty(&self) -> (r: bool)
        ensures
            r,
            self@.start == self@.end,
    {
        proof {
            use_type_invariant(self);
        }
        self.span.is_empty()
    }
}

impl Clone for EmptySpan {
    /// Another handle on the same source, with the same offset.
    fn clone(&self) -> (r: EmptySpan)
        ensures
            r@ == self@,
    {
        proof {
            use_type_invariant(self);
        }
        EmptySpan { span: self.span.clone() }
    }
}

impl Default for EmptySpan {
    /// The empty span over an empty source.
    fn default() -> (r: EmptySpan)
        ensures
            r@ == (SpanView { source: Seq::empty(), start: 0, end: 0 }),
    {
        EmptySpan { span: Span::default() }
    }
}

impl Deref for EmptySpan {
    type Target = Span;

    fn deref(&self) -> &Span {
        &self.span
    }
}

impl From<EmptySpan> for Span {
    fn from(span: EmptySpan) -> (r: Span) {
        span.span
    }
}

impl vstd::std_specs::convert::FromSpecImpl<EmptySpan> for Span {
    open spec fn obeys_from_spec() -> bool {
        true
    }

    closed spec fn from_spec(v: EmptySpan) -> Span {
        v.span
    }
}

} // verus!
