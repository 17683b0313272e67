//! Operator-precedence machinery shared by expression parsing: the
//! precedence ladder, associativities, and source-span bookkeeping.

use vstd::prelude::*;
use crate::error::Span;

verus! {

/// Binding strength of an operator, weakest first. The derived order
/// follows the declaration order.
#[derive(Debug, Clone, Copy, PartialEq, Eq, PartialOrd, Ord, Structural)]
pub enum Precedence {
    Lowest,
    Assignment,
    Consensus,
    LogicalOr,
    LogicalAnd,
    Equality,
    Comparison,
    Addition,
    Multiplication,
    Unary,
    Call,
    Member,
    Primary,
}

/// Which side groups first among operators of equal precedence.
#[derive(Debug, Clone, Copy, PartialEq, Eq, Structural)]
pub enum Associativity {
    Left,
    Right,
}

/// Tracks the start of a construct so its full span can be formed when the
/// end is reached.
pub struct SpanTracker {
    start: Option<Span>,
}

impl SpanTracker {
    /// The recorded start, if one was set.
    pub closed spec fn spec_start(self) -> Option<Span> {
        self.start
    }

    pub fn new() -> (r: SpanTracker)
        ensures
            r.spec_start() is None,
    {
        SpanTracker { start: None }
    }

    /// Record where the construct begins.
    pub fn start(&mut self, span: Span)
        ensures
            final(self).spec_start() == Option::Some(span),
    {
        self.start = Some(span);
    }

    /// The span from the recorded start to `end_span`; without a recorded
    /// start, `end_span` alone.
    pub fn end(&self, end_span: Span) -> (r: Span)
        ensures
            match self.spec_start() {
                Option::Some(s) => r == (Span {
                    start: s.start,
                    end: end_span.end,
                    line: s.line,
                    column: s.column,
                }),
                Option::None => r == end_span,
            },
    {
        match &self.start {
            Some(start) => Span::new(start.start, end_span.end, start.line, start.column),
            None => end_span,
        }
    }

    /// The span covering `start` through `end`.
    pub fn merge(start: &Span, end: &Span) -> (r: Span)
        ensures
            r == (Span { start: start.start, end: end.end, line: start.line, column: start.column }),
    {
        Span::new(start.start, end.end, start.line, start.column)
    }
}

} // verus!
