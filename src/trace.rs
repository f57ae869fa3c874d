//! Observers of the decisions taken while a page is ordered.
use vstd::prelude::*;
use crate::traits::Axis;

verus! {

/// Receives the decisions taken while a page is ordered. It only observes:
/// the order computed does not depend on what it does.
pub trait Observer {
    /// A cut at `coordinate` on `axis` split `before + after` elements.
    fn cut(&mut self, axis: Axis, coordinate: i32, before: usize, after: usize);

    /// No effective cut was found for `count` elements; they were sorted by
    /// position.
    fn no_cut(&mut self, count: usize);

    /// The masked element `id` was inserted at `position`, before its best
    /// anchor (`anchored`) or at its fallback position.
    fn insert(&mut self, id: usize, position: usize, anchored: bool);
}

/// An observer that ignores every decision.
pub struct NoTrace;

impl Observer for NoTrace {
    fn cut(&mut self, _axis: Axis, _coordinate: i32, _before: usize, _after: usize) {
    }

    fn no_cut(&mut self, _count: usize) {
    }

    fn insert(&mut self, _id: usize, _position: usize, _anchored: bool) {
    }
}

/// One recorded decision.
#[derive(Clone, Copy, Debug, PartialEq, Eq, Structural)]
pub enum TraceEvent {
    Cut { axis: Axis, coordinate: i32, before: usize, after: usize },
    NoCut { count: usize },
    Insert { id: usize, position: usize, anchored: bool },
}

/// An observer that records every decision in order.
pub struct TraceLog {
    pub events: Vec<TraceEvent>,
}

impl TraceLog {
    pub fn new() -> (r: TraceLog)
        ensures
            r.events@.len() == 0,
    {
        TraceLog { events: Vec::new() }
    }
}

impl Observer for TraceLog {
    fn cut(&mut self, axis: Axis, coordinate: i32, before: usize, after: usize) {
        self.events.push(TraceEvent::Cut { axis, coordinate, before, after });
    }

    fn no_cut(&mut self, count: usize) {
        self.events.push(TraceEvent::NoCut { count });
    }

    fn insert(&mut self, id: usize, position: usize, anchored: bool) {
        self.events.push(TraceEvent::Insert { id, position, anchored });
    }
}

} // verus!
