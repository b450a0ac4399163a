//! What the layers share: the counters and the queue of events.

use crate::mp2t::demuxer::{Event, EventView};
use crate::stats::Stats;
use std::collections::VecDeque;
use vstd::prelude::*;

verus! {

/// The counters and the events that wait to be polled, oldest first.
pub struct Context {
    pub stats: Stats,
    pub events: VecDeque<Event>,
}

/// A context as a mathematical value.
pub struct ContextView {
    pub stats: Stats,
    pub events: Seq<EventView>,
}

/// The views of a list of events, in order.
pub open spec fn event_views(events: Seq<Event>) -> Seq<EventView> {
    Seq::new(events.len(), |i: int| events[i]@)
}

impl View for Context {
    type V = ContextView;

    open spec fn view(&self) -> ContextView {
        ContextView { stats: self.stats, events: event_views(self.events@) }
    }
}

impl Context {
    /// A context with all counters at zero and no event.
    pub fn new() -> (ctx: Context)
        ensures
            ctx@.stats == Stats::zero(),
            ctx@.events == Seq::<EventView>::empty(),
    {
        let ctx = Context { stats: Stats::default(), events: VecDeque::new() };
        assert(ctx@.events =~= Seq::<EventView>::empty());
        ctx
    }

    /// Appends an event to the queue.
    pub fn emit(&mut self, event: Event)
        ensures
            final(self)@.stats == old(self)@.stats,
            final(self)@.events == old(self)@.events.push(event@),
    {
        self.events.push_back(event);
        assert(self@.events =~= old(self)@.events.push(event@));
    }
}

} // verus!
