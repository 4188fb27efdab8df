//! Drives the aggregation engine from a sequence of events: each push that
//! finalizes something is one output item, and the end of input flushes.

use vstd::prelude::*;
use crate::model::{AggState, Group, flush_model, push_model};
use crate::window::{Aggregation, Aggregator, Message, groups_of};

verus! {

/// What the driver does next.
pub enum AggStep {
    /// Nothing finalized: pull the next event.
    Pull,
    /// Hand these aggregations on.
    Emit(Vec<Aggregation>),
    /// The output has ended.
    Finished,
}

pub open spec fn step_output(r: AggStep) -> Option<Seq<Group>> {
    match r {
        AggStep::Emit(v) => Some(groups_of(v@)),
        _ => None,
    }
}

/// Aggregations of a stream of events, emitted as they are finalized.
pub struct MessageAggregate {
    aggregator: Aggregator,
}

impl MessageAggregate {
    pub closed spec fn state(&self) -> AggState {
        self.aggregator@
    }

    pub closed spec fn wf(&self) -> bool {
        self.aggregator.wf()
    }

    /// A driver whose engine tolerates `window` time units of lag.
    pub fn new(window: i64) -> (r: MessageAggregate)
        ensures
            r.wf(),
            r.state().pending.len() == 0,
            r.state().min_time is None,
            r.state().threshold == window,
    {
        MessageAggregate { aggregator: Aggregator::new(window) }
    }

    /// Handles what the source gave: an event is pushed, and emitted
    /// aggregations go out, else the driver pulls again; the end of the
    /// source flushes, and once nothing is left the output ends.
    pub fn step(&mut self, next: Option<Message>) -> (r: AggStep)
        requires
            old(self).wf(),
        ensures
            final(self).wf(),
            (next is Some) ==> final(self).state() == push_model(old(self).state(), next->0.key()).0,
            (next is Some) ==> step_output(r) == push_model(old(self).state(), next->0.key()).1,
            (next is Some) ==> (r is Pull <==> push_model(old(self).state(), next->0.key()).1 is None),
            (next is None) ==> final(self).state() == flush_model(old(self).state()).0,
            (next is None) ==> step_output(r) == flush_model(old(self).state()).1,
            (next is None) ==> (r is Finished <==> flush_model(old(self).state()).1 is None),
    {
        match next {
            Some(m) => match self.aggregator.push(m) {
                Some(aggs) => AggStep::Emit(aggs),
                None => AggStep::Pull,
            },
            None => match self.aggregator.flush() {
                Some(aggs) => AggStep::Emit(aggs),
                None => AggStep::Finished,
            },
        }
    }
}

} // verus!
