//! A reusable batching state machine: items are buffered and handed out as a
//! batch when `capacity` of them are in, when the deadline armed at the first
//! item passes, or when the source ends. The driver polls the source first and
//! consults the deadline only when the source had nothing ready.

use vstd::prelude::*;
use std::time::Duration;

verus! {

/// What polling the source gave.
pub enum Polled<T> {
    /// An item.
    Ready(T),
    /// Nothing yet.
    Pending,
    /// The source is exhausted.
    Done,
}

/// What the driver does next.
pub enum Step<T> {
    /// The item was buffered: poll the source again.
    Continue,
    /// Hand this batch on.
    Emit(Vec<T>),
    /// Suspend until the source or the deadline wakes the driver.
    Wait,
    /// The output has ended.
    Finished,
}

/// The mathematical counterpart of `Step`.
pub enum Outcome<T> {
    Continue,
    Emit(Seq<T>),
    Wait,
    Finished,
}

impl<T> View for Step<T> {
    type V = Outcome<T>;

    open spec fn view(&self) -> Outcome<T> {
        match self {
            Step::Continue => Outcome::Continue,
            Step::Emit(v) => Outcome::Emit(v@),
            Step::Wait => Outcome::Wait,
            Step::Finished => Outcome::Finished,
        }
    }
}

/// The collector's abstract state: what is buffered, whether a deadline is
/// armed, and the capacity.
pub struct BatchState<T> {
    pub items: Seq<T>,
    pub armed: bool,
    pub cap: nat,
}

/// One item arrives: it is buffered, arming the deadline if the buffer was
/// empty; a full buffer goes out at once and the deadline is dropped.
pub open spec fn on_ready<T>(b: BatchState<T>, x: T) -> (BatchState<T>, Outcome<T>) {
    let items = b.items.push(x);
    if items.len() >= b.cap {
        (BatchState { items: seq![], armed: false, cap: b.cap }, Outcome::Emit(items))
    } else {
        (BatchState { items, armed: true, cap: b.cap }, Outcome::Continue)
    }
}

/// One scheduling turn: the source is polled first; only when it has nothing
/// ready does the deadline count.
pub open spec fn step_model<T>(b: BatchState<T>, polled: Polled<T>, timer_fired: bool) -> (
    BatchState<T>,
    Outcome<T>,
) {
    match polled {
        Polled::Ready(x) => on_ready(b, x),
        Polled::Pending => {
            if b.armed && timer_fired {
                (BatchState { items: seq![], armed: false, cap: b.cap }, Outcome::Emit(b.items))
            } else {
                (b, Outcome::Wait)
            }
        },
        Polled::Done => {
            if b.items.len() == 0 {
                (BatchState { armed: false, ..b }, Outcome::Finished)
            } else {
                (BatchState { items: seq![], armed: false, cap: b.cap }, Outcome::Emit(b.items))
            }
        },
    }
}

/// Items fed one after another into the collector: the final state and what
/// each arrival produced.
pub open spec fn feed<T>(b: BatchState<T>, xs: Seq<T>) -> (BatchState<T>, Seq<Outcome<T>>)
    decreases xs.len(),
{
    if xs.len() == 0 {
        (b, seq![])
    } else {
        let s = on_ready(b, xs[0]);
        let t = feed(s.0, xs.drop_first());
        (t.0, seq![s.1] + t.1)
    }
}

/// A collector with room for `xs.len()` more items, fed exactly those,
/// emits nothing until the last one and then the whole buffer at once, with
/// no deadline involved: it ends empty and disarmed.
pub proof fn lemma_fill_to_capacity<T>(b: BatchState<T>, xs: Seq<T>)
    requires
        xs.len() > 0,
        b.items.len() + xs.len() == b.cap,
    ensures
        feed(b, xs).1.len() == xs.len(),
        forall|i: int| 0 <= i < xs.len() - 1 ==> #[trigger] feed(b, xs).1[i] == Outcome::<T>::Continue,
        feed(b, xs).1[xs.len() - 1] == Outcome::Emit(b.items + xs),
        feed(b, xs).0.items.len() == 0,
        !feed(b, xs).0.armed,
    decreases xs.len(),
{
    let s = on_ready(b, xs[0]);
    let rest = xs.drop_first();
    if xs.len() == 1 {
        assert(b.items.push(xs[0]) =~= b.items + xs);
        assert(rest.len() == 0);
        assert(feed(s.0, rest) == (s.0, Seq::<Outcome<T>>::empty()));
    } else {
        lemma_fill_to_capacity(s.0, rest);
        assert(s.0.items + rest =~= b.items + xs);
        let outs = feed(b, xs).1;
        assert forall|i: int| 0 <= i < xs.len() - 1 implies #[trigger] outs[i] == Outcome::<T>::Continue by {
            if i > 0 {
                assert(outs[i] == feed(s.0, rest).1[i - 1]);
            }
        }
        assert(outs[xs.len() - 1] == feed(s.0, rest).1[rest.len() - 1]);
    }
}

/// From an empty collector of capacity `cap`, `cap` items arriving at once
/// give exactly one batch, of all of them, on the last arrival.
pub proof fn lemma_full_batch_from_empty<T>(cap: nat, xs: Seq<T>)
    requires
        cap > 0,
        xs.len() == cap,
    ensures
        forall|i: int| 0 <= i < cap - 1 ==> #[trigger] feed(BatchState { items: seq![], armed: false, cap }, xs).1[i]
            == Outcome::<T>::Continue,
        feed(BatchState { items: seq![], armed: false, cap }, xs).1[cap - 1] == Outcome::Emit(xs),
{
    let b = BatchState { items: Seq::<T>::empty(), armed: false, cap };
    lemma_fill_to_capacity(b, xs);
    assert(b.items + xs =~= xs);
}

/// With something buffered and the source stalled, nothing goes out until
/// the deadline has passed; then the buffer goes out whole.
pub proof fn lemma_stall_waits_for_deadline<T>(b: BatchState<T>)
    requires
        batch_wf(b),
        b.items.len() > 0,
    ensures
        step_model(b, Polled::Pending, false) == (b, Outcome::<T>::Wait),
        step_model(b, Polled::Pending, true).1 == Outcome::Emit(b.items),
        step_model(b, Polled::Pending, true).0.items.len() == 0,
{
}

/// A collector holding `b.items`, fed `ys` that still leave it short of its
/// capacity, then told the source has ended, emits exactly one batch: all
/// of them, in order; then the output ends.
pub proof fn lemma_partial_then_exhausted<T>(b: BatchState<T>, ys: Seq<T>, f1: bool, f2: bool)
    requires
        batch_wf(b),
        b.items.len() + ys.len() > 0,
        b.items.len() + ys.len() < b.cap,
    ensures
        forall|i: int| 0 <= i < ys.len() ==> #[trigger] feed(b, ys).1[i] == Outcome::<T>::Continue,
        feed(b, ys).0.items == b.items + ys,
        step_model(feed(b, ys).0, Polled::Done, f1).1 == Outcome::Emit(b.items + ys),
        step_model(step_model(feed(b, ys).0, Polled::Done, f1).0, Polled::Done, f2).1
            == Outcome::<T>::Finished,
{
    lemma_feed_below_capacity(b, ys);
}

proof fn lemma_feed_below_capacity<T>(b: BatchState<T>, ys: Seq<T>)
    requires
        b.items.len() + ys.len() < b.cap,
    ensures
        feed(b, ys).1.len() == ys.len(),
        forall|i: int| 0 <= i < ys.len() ==> #[trigger] feed(b, ys).1[i] == Outcome::<T>::Continue,
        feed(b, ys).0.items == b.items + ys,
        feed(b, ys).0.cap == b.cap,
    decreases ys.len(),
{
    if ys.len() == 0 {
        assert(b.items + ys =~= b.items);
    } else {
        let s = on_ready(b, ys[0]);
        let rest = ys.drop_first();
        lemma_feed_below_capacity(s.0, rest);
        assert(s.0.items + rest =~= b.items + ys);
        let outs = feed(b, ys).1;
        assert forall|i: int| 0 <= i < ys.len() implies #[trigger] outs[i] == Outcome::<T>::Continue by {
            if i > 0 {
                assert(outs[i] == feed(s.0, rest).1[i - 1]);
            }
        }
    }
}

/// When the source ends with items buffered, they go out as one final batch,
/// and the next turn ends the output.
pub proof fn lemma_exhaustion_flushes_once<T>(b: BatchState<T>, f1: bool, f2: bool)
    requires
        batch_wf(b),
        b.items.len() > 0,
    ensures
        step_model(b, Polled::Done, f1).1 == Outcome::Emit(b.items),
        step_model(step_model(b, Polled::Done, f1).0, Polled::Done, f2).1 == Outcome::<T>::Finished,
{
}

/// Buffers a stream's items into batches of at most `capacity`, each handed
/// out no later than `duration` after its first item arrived.
pub struct ChunksTimeout<T> {
    items: Vec<T>,
    cap: usize,
    clock_armed: bool,
    duration: Duration,
}

impl<T> View for ChunksTimeout<T> {
    type V = BatchState<T>;

    closed spec fn view(&self) -> BatchState<T> {
        BatchState { items: self.items@, armed: self.clock_armed, cap: self.cap as nat }
    }
}

/// The collector's invariant: a positive capacity, never reached between
/// steps, and an armed deadline exactly when something is buffered.
pub open spec fn batch_wf<T>(b: BatchState<T>) -> bool {
    &&& b.cap > 0
    &&& b.items.len() < b.cap
    &&& (b.armed <==> b.items.len() > 0)
}

impl<T> ChunksTimeout<T> {
    pub open spec fn wf(&self) -> bool {
        batch_wf(self@)
    }

    /// An empty collector; a capacity of zero is a configuration error.
    pub fn new(capacity: usize, duration: Duration) -> (r: ChunksTimeout<T>)
        requires
            capacity > 0,
        ensures
            r.wf(),
            r@.items.len() == 0,
            !r@.armed,
            r@.cap == capacity,
            r.duration() == duration,
    {
        ChunksTimeout { items: Vec::new(), cap: capacity, clock_armed: false, duration }
    }

    pub closed spec fn duration(&self) -> Duration {
        self.duration
    }

    /// How long a batch may wait after its first item.
    pub fn batch_duration(&self) -> (r: Duration)
        ensures
            r == self.duration(),
    {
        self.duration
    }

    /// The most items a batch holds.
    pub fn capacity(&self) -> (r: usize)
        ensures
            r == self@.cap,
    {
        self.cap
    }

    /// Whether a deadline is armed, that is whether the driver must keep a
    /// timer running.
    pub fn is_armed(&self) -> (r: bool)
        ensures
            r == self@.armed,
    {
        self.clock_armed
    }

    /// How many items are buffered.
    pub fn buffered_len(&self) -> (r: usize)
        ensures
            r == self@.items.len(),
    {
        self.items.len()
    }

    fn take(&mut self) -> (r: Vec<T>)
        ensures
            r@ == old(self)@.items,
            final(self)@.items == Seq::<T>::empty(),
            final(self)@.armed == old(self)@.armed,
            final(self)@.cap == old(self)@.cap,
            final(self).duration() == old(self).duration(),
    {
        let mut out: Vec<T> = Vec::new();
        std::mem::swap(&mut self.items, &mut out);
        assert(self.items@ =~= Seq::<T>::empty());
        out
    }

    /// One scheduling turn, given what polling the source gave and, where it
    /// had nothing ready, whether the deadline has passed.
    pub fn step(&mut self, polled: Polled<T>, timer_fired: bool) -> (r: Step<T>)
        requires
            old(self).wf(),
        ensures
            final(self).wf(),
            (final(self)@, r@) == step_model(old(self)@, polled, timer_fired),
            final(self).duration() == old(self).duration(),
    {
        match polled {
            Polled::Ready(item) => {
                if self.items.len() == 0 {
                    self.clock_armed = true;
                }
                self.items.push(item);
                if self.items.len() >= self.cap {
                    self.clock_armed = false;
                    Step::Emit(self.take())
                } else {
                    Step::Continue
                }
            },
            Polled::Pending => {
                if self.clock_armed && timer_fired {
                    self.clock_armed = false;
                    Step::Emit(self.take())
                } else {
                    Step::Wait
                }
            },
            Polled::Done => {
                self.clock_armed = false;
                if self.items.len() == 0 {
                    Step::Finished
                } else {
                    Step::Emit(self.take())
                }
            },
        }
    }

    /// Bounds on how many batches are still to come, given the source's own
    /// bounds on its remaining items: a non-empty buffer adds one.
    pub fn size_hint(&self, lower: usize, upper: Option<usize>) -> (r: (usize, Option<usize>))
        ensures
            r.0 == if lower + (if self@.items.len() > 0 { 1int } else { 0 }) > usize::MAX {
                usize::MAX as int
            } else {
                lower + (if self@.items.len() > 0 { 1int } else { 0 })
            },
            r.1 == match upper {
                Some(u) => if u + (if self@.items.len() > 0 { 1int } else { 0 }) > usize::MAX {
                    None
                } else {
                    Some((u + (if self@.items.len() > 0 { 1int } else { 0 })) as usize)
                },
                None => None,
            },
    {
        let chunk_len: usize = if self.items.len() == 0 { 0 } else { 1 };
        let lower = lower.saturating_add(chunk_len);
        let upper = match upper {
            Some(x) => x.checked_add(chunk_len),
            None => None,
        };
        (lower, upper)
    }

    /// The output has ended once the source has and nothing is buffered.
    pub fn is_terminated(&self, source_terminated: bool) -> (r: bool)
        ensures
            r == (source_terminated && self@.items.len() == 0),
    {
        source_terminated && self.items.len() == 0
    }
}

} // verus!
