//! The windowed aggregation engine: events grouped by (time, location),
//! finalized oldest first once the watermark lags too far behind.

use vstd::prelude::*;
use crate::model::{
    AggState, Group, drain_all, drain_due, lemma_take_group, flush_model, insert_sorted, lemma_insert_sorted, lemma_run_bounds,
    is_stale, lag_base, lemma_sorted_first_oldest, newest, next_min, push_model, run, sorted, state_wf, take_group,
};
use crate::laws::{lemma_watermark_monotone, watermark_kept};
use crate::order::{Key, key_lt, str_less};

verus! {

/// The composite grouping key of an event.
#[derive(Clone, Debug, PartialEq, Eq, Hash, PartialOrd, Ord)]
pub struct Location {
    pub guild: String,
    pub channel: String,
}

/// One event: a time bucket and where it happened.
#[derive(Clone, Debug, PartialEq, Eq)]
pub struct Message {
    pub time: i64,
    pub location: Location,
}

/// A finalized group: how many events shared one time bucket and location.
#[derive(Clone, Debug, PartialEq, Eq)]
pub struct Aggregation {
    pub location: Location,
    pub time: i64,
    pub count: u64,
}

impl Message {
    pub open spec fn key(&self) -> Key {
        (self.time as int, self.location.guild@, self.location.channel@)
    }

    /// Whether `self` is finalized before `other`.
    pub fn precedes(&self, other: &Message) -> (r: bool)
        ensures
            r == key_lt(self.key(), other.key()),
    {
        if self.time != other.time {
            self.time < other.time
        } else if str_less(&self.location.guild, &other.location.guild) {
            true
        } else if self.location.guild != other.location.guild {
            false
        } else {
            str_less(&self.location.channel, &other.location.channel)
        }
    }

    /// Whether both events belong to one group.
    pub fn same_group(&self, other: &Message) -> (r: bool)
        ensures
            r == (self.key() == other.key()),
    {
        self.time == other.time && self.location.guild == other.location.guild
            && self.location.channel == other.location.channel
    }
}

impl Aggregation {
    pub open spec fn group(&self) -> Group {
        ((self.time as int, self.location.guild@, self.location.channel@), self.count as nat)
    }
}

pub open spec fn keys_of(s: Seq<Message>) -> Seq<Key> {
    s.map_values(|m: Message| m.key())
}

pub open spec fn groups_of(s: Seq<Aggregation>) -> Seq<Group> {
    s.map_values(|a: Aggregation| a.group())
}

pub open spec fn output_of(r: Option<Vec<Aggregation>>) -> Option<Seq<Group>> {
    match r {
        Some(v) => Some(groups_of(v@)),
        None => None,
    }
}

/// Groups events by (time, location) and finalizes a group once the newest
/// time seen runs more than `threshold` ahead of the watermark.
pub struct Aggregator {
    messages: Vec<Message>,
    min_time: Option<i64>,
    max_time: Option<i64>,
    threshold: i64,
}

impl View for Aggregator {
    type V = AggState;

    closed spec fn view(&self) -> AggState {
        AggState {
            pending: keys_of(self.messages@),
            min_time: match self.min_time {
                Some(m) => Some(m as int),
                None => None,
            },
            max_time: match self.max_time {
                Some(m) => Some(m as int),
                None => None,
            },
            threshold: self.threshold as int,
        }
    }
}

impl Aggregator {
    pub open spec fn wf(&self) -> bool {
        state_wf(self@)
    }

    /// An empty engine; it has no watermark until a group is finalized.
    pub fn new(threshold: i64) -> (r: Aggregator)
        ensures
            r.wf(),
            r@.pending.len() == 0,
            r@.min_time is None,
            r@.max_time is None,
            r@.threshold == threshold,
    {
        Aggregator { messages: Vec::new(), min_time: None, max_time: None, threshold }
    }

    /// The watermark, once set: events older than it are dropped.
    pub fn min_time(&self) -> (r: Option<i64>)
        ensures
            r matches Some(m) ==> self@.min_time == Some(m as int),
            (r is None) ==> self@.min_time is None,
    {
        self.min_time
    }

    /// The newest time among pending events, if any is pending.
    pub fn max_time(&self) -> (r: Option<i64>)
        ensures
            r matches Some(m) ==> self@.max_time == Some(m as int),
            (r is None) ==> self@.max_time is None,
    {
        self.max_time
    }

    /// How many events are pending.
    pub fn pending_len(&self) -> (r: usize)
        ensures
            r == self@.pending.len(),
    {
        self.messages.len()
    }

    fn insert_pending(&mut self, message: Message)
        requires
            sorted(keys_of(old(self).messages@)),
        ensures
            keys_of(final(self).messages@) == insert_sorted(keys_of(old(self).messages@), message.key()),
            sorted(keys_of(final(self).messages@)),
            forall|j: int| 0 <= j < final(self).messages@.len() ==> #[trigger] keys_of(final(self).messages@)[j] == message.key()
                || keys_of(old(self).messages@).contains(keys_of(final(self).messages@)[j]),
            final(self).min_time == old(self).min_time,
            final(self).max_time == old(self).max_time,
            final(self).threshold == old(self).threshold,
    {
        let ghost s = keys_of(self.messages@);
        let mut i: usize = 0;
        while i < self.messages.len() && !message.precedes(&self.messages[i])
            invariant
                i <= self.messages@.len(),
                s == keys_of(self.messages@),
                forall|j: int| 0 <= j < i ==> !key_lt(message.key(), #[trigger] s[j]),
            decreases self.messages@.len() - i,
        {
            i = i + 1;
        }
        proof {
            lemma_insert_sorted(s, message.key(), i as int);
        }
        self.messages.insert(i, message);
        let ghost t = keys_of(self.messages@);
        assert(t =~= s.take(i as int) + seq![message.key()] + s.skip(i as int));
        assert forall|j: int| 0 <= j < t.len() implies #[trigger] t[j] == message.key() || s.contains(t[j]) by {
            if j < i {
                assert(t[j] == s[j]);
            } else if j > i {
                assert(t[j] == s[j - 1]);
            }
        }
    }

    /// Removes the oldest group and counts it; `None`, with nothing changed,
    /// when nothing is pending.
    fn next_aggregation(&mut self) -> (r: Option<Aggregation>)
        requires
            sorted(keys_of(old(self).messages@)),
        ensures
            old(self).messages@.len() == 0 ==> r is None && *final(self) == *old(self),
            old(self).messages@.len() > 0 ==> r is Some,
            old(self).messages@.len() > 0 ==> r->0.group() == take_group(keys_of(old(self).messages@)).0,
            old(self).messages@.len() > 0 ==> keys_of(final(self).messages@) == take_group(keys_of(old(self).messages@)).1,
            old(self).messages@.len() > 0 ==> final(self).min_time == Some(next_min(
                take_group(keys_of(old(self).messages@)).0,
                take_group(keys_of(old(self).messages@)).1,
            ) as i64),
            old(self).messages@.len() > 0 ==> final(self).max_time == (if final(self).messages@.len() == 0 {
                None
            } else {
                old(self).max_time
            }),
            final(self).threshold == old(self).threshold,
    {
        if self.messages.len() == 0 {
            return None;
        }
        let ghost s = keys_of(self.messages@);
        let n0: usize = self.messages.len();
        let first = self.messages.remove(0);
        let ghost k = first.key();
        assert(keys_of(self.messages@) =~= s.skip(1));
        let mut count: usize = 1;
        assert(s.drop_first() =~= s.skip(1));
        while self.messages.len() > 0 && self.messages[0].same_group(&first)
            invariant
                1 <= count <= s.len(),
                s.len() == n0,
                keys_of(self.messages@) == s.skip(count as int),
                run(s, k) == count + run(s.skip(count as int), k),
                k == s[0],
                k == first.key(),
                self.messages@.len() + count == s.len(),
                self.max_time == old(self).max_time,
                self.threshold == old(self).threshold,
            decreases self.messages@.len(),
        {
            let ghost before = keys_of(self.messages@);
            let ghost bv = self.messages@;
            self.messages.remove(0);
            assert(self.messages@ =~= bv.remove(0));
            assert forall|j: int| 0 <= j < self.messages@.len() implies #[trigger] keys_of(self.messages@)[j] == s.skip(count + 1)[j] by {
                assert(keys_of(self.messages@)[j] == bv[j + 1].key());
                assert(before[j + 1] == s[count + j + 1]);
            }
            assert(keys_of(self.messages@) =~= s.skip(count + 1));
            assert(before.drop_first() =~= s.skip(count + 1));
            count = count + 1;
        }
        proof {
            lemma_run_bounds(s, k);
        }
        if self.messages.len() > 0 {
            self.min_time = Some(self.messages[0].time);
        } else {
            self.min_time = Some(first.time);
            self.max_time = None;
        }
        Some(Aggregation { location: first.location, time: first.time, count: count as u64 })
    }

    /// Takes one event. A stale one (older than the watermark) is dropped;
    /// otherwise it is buffered, and if the newest time seen is then more than
    /// `threshold` ahead of the watermark (or, before any group was finalized,
    /// of the oldest pending time), the oldest groups are finalized until it
    /// is not, or nothing is pending.
    pub fn push(&mut self, message: Message) -> (r: Option<Vec<Aggregation>>)
        requires
            old(self).wf(),
        ensures
            final(self).wf(),
            final(self)@ == push_model(old(self)@, message.key()).0,
            output_of(r) == push_model(old(self)@, message.key()).1,
            watermark_kept(old(self)@.min_time, final(self)@.min_time),
    {
        proof {
            lemma_watermark_monotone(self@, message.key());
        }
        if let Some(w) = self.min_time {
            if message.time < w {
                return None;
            }
        }
        let ghost a = self@;
        let ghost k = message.key();
        let mx: i64 = match self.max_time {
            Some(m) => if m > message.time { m } else { message.time },
            None => message.time,
        };
        self.max_time = Some(mx);
        self.insert_pending(message);
        let ghost s = insert_sorted(a.pending, k);
        proof {
            lemma_sorted_first_oldest(s);
            assert forall|i: int| 0 <= i < s.len() implies (a.min_time matches Some(w) ==> w <= (
            #[trigger] s[i]).0) && s[i].0 <= mx by {
                if s[i] != k {
                    let j = choose|j: int| 0 <= j < a.pending.len() && a.pending[j] == s[i];
                    assert(a.pending[j].0 <= mx);
                }
            }
        }
        let lo: i64 = match self.min_time {
            Some(w) => w,
            None => self.messages[0].time,
        };
        if (mx as i128) - (lo as i128) <= self.threshold as i128 {
            return None;
        }
        let ghost d = drain_due(s, lo as int, mx as int, a.threshold);
        let mut cur: i64 = lo;
        let mut aggs: Vec<Aggregation> = Vec::new();
        loop
            invariant
                self.messages@.len() > 0,
                sorted(keys_of(self.messages@)),
                mx - cur > self.threshold,
                !is_stale(a.min_time, k.0),
                a == old(self)@,
                k == message.key(),
                mx as int == newest(a.max_time, k.0),
                lo as int == lag_base(a.min_time, s),
                s == insert_sorted(a.pending, k),
                mx - lo > a.threshold,
                d == drain_due(s, lo as int, mx as int, a.threshold),
                self.threshold == a.threshold,
                self.max_time == Some(mx),
                lo <= cur,
                aggs@.len() > 0 ==> self.min_time == Some(cur),
                aggs@.len() == 0 ==> self@.min_time == a.min_time && keys_of(self.messages@) == s,
                forall|i: int| 0 <= i < self.messages@.len() ==> cur <= (#[trigger] keys_of(self.messages@)[i]).0
                    && keys_of(self.messages@)[i].0 <= mx,
                d.0 == groups_of(aggs@) + drain_due(keys_of(self.messages@), cur as int, mx as int, a.threshold).0,
                d.1 == drain_due(keys_of(self.messages@), cur as int, mx as int, a.threshold).1,
                d.2 == drain_due(keys_of(self.messages@), cur as int, mx as int, a.threshold).2,
            decreases self.messages@.len(),
        {
            let ghost before = keys_of(self.messages@);
            proof {
                lemma_take_group(before, cur as int);
            }
            let next = self.next_aggregation();
            let agg = next.unwrap();
            assert(groups_of(aggs@.push(agg)) =~= groups_of(aggs@).push(agg.group()));
            aggs.push(agg);
            cur = match self.min_time {
                Some(w) => w,
                None => cur,
            };
            proof {
                let rest = keys_of(self.messages@);
                assert forall|i: int| 0 <= i < rest.len() implies (#[trigger] rest[i]).0 <= mx by {
                    assert(rest[i] == before[i + take_group(before).0.1]);
                }
            }
            if self.messages.len() == 0 || (mx as i128) - (cur as i128) <= self.threshold as i128 {
                assert(groups_of(aggs@) =~= d.0);
                return Some(aggs);
            }
        }
    }

    /// End of input: finalizes every pending group, oldest first; `None` when
    /// nothing is pending.
    pub fn flush(&mut self) -> (r: Option<Vec<Aggregation>>)
        requires
            old(self).wf(),
        ensures
            final(self).wf(),
            final(self)@ == flush_model(old(self)@).0,
            output_of(r) == flush_model(old(self)@).1,
            watermark_kept(old(self)@.min_time, final(self)@.min_time),
    {
        proof {
            lemma_watermark_monotone(self@, (0, seq![], seq![]));
        }
        if self.messages.len() == 0 {
            return None;
        }
        let ghost s0 = keys_of(self.messages@);
        proof {
            lemma_sorted_first_oldest(s0);
        }
        let lo: i64 = match self.min_time {
            Some(w) => w,
            None => self.messages[0].time,
        };
        let ghost g0 = drain_all(s0, lo as int);
        let mut cur: i64 = lo;
        let mut aggs: Vec<Aggregation> = Vec::new();
        while self.messages.len() > 0
            invariant
                sorted(keys_of(self.messages@)),
                self.threshold == old(self).threshold,
                (self.max_time is None) <==> self.messages@.len() == 0,
                aggs@.len() > 0 ==> self.min_time == Some(cur),
                aggs@.len() == 0 ==> self.messages@.len() > 0,
                forall|i: int| 0 <= i < self.messages@.len() ==> cur <= (#[trigger] keys_of(self.messages@)[i]).0,
                g0.0 == groups_of(aggs@) + drain_all(keys_of(self.messages@), cur as int).0,
                g0.1 == drain_all(keys_of(self.messages@), cur as int).1,
            decreases self.messages@.len(),
        {
            proof {
                lemma_take_group(keys_of(self.messages@), cur as int);
            }
            let next = self.next_aggregation();
            let agg = next.unwrap();
            assert(groups_of(aggs@.push(agg)) =~= groups_of(aggs@).push(agg.group()));
            aggs.push(agg);
            cur = match self.min_time {
                Some(w) => w,
                None => cur,
            };
        }
        assert(groups_of(aggs@) =~= g0.0);
        assert(keys_of(self.messages@) =~= seq![]);
        Some(aggs)
    }
}

} // verus!
