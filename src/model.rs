//! The aggregation engine as mathematics: pending keys in ascending order, a
//! watermark, and what finalizing, pushing and flushing do to them.

use vstd::prelude::*;
use crate::order::{Key, key_lt, lemma_key_order};

verus! {

/// A finalized group: its key and how many events it held.
pub type Group = (Key, nat);

/// The engine's abstract state.
pub struct AggState {
    pub pending: Seq<Key>,
    pub min_time: Option<int>,
    pub max_time: Option<int>,
    pub threshold: int,
}

pub open spec fn sorted(s: Seq<Key>) -> bool {
    forall|i: int, j: int| 0 <= i < j < s.len() ==> !key_lt(#[trigger] s[j], #[trigger] s[i])
}

/// Length of the leading run of `k` in `s`.
pub open spec fn run(s: Seq<Key>, k: Key) -> nat
    decreases s.len(),
{
    if s.len() > 0 && s[0] == k {
        1 + run(s.drop_first(), k)
    } else {
        0
    }
}

/// `s` with `k` placed before the first element greater than it.
pub open spec fn insert_sorted(s: Seq<Key>, k: Key) -> Seq<Key>
    decreases s.len(),
{
    if s.len() == 0 {
        seq![k]
    } else if key_lt(k, s[0]) {
        seq![k] + s
    } else {
        seq![s[0]] + insert_sorted(s.drop_first(), k)
    }
}

/// Finalizes the oldest group of a non-empty `s`: the group and what remains.
pub open spec fn take_group(s: Seq<Key>) -> (Group, Seq<Key>) {
    let n = run(s, s[0]);
    ((s[0], n), s.skip(n as int))
}

/// The watermark after a group was finalized and `rest` remains.
pub open spec fn next_min(g: Group, rest: Seq<Key>) -> int {
    if rest.len() > 0 {
        rest[0].0
    } else {
        g.0.0
    }
}

pub proof fn lemma_run_bounds(s: Seq<Key>, k: Key)
    ensures
        run(s, k) <= s.len(),
        s.len() > 0 && s[0] == k ==> run(s, k) >= 1,
    decreases s.len(),
{
    if s.len() > 0 && s[0] == k {
        lemma_run_bounds(s.drop_first(), k);
    }
}

/// What remains after finalizing the oldest group is a shorter sorted suffix,
/// at or above the new watermark, which is at or above the old one.
pub proof fn lemma_take_group(s: Seq<Key>, lo: int)
    requires
        s.len() > 0,
        sorted(s),
        forall|i: int| 0 <= i < s.len() ==> lo <= (#[trigger] s[i]).0,
    ensures
        ({
            let g = take_group(s).0;
            let r = take_group(s).1;
            &&& 1 <= g.1 <= s.len()
            &&& r == s.skip(g.1 as int)
            &&& r.len() < s.len()
            &&& sorted(r)
            &&& lo <= g.0.0
            &&& g.0.0 <= next_min(g, r)
            &&& forall|i: int| 0 <= i < r.len() ==> next_min(g, r) <= (#[trigger] r[i]).0
            &&& forall|i: int| 0 <= i < r.len() ==> (#[trigger] r[i]) == s[i + g.1]
        }),
{
    lemma_run_bounds(s, s[0]);
    let n = run(s, s[0]);
    let r = s.skip(n as int);
    assert forall|i: int| 0 <= i < r.len() implies (#[trigger] r[i]) == s[i + n] && r[0].0 <= r[i].0
        && s[0].0 <= r[i].0 by {
        assert(!key_lt(s[i + n], s[n as int]) || i == 0);
        assert(!key_lt(s[i + n], s[0]) || n == 0);
    }
    assert(sorted(r)) by {
        assert forall|i: int, j: int| 0 <= i < j < r.len() implies !key_lt(
            #[trigger] r[j],
            #[trigger] r[i],
        ) by {
            assert(r[i] == s[i + n] && r[j] == s[j + n]);
        }
    }
}

/// Finalizes groups, oldest first, until none is left or the span from the
/// watermark to `max` is within `th`. Yields the groups, the rest and the
/// watermark.
pub open spec fn drain_due(s: Seq<Key>, min: int, max: int, th: int) -> (Seq<Group>, Seq<Key>, int)
    decreases s.len(),
    via drain_due_decreases
{
    if s.len() == 0 {
        (seq![], s, min)
    } else {
        let g = take_group(s).0;
        let r = take_group(s).1;
        let m = next_min(g, r);
        if r.len() == 0 || max - m <= th {
            (seq![g], r, m)
        } else {
            let t = drain_due(r, m, max, th);
            (seq![g] + t.0, t.1, t.2)
        }
    }
}

#[via_fn]
proof fn drain_due_decreases(s: Seq<Key>, min: int, max: int, th: int) {
    if s.len() > 0 {
        lemma_run_bounds(s, s[0]);
    }
}

/// Finalizes every group, oldest first: the groups and the last watermark.
pub open spec fn drain_all(s: Seq<Key>, min: int) -> (Seq<Group>, int)
    decreases s.len(),
    via drain_all_decreases
{
    if s.len() == 0 {
        (seq![], min)
    } else {
        let g = take_group(s).0;
        let r = take_group(s).1;
        let t = drain_all(r, next_min(g, r));
        (seq![g] + t.0, t.1)
    }
}

#[via_fn]
proof fn drain_all_decreases(s: Seq<Key>, min: int) {
    if s.len() > 0 {
        lemma_run_bounds(s, s[0]);
    }
}

/// The newest time seen: the larger of the previous one, if any, and `t`.
pub open spec fn newest(m: Option<int>, t: int) -> int {
    match m {
        Some(x) => if x > t {
            x
        } else {
            t
        },
        None => t,
    }
}

/// Where the lag is measured from: the watermark once one is set, else the
/// oldest pending time.
pub open spec fn lag_base(w: Option<int>, s: Seq<Key>) -> int {
    match w {
        Some(x) => x,
        None => if s.len() > 0 {
            s[0].0
        } else {
            0
        },
    }
}

/// Whether an event at time `t` arrives behind the watermark.
pub open spec fn is_stale(w: Option<int>, t: int) -> bool {
    match w {
        Some(x) => t < x,
        None => false,
    }
}

/// One event arrives: it is dropped when stale, else buffered, and overdue
/// groups are finalized.
pub open spec fn push_model(a: AggState, k: Key) -> (AggState, Option<Seq<Group>>) {
    if is_stale(a.min_time, k.0) {
        (a, None)
    } else {
        let mx = newest(a.max_time, k.0);
        let s = insert_sorted(a.pending, k);
        let lo = lag_base(a.min_time, s);
        if mx - lo <= a.threshold {
            (AggState { pending: s, max_time: Some(mx), ..a }, None)
        } else {
            let d = drain_due(s, lo, mx, a.threshold);
            (
                AggState {
                    pending: d.1,
                    min_time: Some(d.2),
                    max_time: if d.1.len() == 0 { None } else { Some(mx) },
                    threshold: a.threshold,
                },
                Some(d.0),
            )
        }
    }
}

/// End of input: every pending group is finalized.
pub open spec fn flush_model(a: AggState) -> (AggState, Option<Seq<Group>>) {
    if a.pending.len() == 0 {
        (a, None)
    } else {
        let d = drain_all(a.pending, lag_base(a.min_time, a.pending));
        (AggState { pending: seq![], min_time: Some(d.1), max_time: None, ..a }, Some(d.0))
    }
}

/// Events pushed one after another: the final state and each push's output.
pub open spec fn push_all(a: AggState, ks: Seq<Key>) -> (AggState, Seq<Option<Seq<Group>>>)
    decreases ks.len(),
{
    if ks.len() == 0 {
        (a, seq![])
    } else {
        let step = push_model(a, ks[0]);
        let t = push_all(step.0, ks.drop_first());
        (t.0, seq![step.1] + t.1)
    }
}

/// The engine's invariant: pending keys ascending, none below the watermark
/// (once one is set) or above `max_time`, which is set exactly when something
/// is pending and then within `threshold` of where the lag is measured from.
pub open spec fn state_wf(a: AggState) -> bool {
    &&& sorted(a.pending)
    &&& ((a.max_time is None) <==> a.pending.len() == 0)
    &&& a.min_time matches Some(w) ==> forall|i: int| 0 <= i < a.pending.len() ==> w <= (#[trigger] a.pending[i]).0
    &&& a.max_time matches Some(mx) ==> {
        &&& mx - lag_base(a.min_time, a.pending) <= a.threshold
        &&& forall|i: int| 0 <= i < a.pending.len() ==> (#[trigger] a.pending[i]).0 <= mx
    }
}

/// In a sorted sequence no time precedes the first one.
pub proof fn lemma_sorted_first_oldest(s: Seq<Key>)
    requires
        sorted(s),
    ensures
        forall|i: int| 0 <= i < s.len() ==> s[0].0 <= (#[trigger] s[i]).0,
{
    assert forall|i: int| 0 <= i < s.len() implies s[0].0 <= (#[trigger] s[i]).0 by {
        if i > 0 {
            assert(!key_lt(s[i], s[0]));
        }
    }
}

/// Where the first element greater than `k` stands, `insert_sorted` puts `k`
/// there, and keeps a sorted sequence sorted.
pub proof fn lemma_insert_sorted(s: Seq<Key>, k: Key, i: int)
    requires
        0 <= i <= s.len(),
        forall|j: int| 0 <= j < i ==> !key_lt(k, #[trigger] s[j]),
        i < s.len() ==> key_lt(k, s[i]),
    ensures
        insert_sorted(s, k) == s.take(i) + seq![k] + s.skip(i),
        sorted(s) ==> sorted(insert_sorted(s, k)),
    decreases s.len(),
{
    if s.len() == 0 {
        assert(insert_sorted(s, k) =~= s.take(i) + seq![k] + s.skip(i));
    } else if i == 0 {
        assert(insert_sorted(s, k) =~= s.take(i) + seq![k] + s.skip(i));
    } else {
        let t = s.drop_first();
        assert forall|j: int| 0 <= j < i - 1 implies !key_lt(k, #[trigger] t[j]) by {
            assert(t[j] == s[j + 1]);
        }
        lemma_insert_sorted(t, k, i - 1);
        assert(insert_sorted(s, k) =~= s.take(i) + seq![k] + s.skip(i));
    }
    if sorted(s) {
        let r = s.take(i) + seq![k] + s.skip(i);
        assert forall|a: int, b: int| 0 <= a < b < r.len() implies !key_lt(
            #[trigger] r[b],
            #[trigger] r[a],
        ) by {
            if a < i && b == i {
                lemma_key_order(k, s[a], k);
            } else if a == i && b > i {
                lemma_key_order(s[b - 1], s[i], k);
                lemma_key_order(s[b - 1], k, s[i]);
            } else if a < i && b > i {
                assert(r[a] == s[a] && r[b] == s[b - 1]);
            } else if a > i {
                assert(r[a] == s[a - 1] && r[b] == s[b - 1]);
            }
        }
    }
}

} // verus!
