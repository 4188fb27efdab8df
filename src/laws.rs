//! What holds of the aggregation engine for every input: no early output
//! while events stay within the threshold, groups that hold every pending
//! event of their key, a watermark that never moves back, and a flush that
//! empties the engine.

use vstd::prelude::*;
use vstd::multiset::Multiset;
use vstd::seq_lib::{lemma_multiset_commutative, to_multiset_build, to_multiset_contains};
use crate::model::{
    AggState, Group, drain_all, drain_due, flush_model, insert_sorted, lemma_insert_sorted,
    is_stale, lag_base, lemma_run_bounds, lemma_sorted_first_oldest, lemma_take_group, newest,
    next_min, push_all, push_model, run, sorted,
    state_wf, take_group,
};
use crate::order::{Key, key_lt, lemma_key_order};

verus! {

/// Where `insert_sorted` puts `k`: before the first element greater than it.
pub open spec fn insert_pos(s: Seq<Key>, k: Key) -> int
    decreases s.len(),
{
    if s.len() == 0 || key_lt(k, s[0]) {
        0
    } else {
        1 + insert_pos(s.drop_first(), k)
    }
}

pub proof fn lemma_insert_pos(s: Seq<Key>, k: Key)
    ensures
        0 <= insert_pos(s, k) <= s.len(),
        forall|j: int| 0 <= j < insert_pos(s, k) ==> !key_lt(k, #[trigger] s[j]),
        insert_pos(s, k) < s.len() ==> key_lt(k, s[insert_pos(s, k)]),
    decreases s.len(),
{
    if s.len() > 0 && !key_lt(k, s[0]) {
        let t = s.drop_first();
        lemma_insert_pos(t, k);
        assert forall|j: int| 0 <= j < insert_pos(s, k) implies !key_lt(k, #[trigger] s[j]) by {
            if j > 0 {
                assert(s[j] == t[j - 1]);
            }
        }
    }
}

/// Pending events form a multiset: inserting one keeps all earlier ones and
/// adds it, whatever order they arrived in.
pub proof fn lemma_insert_keeps_all(s: Seq<Key>, k: Key)
    ensures
        insert_sorted(s, k).to_multiset() == s.to_multiset().insert(k),
{
    broadcast use vstd::multiset::group_multiset_axioms;

    lemma_insert_pos(s, k);
    let p = insert_pos(s, k);
    lemma_insert_sorted(s, k, p);
    lemma_multiset_commutative(s.take(p) + seq![k], s.skip(p));
    lemma_multiset_commutative(s.take(p), seq![k]);
    lemma_multiset_commutative(s.take(p), s.skip(p));
    assert(s.take(p) + s.skip(p) =~= s);
    assert(seq![k].to_multiset() =~= Multiset::<Key>::empty().insert(k)) by {
        broadcast use vstd::seq_lib::group_to_multiset_ensures;

        to_multiset_build(Seq::<Key>::empty(), k);
        assert(Seq::<Key>::empty().to_multiset() =~= Multiset::<Key>::empty());
        assert(Seq::<Key>::empty().push(k) =~= seq![k]);
    }
}

/// Whether the timestamp `t` fits the events buffered in `a`: within
/// `threshold` of the newest and of the oldest time seen.
pub open spec fn fits(a: AggState, t: int) -> bool {
    match a.max_time {
        Some(m) => m - t <= a.threshold && t - a.pending[0].0 <= a.threshold,
        None => true,
    }
}

/// Before any group is finalized, an event that fits the buffered ones is
/// only buffered.
pub proof fn lemma_quiet_push(a: AggState, k: Key)
    requires
        state_wf(a),
        a.min_time is None,
        a.threshold >= 0,
        fits(a, k.0),
    ensures
        push_model(a, k).1 is None,
        push_model(a, k).0.min_time is None,
        push_model(a, k).0.threshold == a.threshold,
        push_model(a, k).0.pending == insert_sorted(a.pending, k),
        push_model(a, k).0.max_time == Some(newest(a.max_time, k.0)),
        push_model(a, k).0.pending[0] == k || (a.pending.len() > 0 && push_model(a, k).0.pending[0] == a.pending[0]),
        state_wf(push_model(a, k).0),
{
    let mx = newest(a.max_time, k.0);
    let s = insert_sorted(a.pending, k);
    lemma_insert_pos(a.pending, k);
    let p = insert_pos(a.pending, k);
    lemma_insert_sorted(a.pending, k, p);
    assert(s[0] == k || s[0] == a.pending[0]) by {
        if p > 0 {
            assert(s[0] == a.pending[0]);
        }
    }
    assert forall|i: int| 0 <= i < s.len() implies (#[trigger] s[i]).0 <= mx by {
        if i < p {
            assert(s[i] == a.pending[i]);
        } else if i > p {
            assert(s[i] == a.pending[i - 1]);
        }
    }
}

/// Before any group is finalized, events that fit the buffered ones and each
/// other are only buffered: no push emits, and the pending multiset gains
/// exactly those events.
pub proof fn lemma_quiet_pushes(a: AggState, ks: Seq<Key>)
    requires
        state_wf(a),
        a.min_time is None,
        a.threshold >= 0,
        forall|i: int, j: int| 0 <= i < ks.len() && 0 <= j < ks.len() ==> (#[trigger] ks[i]).0 - (#[trigger] ks[j]).0 <= a.threshold,
        forall|j: int| 0 <= j < ks.len() ==> fits(a, (#[trigger] ks[j]).0),
    ensures
        push_all(a, ks).1.len() == ks.len(),
        forall|i: int| 0 <= i < ks.len() ==> (#[trigger] push_all(a, ks).1[i]) is None,
        push_all(a, ks).0.min_time is None,
        push_all(a, ks).0.threshold == a.threshold,
        state_wf(push_all(a, ks).0),
        push_all(a, ks).0.pending.to_multiset() == a.pending.to_multiset().add(ks.to_multiset()),
    decreases ks.len(),
{
    broadcast use vstd::multiset::group_multiset_axioms;
    broadcast use vstd::seq_lib::group_to_multiset_ensures;

    if ks.len() == 0 {
        assert(a.pending.to_multiset().add(ks.to_multiset()) =~= a.pending.to_multiset());
    } else {
        let k = ks[0];
        lemma_quiet_push(a, k);
        lemma_insert_keeps_all(a.pending, k);
        let b = push_model(a, k).0;
        let rest = ks.drop_first();
        assert forall|i: int, j: int| 0 <= i < rest.len() && 0 <= j < rest.len() implies (#[trigger] rest[i]).0
            - (#[trigger] rest[j]).0 <= b.threshold by {
            assert(rest[i] == ks[i + 1] && rest[j] == ks[j + 1]);
        }
        assert forall|j: int| 0 <= j < rest.len() implies fits(b, (#[trigger] rest[j]).0) by {
            assert(rest[j] == ks[j + 1]);
            assert(ks[0].0 - ks[j + 1].0 <= a.threshold);
            assert(ks[j + 1].0 - ks[0].0 <= a.threshold);
            assert(fits(a, ks[j + 1].0));
        }
        lemma_quiet_pushes(b, rest);
        let outs = push_all(a, ks).1;
        assert forall|i: int| 0 <= i < ks.len() implies (#[trigger] outs[i]) is None by {
            if i > 0 {
                assert(outs[i] == push_all(b, rest).1[i - 1]);
            }
        }
        assert(seq![k] + rest =~= ks);
        lemma_multiset_commutative(seq![k], rest);
        assert(seq![k].to_multiset() =~= Multiset::<Key>::empty().insert(k)) by {
            to_multiset_build(Seq::<Key>::empty(), k);
            assert(Seq::<Key>::empty().to_multiset() =~= Multiset::<Key>::empty());
            assert(Seq::<Key>::empty().push(k) =~= seq![k]);
        }
        assert(push_all(a, ks).0.pending.to_multiset() =~= a.pending.to_multiset().add(
            ks.to_multiset(),
        ));
    }
}

/// The state of a freshly made engine.
pub open spec fn fresh(threshold: int) -> AggState {
    AggState { pending: seq![], min_time: None, max_time: None, threshold }
}

/// Events whose times lie pairwise within `threshold`, pushed in any order
/// and at any absolute time into a fresh engine, are never finalized by a
/// push: output waits for the flush.
pub proof fn lemma_no_output_within_threshold(threshold: int, ks: Seq<Key>)
    requires
        forall|i: int, j: int| 0 <= i < ks.len() && 0 <= j < ks.len() ==> (#[trigger] ks[i]).0 - (#[trigger] ks[j]).0 <= threshold,
    ensures
        push_all(fresh(threshold), ks).1.len() == ks.len(),
        forall|i: int| 0 <= i < ks.len() ==> (#[trigger] push_all(fresh(threshold), ks).1[i]) is None,
{
    if ks.len() > 0 {
        assert(ks[0].0 - ks[0].0 <= threshold);
        lemma_quiet_pushes(fresh(threshold), ks);
    }
}

proof fn lemma_run_prefix(s: Seq<Key>, k: Key)
    ensures
        forall|i: int| 0 <= i < run(s, k) ==> #[trigger] s[i] == k,
        run(s, k) < s.len() ==> s[run(s, k) as int] != k,
    decreases s.len(),
{
    lemma_run_bounds(s, k);
    if s.len() > 0 && s[0] == k {
        let t = s.drop_first();
        lemma_run_prefix(t, k);
        assert forall|i: int| 0 <= i < run(s, k) implies #[trigger] s[i] == k by {
            if i > 0 {
                assert(s[i] == t[i - 1]);
            }
        }
    }
}

proof fn lemma_uniform_count(t: Seq<Key>, k: Key)
    requires
        forall|i: int| 0 <= i < t.len() ==> #[trigger] t[i] == k,
    ensures
        t.to_multiset().count(k) == t.len(),
        forall|x: Key| x != k ==> #[trigger] t.to_multiset().count(x) == 0,
    decreases t.len(),
{
    broadcast use vstd::multiset::group_multiset_axioms;

    if t.len() == 0 {
        assert(t.to_multiset() =~= Multiset::<Key>::empty()) by {
            broadcast use vstd::seq_lib::group_to_multiset_ensures;
        }
    } else {
        let u = t.drop_last();
        lemma_uniform_count(u, k);
        assert(u.push(t.last()) =~= t);
        to_multiset_build(u, t.last());
    }
}

/// Finalizing the oldest group takes every pending event of its key: its
/// count is how many are pending, none stays behind, and every other key
/// keeps its pending events.
pub proof fn lemma_group_takes_all_of_its_key(s: Seq<Key>)
    requires
        sorted(s),
        s.len() > 0,
    ensures
        take_group(s).0.1 == s.to_multiset().count(s[0]),
        !take_group(s).1.contains(s[0]),
        forall|x: Key| x != s[0] ==> #[trigger] s.to_multiset().count(x) == take_group(s).1.to_multiset().count(x),
{
    broadcast use vstd::multiset::group_multiset_axioms;

    lemma_run_bounds(s, s[0]);
    lemma_run_prefix(s, s[0]);
    let n = run(s, s[0]);
    let head = s.take(n as int);
    let r = s.skip(n as int);
    assert(head + r =~= s);
    lemma_multiset_commutative(head, r);
    lemma_uniform_count(head, s[0]);
    if r.contains(s[0]) {
        let j = choose|j: int| 0 <= j < r.len() && r[j] == s[0];
        assert(r[j] == s[n + j]);
        lemma_key_order(s[0], s[n as int], s[n + j]);
        assert(!key_lt(s[n as int], s[0]));
        assert(!key_lt(s[n + j], s[n as int]) || j == 0);
    }
    to_multiset_contains(r, s[0]);
}

/// Finalizing never moves the watermark back.
pub proof fn lemma_drain_due_watermark(s: Seq<Key>, min: int, max: int, th: int)
    requires
        sorted(s),
        forall|i: int| 0 <= i < s.len() ==> min <= (#[trigger] s[i]).0,
    ensures
        drain_due(s, min, max, th).2 >= min,
    decreases s.len(),
{
    if s.len() > 0 {
        lemma_take_group(s, min);
        let g = take_group(s).0;
        let r = take_group(s).1;
        let m = next_min(g, r);
        if !(r.len() == 0 || max - m <= th) {
            lemma_drain_due_watermark(r, m, max, th);
        }
    }
}

pub proof fn lemma_drain_all_watermark(s: Seq<Key>, min: int)
    requires
        sorted(s),
        forall|i: int| 0 <= i < s.len() ==> min <= (#[trigger] s[i]).0,
    ensures
        drain_all(s, min).1 >= min,
    decreases s.len(),
{
    if s.len() > 0 {
        lemma_take_group(s, min);
        let g = take_group(s).0;
        let r = take_group(s).1;
        lemma_drain_all_watermark(r, next_min(g, r));
    }
}

/// Whether the watermark `after` is no earlier than `before`: once set it
/// stays set and never moves back.
pub open spec fn watermark_kept(before: Option<int>, after: Option<int>) -> bool {
    match before {
        Some(w) => match after {
            Some(v) => w <= v,
            None => false,
        },
        None => true,
    }
}

/// The watermark never decreases, neither on a push nor on a flush.
pub proof fn lemma_watermark_monotone(a: AggState, k: Key)
    requires
        state_wf(a),
    ensures
        watermark_kept(a.min_time, push_model(a, k).0.min_time),
        watermark_kept(a.min_time, flush_model(a).0.min_time),
{
    if !is_stale(a.min_time, k.0) {
        let mx = newest(a.max_time, k.0);
        let s = insert_sorted(a.pending, k);
        lemma_insert_pos(a.pending, k);
        let p = insert_pos(a.pending, k);
        lemma_insert_sorted(a.pending, k, p);
        lemma_sorted_first_oldest(s);
        let lo = lag_base(a.min_time, s);
        assert forall|i: int| 0 <= i < s.len() implies lo <= (#[trigger] s[i]).0 by {
            if i < p {
                assert(s[i] == a.pending[i]);
            } else if i > p {
                assert(s[i] == a.pending[i - 1]);
            }
        }
        lemma_drain_due_watermark(s, lo, mx, a.threshold);
    }
    lemma_sorted_first_oldest(a.pending);
    lemma_drain_all_watermark(a.pending, lag_base(a.min_time, a.pending));
}

/// Events of one (time, key) whose times, with all the others pushed, lie
/// pairwise within `threshold`, arriving in any order and at any absolute
/// time, end up in exactly one group at the flush, counting all of them.
pub proof fn lemma_counts_regardless_of_order(threshold: int, ks: Seq<Key>)
    requires
        ks.len() > 0,
        forall|i: int, j: int| 0 <= i < ks.len() && 0 <= j < ks.len() ==> (#[trigger] ks[i]).0 - (#[trigger] ks[j]).0 <= threshold,
    ensures
        forall|i: int| 0 <= i < ks.len() ==> (#[trigger] push_all(fresh(threshold), ks).1[i]) is None,
        ({
            let b = push_all(fresh(threshold), ks).0;
            let gs = drain_all(b.pending, lag_base(b.min_time, b.pending)).0;
            &&& flush_model(b).1 == Some(gs)
            &&& group_keys(gs).no_duplicates()
            &&& group_keys(gs).to_set() == ks.to_set()
            &&& forall|i: int| 0 <= i < gs.len() ==> (#[trigger] gs[i]).1 == ks.to_multiset().count(gs[i].0)
        }),
{
    broadcast use vstd::multiset::group_multiset_axioms;
    broadcast use vstd::seq_lib::group_to_multiset_ensures;

    let a = fresh(threshold);
    assert(ks[0].0 - ks[0].0 <= threshold);
    lemma_quiet_pushes(a, ks);
    let b = push_all(a, ks).0;
    assert(a.pending.to_multiset() =~= Multiset::<Key>::empty());
    assert(b.pending.to_multiset() =~= ks.to_multiset());
    lemma_sorted_first_oldest(b.pending);
    lemma_flush_groups(b.pending, lag_base(b.min_time, b.pending));
    assert(b.pending.len() > 0) by {
        assert(ks.to_multiset().count(ks[0]) > 0) by {
            to_multiset_contains(ks, ks[0]);
        }
        if b.pending.len() == 0 {
            assert(b.pending =~= Seq::<Key>::empty());
        }
    }
    assert(b.pending.to_set() =~= ks.to_set()) by {
        assert forall|x: Key| b.pending.to_set().contains(x) <==> ks.to_set().contains(x) by {
            to_multiset_contains(b.pending, x);
            to_multiset_contains(ks, x);
        }
    }
}

/// The keys of a list of groups.
pub open spec fn group_keys(gs: Seq<Group>) -> Seq<Key> {
    gs.map_values(|g: Group| g.0)
}

/// Flushing finalizes each pending key exactly once: one group per distinct
/// pending key, each counting every pending event of that key.
pub proof fn lemma_flush_groups(s: Seq<Key>, min: int)
    requires
        sorted(s),
        forall|i: int| 0 <= i < s.len() ==> min <= (#[trigger] s[i]).0,
    ensures
        group_keys(drain_all(s, min).0).no_duplicates(),
        group_keys(drain_all(s, min).0).to_set() == s.to_set(),
        forall|i: int| 0 <= i < drain_all(s, min).0.len() ==> (#[trigger] drain_all(s, min).0[i]).1
            == s.to_multiset().count(drain_all(s, min).0[i].0),
    decreases s.len(),
{
    broadcast use vstd::seq_lib::group_seq_properties;

    let gs = drain_all(s, min).0;
    if s.len() == 0 {
        assert(group_keys(gs) =~= Seq::<Key>::empty());
        assert(s.to_set() =~= Set::<Key>::empty());
        assert(group_keys(gs).to_set() =~= Set::<Key>::empty());
    } else {
        lemma_take_group(s, min);
        lemma_group_takes_all_of_its_key(s);
        let g = take_group(s).0;
        let r = take_group(s).1;
        let m = next_min(g, r);
        lemma_flush_groups(r, m);
        let rs = drain_all(r, m).0;
        assert(gs == seq![g] + rs);
        let ks = group_keys(gs);
        let rk = group_keys(rs);
        assert(ks =~= seq![g.0] + rk);
        assert(!rk.contains(g.0)) by {
            if rk.contains(g.0) {
                assert(rk.to_set().contains(g.0));
                assert(r.to_set().contains(g.0));
            }
        }
        assert(ks.no_duplicates()) by {
            assert forall|i: int, j: int| 0 <= i < ks.len() && 0 <= j < ks.len() && i != j implies ks[i]
                != ks[j] by {
                if i > 0 && j > 0 {
                    assert(ks[i] == rk[i - 1] && ks[j] == rk[j - 1]);
                } else if i == 0 {
                    assert(ks[j] == rk[j - 1]);
                } else {
                    assert(ks[i] == rk[i - 1]);
                }
            }
        }
        assert(ks.to_set() =~= s.to_set()) by {
            assert forall|x: Key| ks.to_set().contains(x) <==> s.to_set().contains(x) by {
                if x == g.0 {
                    assert(ks[0] == x);
                    assert(s[0] == x);
                } else {
                    if ks.contains(x) {
                        let i = choose|i: int| 0 <= i < ks.len() && ks[i] == x;
                        assert(rk[i - 1] == x);
                        assert(rk.to_set().contains(x));
                        let j = choose|j: int| 0 <= j < r.len() && r[j] == x;
                        assert(s[j + g.1] == x);
                    }
                    if s.contains(x) {
                        let j = choose|j: int| 0 <= j < s.len() && s[j] == x;
                        if j < g.1 {
                            lemma_run_prefix(s, s[0]);
                        } else {
                            assert(r[j - g.1] == x);
                            assert(r.to_set().contains(x));
                            assert(rk.to_set().contains(x));
                            let i = choose|i: int| 0 <= i < rk.len() && rk[i] == x;
                            assert(ks[i + 1] == x);
                        }
                    }
                }
            }
        }
        assert forall|i: int| 0 <= i < gs.len() implies (#[trigger] gs[i]).1 == s.to_multiset().count(
            gs[i].0,
        ) by {
            if i > 0 {
                assert(gs[i] == rs[i - 1]);
                assert(rk[i - 1] == gs[i].0);
                assert(gs[i].0 != g.0);
            }
        }
    }
}

/// A flush of a well-formed engine emits one group per distinct pending key,
/// as many as there are such keys, each with its full count; it leaves the
/// engine empty, and a second flush emits nothing.
pub proof fn lemma_flush_empties(a: AggState)
    requires
        state_wf(a),
        a.pending.len() > 0,
    ensures
        flush_model(a).1 matches Some(gs) && gs.len() == a.pending.to_set().len(),
        flush_model(a).0.pending.len() == 0,
        flush_model(flush_model(a).0).1 is None,
        flush_model(flush_model(a).0).0 == flush_model(a).0,
{
    lemma_sorted_first_oldest(a.pending);
    lemma_flush_groups(a.pending, lag_base(a.min_time, a.pending));
    let gs = drain_all(a.pending, lag_base(a.min_time, a.pending)).0;
    group_keys(gs).unique_seq_to_set();
}

/// How many events of `x` the groups `gs` hold together.
pub open spec fn group_count(gs: Seq<Group>, x: Key) -> nat
    decreases gs.len(),
{
    if gs.len() == 0 {
        0
    } else {
        (if gs[0].0 == x {
            gs[0].1
        } else {
            0
        }) + group_count(gs.drop_first(), x)
    }
}

pub open spec fn cnt(s: Seq<Key>, x: Key) -> nat {
    s.to_multiset().count(x)
}

proof fn lemma_group_count_cons(g: Group, gs: Seq<Group>, x: Key)
    ensures
        group_count(seq![g] + gs, x) == (if g.0 == x {
            g.1
        } else {
            0
        }) + group_count(gs, x),
{
    assert((seq![g] + gs).drop_first() =~= gs);
}

/// Finalizing overdue groups loses and invents nothing: for every key, what
/// stays pending and what the groups hold add up to what was pending; each
/// group holds every pending event of its key; the rest stays sorted, at or
/// above the new watermark and, if any is left, within the threshold.
pub proof fn lemma_drain_due_facts(s: Seq<Key>, lo: int, max: int, th: int)
    requires
        sorted(s),
        s.len() > 0,
        forall|i: int| 0 <= i < s.len() ==> lo <= (#[trigger] s[i]).0 <= max,
    ensures
        ({
            let d = drain_due(s, lo, max, th);
            &&& sorted(d.1)
            &&& lo <= d.2
            &&& forall|i: int| 0 <= i < d.1.len() ==> d.2 <= (#[trigger] d.1[i]).0 <= max
            &&& d.1.len() > 0 ==> max - d.2 <= th
            &&& forall|x: Key| #[trigger] cnt(s, x) == cnt(d.1, x) + group_count(d.0, x)
            &&& forall|j: int| 0 <= j < d.0.len() ==> (#[trigger] d.0[j]).1 == cnt(s, d.0[j].0) && d.0[j].1 > 0
        }),
    decreases s.len(),
{
    broadcast use vstd::multiset::group_multiset_axioms;

    lemma_take_group(s, lo);
    lemma_group_takes_all_of_its_key(s);
    let g = take_group(s).0;
    let r = take_group(s).1;
    let m = next_min(g, r);
    let d = drain_due(s, lo, max, th);
    lemma_run_bounds(s, s[0]);
    assert forall|i: int| 0 <= i < r.len() implies (#[trigger] r[i]).0 <= max by {
        assert(r[i] == s[i + g.1]);
    }
    to_multiset_contains(r, g.0);
    if r.len() == 0 || max - m <= th {
        assert forall|x: Key| #[trigger] cnt(s, x) == cnt(d.1, x) + group_count(d.0, x) by {
            lemma_group_count_cons(g, Seq::<Group>::empty(), x);
            assert(seq![g] + Seq::<Group>::empty() =~= seq![g]);
        }
    } else {
        lemma_drain_due_facts(r, m, max, th);
        let t = drain_due(r, m, max, th);
        assert forall|x: Key| #[trigger] cnt(s, x) == cnt(d.1, x) + group_count(d.0, x) by {
            lemma_group_count_cons(g, t.0, x);
            assert(cnt(r, x) == cnt(t.1, x) + group_count(t.0, x));
        }
        assert forall|j: int| 0 <= j < d.0.len() implies (#[trigger] d.0[j]).1 == cnt(s, d.0[j].0)
            && d.0[j].1 > 0 by {
            if j > 0 {
                assert(d.0[j] == t.0[j - 1]);
                let y = t.0[j - 1].0;
                assert(cnt(r, y) > 0);
                to_multiset_contains(r, y);
                assert(y != g.0);
            }
        }
    }
}

/// Flushing loses and invents nothing: for every key, the groups hold
/// exactly the pending events of that key.
pub proof fn lemma_drain_all_counts(s: Seq<Key>, lo: int)
    requires
        sorted(s),
        forall|i: int| 0 <= i < s.len() ==> lo <= (#[trigger] s[i]).0,
    ensures
        forall|x: Key| #[trigger] cnt(s, x) == group_count(drain_all(s, lo).0, x),
    decreases s.len(),
{
    broadcast use vstd::multiset::group_multiset_axioms;
    broadcast use vstd::seq_lib::group_to_multiset_ensures;

    if s.len() == 0 {
        assert(s.to_multiset() =~= Multiset::<Key>::empty());
    } else {
        lemma_take_group(s, lo);
        lemma_group_takes_all_of_its_key(s);
        let g = take_group(s).0;
        let r = take_group(s).1;
        lemma_drain_all_counts(r, next_min(g, r));
        to_multiset_contains(r, g.0);
        assert forall|x: Key| #[trigger] cnt(s, x) == group_count(drain_all(s, lo).0, x) by {
            lemma_group_count_cons(g, drain_all(r, next_min(g, r)).0, x);
            assert(drain_all(s, lo).0 == seq![g] + drain_all(r, next_min(g, r)).0);
            assert(cnt(r, x) == group_count(drain_all(r, next_min(g, r)).0, x));
            if x == g.0 {
                assert(cnt(r, x) == 0);
            } else {
                assert(cnt(s, x) == cnt(r, x));
            }
        }
    }
}

/// What one push does to the counts: for every key, what stays pending and
/// what the push emits add up to what was pending plus the event, unless it
/// was stale; every emitted group holds every pending event of its key; and
/// the engine's invariant holds afterwards.
pub proof fn lemma_push_conserves(a: AggState, k: Key)
    requires
        state_wf(a),
    ensures
        state_wf(push_model(a, k).0),
        push_model(a, k).0.threshold == a.threshold,
        forall|x: Key| #[trigger] cnt(push_model(a, k).0.pending, x) + opt_count(push_model(a, k).1, x) == cnt(a.pending, x)
            + (if !is_stale(a.min_time, k.0) && k == x { 1nat } else { 0nat }),
        push_model(a, k).1 matches Some(gs) ==> forall|j: int| 0 <= j < gs.len() ==> (#[trigger] gs[j]).1
            == cnt(insert_sorted(a.pending, k), gs[j].0),
{
    broadcast use vstd::multiset::group_multiset_axioms;

    if !is_stale(a.min_time, k.0) {
        let mx = newest(a.max_time, k.0);
        let s = insert_sorted(a.pending, k);
        lemma_insert_pos(a.pending, k);
        let p = insert_pos(a.pending, k);
        lemma_insert_sorted(a.pending, k, p);
        lemma_insert_keeps_all(a.pending, k);
        lemma_sorted_first_oldest(s);
        let lo = lag_base(a.min_time, s);
        assert forall|i: int| 0 <= i < s.len() implies lo <= (#[trigger] s[i]).0 && s[i].0 <= mx by {
            if i < p {
                assert(s[i] == a.pending[i]);
            } else if i > p {
                assert(s[i] == a.pending[i - 1]);
            }
        }
        assert forall|x: Key| #[trigger] cnt(s, x) == cnt(a.pending, x) + (if k == x { 1nat } else { 0nat }) by {
            assert(s.to_multiset() == a.pending.to_multiset().insert(k));
        }
        if mx - lo > a.threshold {
            lemma_drain_due_facts(s, lo, mx, a.threshold);
            let d = drain_due(s, lo, mx, a.threshold);
            assert forall|x: Key| #[trigger] cnt(push_model(a, k).0.pending, x) + opt_count(push_model(a, k).1, x)
                == cnt(a.pending, x) + (if !is_stale(a.min_time, k.0) && k == x { 1nat } else { 0nat }) by {
                assert(cnt(s, x) == cnt(d.1, x) + group_count(d.0, x));
                assert(cnt(s, x) == cnt(a.pending, x) + (if k == x { 1nat } else { 0nat }));
            }
        } else {
            assert forall|x: Key| #[trigger] cnt(push_model(a, k).0.pending, x) + opt_count(push_model(a, k).1, x)
                == cnt(a.pending, x) + (if !is_stale(a.min_time, k.0) && k == x { 1nat } else { 0nat }) by {
                assert(cnt(s, x) == cnt(a.pending, x) + (if k == x { 1nat } else { 0nat }));
            }
        }
    }
}

pub open spec fn opt_count(o: Option<Seq<Group>>, x: Key) -> nat {
    match o {
        Some(gs) => group_count(gs, x),
        None => 0,
    }
}

/// How many emitted aggregations' counts add up to, for key `x`, over the
/// outputs of a run of pushes.
pub open spec fn outputs_count(outs: Seq<Option<Seq<Group>>>, x: Key) -> nat
    decreases outs.len(),
{
    if outs.len() == 0 {
        0
    } else {
        opt_count(outs[0], x) + outputs_count(outs.drop_first(), x)
    }
}

/// How many events of key `x` a run of pushes accepted: those not dropped as
/// stale.
pub open spec fn accepted(a: AggState, ks: Seq<Key>, x: Key) -> nat
    decreases ks.len(),
{
    if ks.len() == 0 {
        0
    } else {
        (if !is_stale(a.min_time, ks[0].0) && ks[0] == x {
            1nat
        } else {
            0nat
        }) + accepted(push_model(a, ks[0]).0, ks.drop_first(), x)
    }
}

proof fn lemma_run_conserves(a: AggState, ks: Seq<Key>, x: Key)
    requires
        state_wf(a),
    ensures
        state_wf(push_all(a, ks).0),
        cnt(push_all(a, ks).0.pending, x) + outputs_count(push_all(a, ks).1, x) == cnt(a.pending, x)
            + accepted(a, ks, x),
    decreases ks.len(),
{
    if ks.len() > 0 {
        lemma_push_conserves(a, ks[0]);
        let b = push_model(a, ks[0]).0;
        lemma_run_conserves(b, ks.drop_first(), x);
        let outs = push_all(a, ks).1;
        assert(outs.drop_first() =~= push_all(b, ks.drop_first()).1);
    }
}

/// Counts add up exactly: over any run of pushes into a fresh engine and the
/// final flush, in any order of arrival, the aggregations of each (time, key)
/// count together exactly the events of it that were not dropped as stale.
/// (Each of them, by `lemma_push_conserves` and `lemma_flush_groups`, holds
/// every event of its key pending when it was finalized.)
pub proof fn lemma_counts_add_up(threshold: int, ks: Seq<Key>, x: Key)
    ensures
        outputs_count(push_all(fresh(threshold), ks).1, x) + opt_count(
            flush_model(push_all(fresh(threshold), ks).0).1,
            x,
        ) == accepted(fresh(threshold), ks, x),
{
    broadcast use vstd::multiset::group_multiset_axioms;
    broadcast use vstd::seq_lib::group_to_multiset_ensures;

    let a = fresh(threshold);
    assert(a.pending.to_multiset() =~= Multiset::<Key>::empty());
    lemma_run_conserves(a, ks, x);
    let b = push_all(a, ks).0;
    lemma_sorted_first_oldest(b.pending);
    lemma_drain_all_counts(b.pending, lag_base(b.min_time, b.pending));
    if b.pending.len() == 0 {
        assert(b.pending.to_multiset() =~= Multiset::<Key>::empty());
    }
}

proof fn lemma_group_count_ge(gs: Seq<Group>, x: Key, j: int)
    requires
        0 <= j < gs.len(),
        gs[j].0 == x,
    ensures
        group_count(gs, x) >= gs[j].1,
    decreases gs.len(),
{
    if j > 0 {
        lemma_group_count_ge(gs.drop_first(), x, j - 1);
    }
}

proof fn lemma_cnt_cons(ks: Seq<Key>, x: Key)
    requires
        ks.len() > 0,
    ensures
        cnt(ks, x) == (if ks[0] == x { 1nat } else { 0nat }) + cnt(ks.drop_first(), x),
{
    broadcast use vstd::multiset::group_multiset_axioms;
    broadcast use vstd::seq_lib::group_to_multiset_ensures;

    assert(seq![ks[0]] + ks.drop_first() =~= ks);
    lemma_multiset_commutative(seq![ks[0]], ks.drop_first());
    to_multiset_build(Seq::<Key>::empty(), ks[0]);
    assert(Seq::<Key>::empty().to_multiset() =~= Multiset::<Key>::empty());
    assert(Seq::<Key>::empty().push(ks[0]) =~= seq![ks[0]]);
}

/// No event of key `x` in the run is dropped as stale.
pub open spec fn none_stale(a: AggState, ks: Seq<Key>, x: Key) -> bool
    decreases ks.len(),
{
    ks.len() == 0 || ((ks[0] == x ==> !is_stale(a.min_time, x.0)) && none_stale(
        push_model(a, ks[0]).0,
        ks.drop_first(),
        x,
    ))
}

/// No event of key `x` arrives after a push that emitted a group of `x`.
pub open spec fn none_after_emitted(a: AggState, ks: Seq<Key>, x: Key) -> bool
    decreases ks.len(),
{
    ks.len() == 0 || ((opt_count(push_model(a, ks[0]).1, x) > 0 ==> !ks.drop_first().contains(x))
        && none_after_emitted(push_model(a, ks[0]).0, ks.drop_first(), x))
}

/// Whether every group of key `x` in `o` counts `c`.
pub open spec fn groups_count(o: Option<Seq<Group>>, x: Key, c: nat) -> bool {
    match o {
        Some(gs) => forall|j: int| 0 <= j < gs.len() && gs[j].0 == x ==> (#[trigger] gs[j]).1 == c,
        None => true,
    }
}

proof fn lemma_run_one_emission(a: AggState, ks: Seq<Key>, x: Key)
    requires
        state_wf(a),
        none_stale(a, ks, x),
        none_after_emitted(a, ks, x),
    ensures
        ({
            let outs = push_all(a, ks).1;
            let c = cnt(a.pending, x) + cnt(ks, x);
            &&& outs.len() == ks.len()
            &&& forall|i: int| 0 <= i < outs.len() && opt_count(#[trigger] outs[i], x) > 0 ==> opt_count(outs[i], x) == c
                && groups_count(outs[i], x, c)
            &&& forall|i: int, j: int| 0 <= i < j < outs.len() && opt_count(#[trigger] outs[i], x) > 0 ==> opt_count(#[trigger] outs[j], x) == 0
            &&& (exists|i: int| 0 <= i < outs.len() && opt_count(#[trigger] outs[i], x) > 0) ==> cnt(push_all(a, ks).0.pending, x) == 0
            &&& (forall|i: int| 0 <= i < outs.len() ==> opt_count(#[trigger] outs[i], x) == 0) ==> cnt(push_all(a, ks).0.pending, x) == c
        }),
    decreases ks.len(),
{
    broadcast use vstd::multiset::group_multiset_axioms;

    let outs = push_all(a, ks).1;
    if ks.len() == 0 {
        assert(ks.to_multiset() =~= Multiset::<Key>::empty()) by {
            broadcast use vstd::seq_lib::group_to_multiset_ensures;
        }
    } else {
        let k = ks[0];
        let rest = ks.drop_first();
        let b = push_model(a, k).0;
        let o0 = push_model(a, k).1;
        lemma_push_conserves(a, k);
        lemma_insert_keeps_all(a.pending, k);
        lemma_cnt_cons(ks, x);
        lemma_run_one_emission(b, rest, x);
        let routs = push_all(b, rest).1;
        assert(outs =~= seq![o0] + routs);
        let c = cnt(a.pending, x) + cnt(ks, x);
        assert(cnt(insert_sorted(a.pending, k), x) == cnt(a.pending, x) + (if k == x { 1nat } else { 0nat }));
        if opt_count(o0, x) > 0 {
            assert(cnt(rest, x) == 0) by {
                to_multiset_contains(rest, x);
            }
            let gs = o0->0;
            assert(groups_count(o0, x, c));
            let j = choose|j: int| 0 <= j < gs.len() && gs[j].0 == x;
            assert(exists|j: int| 0 <= j < gs.len() && gs[j].0 == x) by {
                if !(exists|j: int| 0 <= j < gs.len() && gs[j].0 == x) {
                    lemma_group_count_zero(gs, x);
                }
            }
            lemma_group_count_ge(gs, x, j);
            assert(cnt(b.pending, x) == 0);
            assert forall|i: int| 0 <= i < routs.len() implies opt_count(#[trigger] routs[i], x) == 0 by {}
        }
        assert forall|i: int| 0 <= i < outs.len() && opt_count(#[trigger] outs[i], x) > 0 implies opt_count(outs[i], x) == c
            && groups_count(outs[i], x, c) by {
            if i > 0 {
                assert(outs[i] == routs[i - 1]);
            }
        }
        assert forall|i: int, j: int| 0 <= i < j < outs.len() && opt_count(#[trigger] outs[i], x) > 0 implies opt_count(#[trigger] outs[j], x) == 0 by {
            assert(outs[j] == routs[j - 1]);
            if i > 0 {
                assert(outs[i] == routs[i - 1]);
            }
        }
        if exists|i: int| 0 <= i < outs.len() && opt_count(#[trigger] outs[i], x) > 0 {
            let i = choose|i: int| 0 <= i < outs.len() && opt_count(#[trigger] outs[i], x) > 0;
            if i > 0 {
                assert(outs[i] == routs[i - 1]);
            }
        }
        if forall|i: int| 0 <= i < outs.len() ==> opt_count(#[trigger] outs[i], x) == 0 {
            assert(opt_count(outs[0], x) == 0);
            assert forall|i: int| 0 <= i < routs.len() implies opt_count(#[trigger] routs[i], x) == 0 by {
                assert(outs[i + 1] == routs[i]);
            }
        }
    }
}

proof fn lemma_group_count_zero(gs: Seq<Group>, x: Key)
    requires
        forall|j: int| 0 <= j < gs.len() ==> (#[trigger] gs[j]).0 != x,
    ensures
        group_count(gs, x) == 0,
    decreases gs.len(),
{
    if gs.len() > 0 {
        lemma_group_count_zero(gs.drop_first(), x);
    }
}

/// Events of one (time, key) `x`, arriving in any order into a fresh engine,
/// none dropped as stale and none arriving after a push that emitted a group
/// of `x`, end up in exactly one result: one push's, or else the flush's;
/// there every group of `x` counts all `c` of them, and together they count
/// `c`, so there is one such group.
pub proof fn lemma_one_aggregation_per_group(threshold: int, ks: Seq<Key>, x: Key)
    requires
        cnt(ks, x) > 0,
        none_stale(fresh(threshold), ks, x),
        none_after_emitted(fresh(threshold), ks, x),
    ensures
        ({
            let outs = push_all(fresh(threshold), ks).1.push(flush_model(push_all(fresh(threshold), ks).0).1);
            let c = cnt(ks, x);
            &&& exists|i: int| 0 <= i < outs.len() && opt_count(#[trigger] outs[i], x) > 0
            &&& forall|i: int| 0 <= i < outs.len() && opt_count(#[trigger] outs[i], x) > 0 ==> opt_count(outs[i], x) == c
                && groups_count(outs[i], x, c)
            &&& forall|i: int, j: int| 0 <= i < j < outs.len() && opt_count(#[trigger] outs[i], x) > 0 ==> opt_count(#[trigger] outs[j], x) == 0
        }),
{
    broadcast use vstd::multiset::group_multiset_axioms;
    broadcast use vstd::seq_lib::group_to_multiset_ensures;

    let a = fresh(threshold);
    assert(a.pending.to_multiset() =~= Multiset::<Key>::empty());
    lemma_run_one_emission(a, ks, x);
    lemma_run_conserves(a, ks, x);
    let b = push_all(a, ks).0;
    let pouts = push_all(a, ks).1;
    let outs = pouts.push(flush_model(b).1);
    let c = cnt(ks, x);
    lemma_sorted_first_oldest(b.pending);
    let lo = lag_base(b.min_time, b.pending);
    lemma_drain_all_counts(b.pending, lo);
    lemma_flush_groups(b.pending, lo);
    let n = pouts.len() as int;
    assert(forall|i: int| 0 <= i < n ==> outs[i] == pouts[i]);
    assert(opt_count(outs[n], x) == cnt(b.pending, x)) by {
        if b.pending.len() == 0 {
            assert(b.pending.to_multiset() =~= Multiset::<Key>::empty());
        }
    }
    assert(groups_count(outs[n], x, cnt(b.pending, x)));
    if exists|i: int| 0 <= i < n && opt_count(#[trigger] pouts[i], x) > 0 {
        let i = choose|i: int| 0 <= i < n && opt_count(#[trigger] pouts[i], x) > 0;
        assert(opt_count(outs[i], x) > 0);
    } else {
        assert(opt_count(outs[n], x) > 0);
    }
}

} // verus!
