//! Counts the total accumulated weight of each record, as it changes over time.
//!
//! For a collection whose times are totally ordered, `count_total` reports, for each record and
//! each time at which the record's accumulated weight changes, the retraction of the former
//! weight and the insertion of the new one, as updates of weight `-1` and `+1` to the pair
//! `(record, weight)`.

use vstd::prelude::*;

use crate::difference::Monoid;
use crate::operators::consolidate::{
    accumulable, consolidate_updates, consolidated, lemma_concat_doubles, lemma_consolidation_unique,
    sum_diffs,
};
use crate::updates::{
    data_equal, data_is, data_matches, data_values_equal, data_ordered, key_less, key_of, lemma_total_order, ordered,
    lemma_earlier_time_at_most, same_data, time_at_most, time_less, times_ascend,
};

verus! {

/// The count of record `d` that the earlier updates `h` hold: their diffs added in order, each on
/// the right of the count so far, starting from zero.
pub open spec fn history<K: Ord, T, R: Monoid>(h: Seq<(K, T, R)>, d: K) -> R::V
    decreases h.len(),
{
    if h.len() == 0 {
        R::zero_value()
    } else {
        let before = history(h.drop_last(), d);
        if data_is(h.last(), d) {
            R::add_value(before, h.last().2@)
        } else {
            before
        }
    }
}

/// Whether every addition that `history(h, d)` performs is free of overflow.
pub open spec fn history_req<K: Ord, T, R: Monoid>(h: Seq<(K, T, R)>, d: K) -> bool
    decreases h.len(),
{
    h.len() == 0 || (history_req(h.drop_last(), d) && (data_is(h.last(), d) ==> R::add_value_req(
        history(h.drop_last(), d),
        h.last().2@,
    )))
}

/// The count of the record of update `j` before that update: the count that the earlier
/// updates `h` hold for it, then the diffs of the earlier updates of the same run of equal data,
/// each added on the right.
pub open spec fn count_before<K: Ord, T, R: Monoid>(c: Seq<(K, T, R)>, h: Seq<(K, T, R)>, j: int) -> R::V
    decreases j,
{
    if j <= 0 || !data_equal(c[j - 1], c[j]) {
        history(h, c[j].0)
    } else {
        R::add_value(count_before(c, h, j - 1), c[j - 1].2@)
    }
}

/// The count of the record of update `j` after that update.
pub open spec fn count_after<K: Ord, T, R: Monoid>(c: Seq<(K, T, R)>, h: Seq<(K, T, R)>, j: int) -> R::V {
    R::add_value(count_before(c, h, j), c[j].2@)
}

/// Whether every count, from the earlier updates `h` on, can be computed without overflow.
pub open spec fn count_req<K: Ord, T, R: Monoid>(c: Seq<(K, T, R)>, h: Seq<(K, T, R)>) -> bool {
    forall|j: int| 0 <= j < c.len() ==> #[trigger] count_ok_at(c, h, j)
}

/// Whether the count of update `j` can be computed without overflow.
pub open spec fn count_ok_at<K: Ord, T, R: Monoid>(
    c: Seq<(K, T, R)>,
    h: Seq<(K, T, R)>,
    j: int,
) -> bool {
    history_req(h, c[j].0) && R::add_value_req(count_before(c, h, j), c[j].2@)
}

/// What update `j` produces, each output as the position of the update it names, the count, and
/// the weight: the retraction of the count before, where it is not zero, and the insertion of the
/// count after, where it is not zero.
pub open spec fn count_step<K: Ord, T, R: Monoid>(
    c: Seq<(K, T, R)>,
    h: Seq<(K, T, R)>,
    j: int,
) -> Seq<
    (int, R::V, isize),
> {
    let retract: Seq<(int, R::V, isize)> = if R::is_zero_value(count_before(c, h, j)) {
        Seq::empty()
    } else {
        seq![(j, count_before(c, h, j), -1isize)]
    };
    let insert: Seq<(int, R::V, isize)> = if R::is_zero_value(count_after(c, h, j)) {
        Seq::empty()
    } else {
        seq![(j, count_after(c, h, j), 1isize)]
    };
    retract + insert
}

/// What the first `m` updates produce, in order.
pub open spec fn count_steps<K: Ord, T, R: Monoid>(
    c: Seq<(K, T, R)>,
    h: Seq<(K, T, R)>,
    m: int,
) -> Seq<
    (int, R::V, isize),
>
    decreases m,
{
    if m <= 0 {
        Seq::empty()
    } else {
        count_steps(c, h, m - 1) + count_step(c, h, m - 1)
    }
}

/// Whether `out` holds the outputs that `steps` describes for the updates `c`: each names a clone
/// of the record and of the time of its update, its count, and its weight.
pub open spec fn count_matches<K: Clone, T: Clone, R: Monoid>(
    c: Seq<(K, T, R)>,
    steps: Seq<(int, R::V, isize)>,
    out: Seq<((K, R), T, isize)>,
) -> bool {
    &&& out.len() == steps.len()
    &&& forall|i: int|
        0 <= i < out.len() ==> {
            let step = #[trigger] steps[i];
            &&& 0 <= step.0 < c.len()
            &&& cloned::<K>(c[step.0].0, out[i].0.0)
            &&& out[i].0.1@ == step.1
            &&& cloned::<T>(c[step.0].1, out[i].1)
            &&& out[i].2 == step.2
        }
}

/// What can be accumulated over the earlier updates can be accumulated over any prefix of them.
proof fn lemma_history_req_take<K: Ord, T, R: Monoid>(h: Seq<(K, T, R)>, d: K, m: int)
    requires
        0 <= m <= h.len(),
        history_req(h, d),
    ensures
        history_req(h.take(m), d),
    decreases h.len(),
{
    if m < h.len() {
        assert(h.drop_last().take(m) =~= h.take(m));
        lemma_history_req_take(h.drop_last(), d, m);
    } else {
        assert(h.take(m) =~= h);
    }
}

/// The count that the earlier updates `h` hold depends on the record only up to equality.
proof fn lemma_history_equal_data<K: Ord, T, R: Monoid>(h: Seq<(K, T, R)>, d1: K, d2: K)
    requires
        data_ordered::<K>(),
        data_values_equal(d1, d2),
    ensures
        history(h, d1) == history(h, d2),
        history_req(h, d1) == history_req(h, d2),
    decreases h.len(),
{
    if h.len() > 0 {
        lemma_total_order(h.last().0, d1, d2);
        lemma_total_order(h.last().0, d2, d1);
        lemma_total_order(d1, d2, d2);
        lemma_history_equal_data(h.drop_last(), d1, d2);
    }
}

/// The count that earlier updates hold for a record grows by each of its updates: with no
/// earlier updates it is zero, and one more update adds its diff, on the right, where its data is
/// the record, whatever updates precede it, and leaves the count as it was otherwise.
pub proof fn lemma_history_push<K: Ord, T, R: Monoid>(h: Seq<(K, T, R)>, u: (K, T, R), d: K)
    ensures
        history(Seq::<(K, T, R)>::empty(), d) == R::zero_value(),
        history(h.push(u), d) == if data_is(u, d) {
            R::add_value(history(h, d), u.2@)
        } else {
            history(h, d)
        },
        history_req(Seq::<(K, T, R)>::empty(), d),
        history_req(h.push(u), d) <==> (history_req(h, d) && (data_is(u, d) ==> R::add_value_req(
            history(h, d),
            u.2@,
        ))),
{
    assert(h.push(u).drop_last() =~= h);
    assert(h.push(u).last() == u);
}

/// With integer diffs, the count that earlier updates hold for a record is the sum of the diffs
/// of all of the updates of that record, wherever they stand.
pub proof fn lemma_history_sum<K: Ord, T>(h: Seq<(K, T, isize)>, d: K)
    requires
        history_req(h, d),
    ensures
        history(h, d) == sum_diffs(h.filter(|u: (K, T, isize)| data_is(u, d))),
    decreases h.len(),
{
    reveal(Seq::filter);
    let f = |u: (K, T, isize)| data_is(u, d);
    if h.len() == 0 {
        assert(h.filter(f) =~= Seq::<(K, T, isize)>::empty());
    } else {
        let p = h.drop_last();
        lemma_history_sum(p, d);
        let s = p.filter(f);
        if data_is(h.last(), d) {
            assert(h.filter(f) == s.push(h.last()));
            assert(s.push(h.last()).drop_last() =~= s);
            assert(h.last().2@ == h.last().2);
        } else {
            assert(h.filter(f) == s);
        }
    }
}

/// The count of record `key` that the earlier updates `trace` hold: their diffs for that record
/// added in order, starting from zero.
pub fn history_count<K: Ord, T, R: Monoid>(trace: &Vec<(K, T, R)>, key: &K) -> (count: R)
    requires
        data_ordered::<K>(),
        history_req(trace@, *key),
    ensures
        count@ == history(trace@, *key),
{
    match try_history_count(trace, key) {
        Some(count) => count,
        None => {
            proof {
                assert(false);
            }
            R::zero()
        },
    }
}

/// The count of record `key` that the earlier updates `trace` hold; or, where some addition
/// would overflow, `None`.
pub fn try_history_count<K: Ord, T, R: Monoid>(trace: &Vec<(K, T, R)>, key: &K) -> (r: Option<R>)
    requires
        data_ordered::<K>(),
    ensures
        r matches Some(count) ==> count@ == history(trace@, *key),
        r is None ==> !history_req(trace@, *key),
{
    let mut count = R::zero();
    let mut index: usize = 0;
    while index < trace.len()
        invariant
            data_ordered::<K>(),
            index <= trace@.len(),
            count@ == history(trace@.take(index as int), *key),
        decreases trace@.len() - index,
    {
        let ghost i = index as int;
        proof {
            assert(trace@.take(i + 1).drop_last() =~= trace@.take(i));
            assert(trace@.take(i + 1).last() == trace@[i]);
        }
        if data_matches(&trace[index], key) {
            if !count.add_fits(&trace[index].2) {
                proof {
                    if history_req(trace@, *key) {
                        lemma_history_req_take(trace@, *key, i + 1);
                    }
                }
                return None;
            }
            count.add_assign(&trace[index].2);
        }
        index = index + 1;
    }
    proof {
        assert(trace@.take(trace@.len() as int) =~= trace@);
    }
    Some(count)
}

/// Reports the changes in count of each record of a batch whose updates are grouped by record and,
/// within a record, ordered by time.
///
/// For each update, the count of its record before it is retracted (where not zero), the diff is
/// added to the count, and the new count is inserted (where not zero). At each new record the
/// count starts from what the earlier updates `trace` hold for it.
pub fn count_batch<K: Ord + Clone, T: Clone, R: Monoid>(
    batch: &Vec<(K, T, R)>,
    trace: &Vec<(K, T, R)>,
) -> (out: Vec<((K, R), T, isize)>)
    requires
        data_ordered::<K>(),
        count_req(batch@, trace@),
    ensures
        count_matches(batch@, count_steps(batch@, trace@, batch@.len() as int), out@),
{
    match try_count_batch(batch, trace) {
        Some(out) => out,
        None => {
            proof {
                assert(false);
            }
            Vec::new()
        },
    }
}

/// Reports the changes in count of each record of a batch, as `count_batch` does; or, where some
/// count would overflow, `None`.
pub fn try_count_batch<K: Ord + Clone, T: Clone, R: Monoid>(
    batch: &Vec<(K, T, R)>,
    trace: &Vec<(K, T, R)>,
) -> (r: Option<Vec<((K, R), T, isize)>>)
    requires
        data_ordered::<K>(),
    ensures
        r matches Some(out) ==> count_matches(
            batch@,
            count_steps(batch@, trace@, batch@.len() as int),
            out@,
        ),
        r is None ==> !count_req(batch@, trace@),
{
    let ghost c = batch@;
    let ghost h = trace@;
    let mut out: Vec<((K, R), T, isize)> = Vec::new();
    let mut count = R::zero();
    let mut index: usize = 0;
    while index < batch.len()
        invariant
            data_ordered::<K>(),
            c == batch@,
            h == trace@,
            index <= c.len(),
            count_matches(c, count_steps(c, h, index as int), out@),
            index > 0 ==> count@ == count_after(c, h, index - 1),
        decreases c.len() - index,
    {
        let ghost i = index as int;
        if index == 0 || !same_data(&batch[index - 1], &batch[index]) {
            match try_history_count(trace, &batch[index].0) {
                Some(start) => {
                    count = start;
                },
                None => {
                    proof {
                        assert(!count_ok_at(c, h, i));
                    }
                    return None;
                },
            }
        }
        assert(count@ == count_before(c, h, i));
        if !count.add_fits(&batch[index].2) {
            proof {
                assert(!count_ok_at(c, h, i));
            }
            return None;
        }
        let ghost before = out@;
        let (key, time, diff) = (&batch[index].0, &batch[index].1, &batch[index].2);
        if !count.is_zero() {
            out.push(((key.clone(), count.duplicate()), time.clone(), -1));
        }
        count.add_assign(diff);
        if !count.is_zero() {
            out.push(((key.clone(), count.duplicate()), time.clone(), 1));
        }
        proof {
            let step = count_step(c, h, i);
            assert(count_steps(c, h, i + 1) == count_steps(c, h, i) + step);
            assert(out@.len() == before.len() + step.len());
            assert forall|m: int| 0 <= m < out@.len() implies {
                let st = #[trigger] (count_steps(c, h, i + 1))[m];
                &&& 0 <= st.0 < c.len()
                &&& cloned::<K>(c[st.0].0, out@[m].0.0)
                &&& out@[m].0.1@ == st.1
                &&& cloned::<T>(c[st.0].1, out@[m].1)
                &&& out@[m].2 == st.2
            } by {
                if m < before.len() {
                    assert(count_steps(c, h, i + 1)[m] == count_steps(c, h, i)[m]);
                    assert(out@[m] == before[m]);
                } else {
                    assert(count_steps(c, h, i + 1)[m] == step[m - before.len()]);
                }
            }
        }
        index = index + 1;
    }
    Some(out)
}

/// Every update's diff enters the count of its record: the count after an update is the count
/// before it with its diff added on the right; the count before an update is the count after
/// the update just before it, where that update has the same record, and otherwise what the
/// earlier updates `h` hold for the record.
pub proof fn lemma_count_step_adds<K: Ord, T, R: Monoid>(c: Seq<(K, T, R)>, h: Seq<(K, T, R)>, j: int)
    requires
        0 <= j < c.len(),
    ensures
        count_after(c, h, j) == R::add_value(count_before(c, h, j), c[j].2@),
        count_before(c, h, j) == if j > 0 && data_equal(c[j - 1], c[j]) {
            count_after(c, h, j - 1)
        } else {
            history(h, c[j].0)
        },
{
}

proof fn lemma_filter_same<A>(s: Seq<A>, f: spec_fn(A) -> bool, g: spec_fn(A) -> bool)
    requires
        forall|i: int| 0 <= i < s.len() ==> f(#[trigger] s[i]) == g(s[i]),
    ensures
        s.filter(f) == s.filter(g),
    decreases s.len(),
{
    reveal(Seq::filter);
    if s.len() > 0 {
        let p = s.drop_last();
        assert forall|i: int| 0 <= i < p.len() implies f(#[trigger] p[i]) == g(p[i]) by {
            assert(p[i] == s[i]);
        }
        lemma_filter_same(p, f, g);
        assert(f(s[s.len() - 1]) == g(s[s.len() - 1]));
    }
}

proof fn lemma_filter_none<A>(s: Seq<A>, f: spec_fn(A) -> bool)
    requires
        forall|i: int| 0 <= i < s.len() ==> !f(#[trigger] s[i]),
    ensures
        s.filter(f) == Seq::<A>::empty(),
    decreases s.len(),
{
    reveal(Seq::filter);
    if s.len() > 0 {
        let p = s.drop_last();
        assert forall|i: int| 0 <= i < p.len() implies !f(#[trigger] p[i]) by {
            assert(p[i] == s[i]);
        }
        lemma_filter_none(p, f);
        assert(!f(s[s.len() - 1]));
    } else {
        assert(s =~= Seq::<A>::empty());
    }
}

/// With integer diffs, where the updates of each record stand together and no count overflows,
/// the count of a record after update `j` is what the earlier updates `h` hold for it plus the
/// sum of the diffs of all of its updates through `j`: after `k` updates of diff one, it has
/// grown by `k`.
pub proof fn lemma_count_sum<K: Ord, T>(c: Seq<(K, T, isize)>, h: Seq<(K, T, isize)>, j: int)
    requires
        data_ordered::<K>(),
        grouped(c),
        count_req(c, h),
        0 <= j < c.len(),
    ensures
        count_after(c, h, j) == history(h, c[j].0) + sum_diffs(
            c.take(j + 1).filter(|u: (K, T, isize)| data_equal(u, c[j])),
        ),
    decreases j,
{
    reveal(Seq::filter);
    let fj = |u: (K, T, isize)| data_equal(u, c[j]);
    assert(count_ok_at(c, h, j));
    assert(c[j].2@ == c[j].2);
    lemma_total_order(c[j].0, c[j].0, c[j].0);
    let before = c.take(j);
    assert(c.take(j + 1).drop_last() =~= before);
    assert(c.take(j + 1).last() == c[j]);
    assert(c.take(j + 1).filter(fj) == before.filter(fj).push(c[j]));
    assert(before.filter(fj).push(c[j]).drop_last() =~= before.filter(fj));
    if j > 0 && data_equal(c[j - 1], c[j]) {
        lemma_count_sum(c, h, j - 1);
        let fp = |u: (K, T, isize)| data_equal(u, c[j - 1]);
        assert(c.take(j - 1 + 1) =~= before);
        assert forall|i: int| 0 <= i < before.len() implies fp(#[trigger] before[i]) == fj(
            before[i],
        ) by {
            lemma_total_order(before[i].0, c[j - 1].0, c[j].0);
            lemma_total_order(before[i].0, c[j].0, c[j - 1].0);
            lemma_total_order(c[j - 1].0, c[j].0, c[j].0);
        }
        lemma_filter_same(before, fp, fj);
        lemma_history_equal_data(h, c[j - 1].0, c[j].0);
    } else {
        assert forall|i: int| 0 <= i < before.len() implies !fj(#[trigger] before[i]) by {
            assert(before[i] == c[i]);
            lemma_total_order(c[i].0, c[j].0, c[j].0);
            if data_equal(c[i], c[j]) {
                if i < j - 1 {
                    assert(data_equal(c[i], c[j - 1]));
                    lemma_total_order(c[j - 1].0, c[i].0, c[j].0);
                    lemma_total_order(c[i].0, c[j - 1].0, c[j].0);
                }
            }
        }
        lemma_filter_none(before, fj);
        assert(sum_diffs(Seq::<(K, T, isize)>::empty()) == 0);
    }
}

/// The net weight that the outputs `steps` give to the pair of record `d` and count `v`.
pub open spec fn net_weight<K: Ord, T, R: Monoid>(
    c: Seq<(K, T, R)>,
    steps: Seq<(int, R::V, isize)>,
    d: K,
    v: R::V,
) -> int
    decreases steps.len(),
{
    if steps.len() == 0 {
        0
    } else {
        let s = steps.last();
        net_weight(c, steps.drop_last(), d, v) + if data_is(c[s.0], d) && s.1 == v {
            s.2 as int
        } else {
            0
        }
    }
}

/// Whether the updates of each record stand together.
pub open spec fn grouped<K: Ord, T, R>(c: Seq<(K, T, R)>) -> bool {
    forall|a: int, m: int, b: int|
        0 <= a < m < b < c.len() && data_equal(#[trigger] c[a], #[trigger] c[b]) ==> data_equal(
            c[a],
            #[trigger] c[m],
        )
}

proof fn lemma_net_weight_add<K: Ord, T, R: Monoid>(
    c: Seq<(K, T, R)>,
    s1: Seq<(int, R::V, isize)>,
    s2: Seq<(int, R::V, isize)>,
    d: K,
    v: R::V,
)
    ensures
        net_weight(c, s1 + s2, d, v) == net_weight(c, s1, d, v) + net_weight(c, s2, d, v),
    decreases s2.len(),
{
    if s2.len() > 0 {
        assert((s1 + s2).drop_last() =~= s1 + s2.drop_last());
        lemma_net_weight_add(c, s1, s2.drop_last(), d, v);
    } else {
        assert(s1 + s2 =~= s1);
    }
}

/// The outputs of the first `m` updates name only those updates.
proof fn lemma_count_steps_positions<K: Ord, T, R: Monoid>(
    c: Seq<(K, T, R)>,
    h: Seq<(K, T, R)>,
    m: int,
)
    requires
        0 <= m <= c.len(),
    ensures
        forall|i: int|
            0 <= i < count_steps(c, h, m).len() ==> 0 <= (#[trigger] count_steps(c, h, m)[i]).0 < m,
    decreases m,
{
    if m > 0 {
        lemma_count_steps_positions(c, h, m - 1);
        let prev = count_steps(c, h, m - 1);
        let step = count_step(c, h, m - 1);
        assert forall|i: int| 0 <= i < count_steps(c, h, m).len() implies 0 <= (
        #[trigger] count_steps(c, h, m)[i]).0 < m by {
            if i < prev.len() {
                assert(count_steps(c, h, m)[i] == prev[i]);
            } else {
                assert(count_steps(c, h, m)[i] == step[i - prev.len()]);
            }
        }
    }
}

/// Outputs that name no update of record `d` give it no weight.
proof fn lemma_net_weight_none<K: Ord, T, R: Monoid>(
    c: Seq<(K, T, R)>,
    steps: Seq<(int, R::V, isize)>,
    d: K,
    v: R::V,
)
    requires
        forall|i: int| 0 <= i < steps.len() ==> !data_is(c[(#[trigger] steps[i]).0], d),
    ensures
        net_weight(c, steps, d, v) == 0,
    decreases steps.len(),
{
    if steps.len() > 0 {
        assert(!data_is(c[steps[steps.len() - 1].0], d));
        assert forall|i: int| 0 <= i < steps.drop_last().len() implies !data_is(
            c[(#[trigger] steps.drop_last()[i]).0],
            d,
        ) by {
            assert(steps.drop_last()[i] == steps[i]);
        }
        lemma_net_weight_none(c, steps.drop_last(), d, v);
    }
}

/// Once the updates through `j` are reported, the reported changes for the record of update `j`
/// turn the count that the earlier updates `h` hold for it into its count after `j`: they
/// accumulate to one occurrence of the pair of the record and its new count, where that count is
/// not zero, less one occurrence of the pair of the record and its earlier count, where that
/// count is not zero. With no earlier updates, they accumulate to the new count alone.
pub proof fn lemma_count_net<K: Ord, T, R: Monoid>(
    c: Seq<(K, T, R)>,
    h: Seq<(K, T, R)>,
    j: int,
    d: K,
    v: R::V,
)
    requires
        data_ordered::<K>(),
        grouped(c),
        0 <= j < c.len(),
        data_is(c[j], d),
    ensures
        net_weight(c, count_steps(c, h, j + 1), d, v) == (if !R::is_zero_value(count_after(c, h, j))
            && v == count_after(c, h, j) {
            1int
        } else {
            0int
        }) - (if !R::is_zero_value(history(h, d)) && v == history(h, d) {
            1int
        } else {
            0int
        }),
    decreases j,
{
    lemma_net_weight_add(c, count_steps(c, h, j), count_step(c, h, j), d, v);
    let step = count_step(c, h, j);
    assert(net_weight(c, step, d, v) == (if !R::is_zero_value(count_before(c, h, j)) && v
        == count_before(c, h, j) {
        -1int
    } else {
        0int
    }) + (if !R::is_zero_value(count_after(c, h, j)) && v == count_after(c, h, j) {
        1int
    } else {
        0int
    })) by {
        let retract: Seq<(int, R::V, isize)> = if R::is_zero_value(count_before(c, h, j)) {
            Seq::empty()
        } else {
            seq![(j, count_before(c, h, j), -1isize)]
        };
        let insert: Seq<(int, R::V, isize)> = if R::is_zero_value(count_after(c, h, j)) {
            Seq::empty()
        } else {
            seq![(j, count_after(c, h, j), 1isize)]
        };
        assert(step == retract + insert);
        lemma_net_weight_add(c, retract, insert, d, v);
        let empty = Seq::<(int, R::V, isize)>::empty();
        assert(net_weight(c, empty, d, v) == 0);
        if retract.len() > 0 {
            assert(retract.drop_last() =~= empty);
        }
        if insert.len() > 0 {
            assert(insert.drop_last() =~= empty);
        }
    }
    assert(count_steps(c, h, j + 1) == count_steps(c, h, j) + count_step(c, h, j));
    R::lemma_zero_is_zero();
    if j > 0 && data_equal(c[j - 1], c[j]) {
        lemma_total_order(c[j - 1].0, c[j].0, d);
        lemma_count_net(c, h, j - 1, d, v);
        assert(count_before(c, h, j) == count_after(c, h, j - 1));
    } else {
        lemma_count_steps_positions(c, h, j);
        assert forall|i: int| 0 <= i < count_steps(c, h, j).len() implies !data_is(
            c[(#[trigger] count_steps(c, h, j)[i]).0],
            d,
        ) by {
            let p = count_steps(c, h, j)[i].0;
            lemma_total_order(c[p].0, d, c[j].0);
            lemma_total_order(d, c[j].0, c[j].0);
            lemma_total_order(c[j].0, d, d);
            if data_is(c[p], d) {
                assert(data_equal(c[p], c[j]));
                if p < j - 1 {
                    assert(data_equal(c[p], c[j - 1]));
                    lemma_total_order(c[j - 1].0, c[p].0, c[j].0);
                    lemma_total_order(c[p].0, c[j - 1].0, c[j].0);
                }
            }
        }
        lemma_net_weight_none(c, count_steps(c, h, j), d, v);
        lemma_history_equal_data(h, c[j].0, d);
    }
}

/// The position of the last update of record `d` among the first `j + 1` updates, or `-1`.
pub open spec fn last_of<K: Ord, T, R>(c: Seq<(K, T, R)>, j: int, d: K) -> int
    decreases j + 1,
{
    if j < 0 {
        -1
    } else if data_is(c[j], d) {
        j
    } else {
        last_of(c, j - 1, d)
    }
}

/// Once the updates through `j` are reported, the reported changes for any record `d` turn the
/// count that the earlier updates `h` hold for it into its count after its last update so far:
/// one occurrence of the pair of `d` and its current count, where not zero, less one of the pair
/// of `d` and its earlier count, where not zero; and nothing where `d` has no update so far. In
/// particular, with no earlier updates, at most one count of each record has weight one and all
/// others weight zero: the reported changes accumulate to a map from records to their counts.
pub proof fn lemma_count_net_all<K: Ord, T, R: Monoid>(
    c: Seq<(K, T, R)>,
    h: Seq<(K, T, R)>,
    j: int,
    d: K,
    v: R::V,
)
    requires
        data_ordered::<K>(),
        grouped(c),
        -1 <= j < c.len(),
    ensures
        ({
            let p = last_of(c, j, d);
            net_weight(c, count_steps(c, h, j + 1), d, v) == if p >= 0 {
                (if !R::is_zero_value(count_after(c, h, p)) && v == count_after(c, h, p) {
                    1int
                } else {
                    0int
                }) - (if !R::is_zero_value(history(h, d)) && v == history(h, d) {
                    1int
                } else {
                    0int
                })
            } else {
                0int
            }
        }),
    decreases j + 1,
{
    if j < 0 {
        assert(net_weight(c, count_steps(c, h, 0), d, v) == 0);
    } else if data_is(c[j], d) {
        lemma_count_net(c, h, j, d, v);
    } else {
        lemma_count_net_all(c, h, j - 1, d, v);
        assert(count_steps(c, h, j + 1) == count_steps(c, h, j) + count_step(c, h, j));
        lemma_net_weight_add(c, count_steps(c, h, j), count_step(c, h, j), d, v);
        let step = count_step(c, h, j);
        assert forall|i: int| 0 <= i < step.len() implies !data_is(c[(#[trigger] step[i]).0], d) by {
            assert(step[i].0 == j);
        }
        lemma_net_weight_none(c, step, d, v);
    }
}

/// The net weight that the outputs `steps` give to the pair of record `d` and count `v`, counting
/// only the outputs of updates at times at most `t`.
pub open spec fn net_weight_until<K: Ord, T: Ord, R: Monoid>(
    c: Seq<(K, T, R)>,
    steps: Seq<(int, R::V, isize)>,
    d: K,
    v: R::V,
    t: T,
) -> int
    decreases steps.len(),
{
    if steps.len() == 0 {
        0
    } else {
        let s = steps.last();
        net_weight_until(c, steps.drop_last(), d, v, t) + if data_is(c[s.0], d) && time_at_most(
            c[s.0],
            t,
        ) && s.1 == v {
            s.2 as int
        } else {
            0
        }
    }
}

/// The position of the last update of record `d` at a time at most `t` among the first `j + 1`
/// updates, or `-1`.
pub open spec fn last_until<K: Ord, T: Ord, R>(c: Seq<(K, T, R)>, j: int, d: K, t: T) -> int
    decreases j + 1,
{
    if j < 0 {
        -1
    } else if data_is(c[j], d) && time_at_most(c[j], t) {
        j
    } else {
        last_until(c, j - 1, d, t)
    }
}

proof fn lemma_net_weight_until_add<K: Ord, T: Ord, R: Monoid>(
    c: Seq<(K, T, R)>,
    s1: Seq<(int, R::V, isize)>,
    s2: Seq<(int, R::V, isize)>,
    d: K,
    v: R::V,
    t: T,
)
    ensures
        net_weight_until(c, s1 + s2, d, v, t) == net_weight_until(c, s1, d, v, t) + net_weight_until(
            c,
            s2,
            d,
            v,
            t,
        ),
    decreases s2.len(),
{
    if s2.len() > 0 {
        assert((s1 + s2).drop_last() =~= s1 + s2.drop_last());
        lemma_net_weight_until_add(c, s1, s2.drop_last(), d, v, t);
    } else {
        assert(s1 + s2 =~= s1);
    }
}

/// Outputs that name no update of record `d` at a time at most `t` give it no weight up to `t`.
proof fn lemma_net_weight_until_none<K: Ord, T: Ord, R: Monoid>(
    c: Seq<(K, T, R)>,
    steps: Seq<(int, R::V, isize)>,
    d: K,
    v: R::V,
    t: T,
)
    requires
        forall|i: int|
            0 <= i < steps.len() ==> !(data_is(c[(#[trigger] steps[i]).0], d) && time_at_most(
                c[steps[i].0],
                t,
            )),
    ensures
        net_weight_until(c, steps, d, v, t) == 0,
    decreases steps.len(),
{
    if steps.len() > 0 {
        assert(steps[steps.len() - 1] == steps.last());
        assert forall|i: int| 0 <= i < steps.drop_last().len() implies !(data_is(
            c[(#[trigger] steps.drop_last()[i]).0],
            d,
        ) && time_at_most(c[steps.drop_last()[i].0], t)) by {
            assert(steps.drop_last()[i] == steps[i]);
        }
        lemma_net_weight_until_none(c, steps.drop_last(), d, v, t);
    }
}

proof fn lemma_last_until_none<K: Ord, T: Ord, R>(c: Seq<(K, T, R)>, j: int, d: K, t: T)
    requires
        j < c.len(),
        forall|i: int| 0 <= i <= j ==> !data_is(#[trigger] c[i], d),
    ensures
        last_until(c, j, d, t) == -1,
    decreases j + 1,
{
    if j >= 0 {
        assert(!data_is(c[j], d));
        lemma_last_until_none(c, j - 1, d, t);
    }
}

/// Once the updates through `j` are reported, the reported changes at times at most `t` turn the
/// count that the earlier updates `h` hold for any record `d` into its count at time `t`, its
/// count after its last update at a time at most `t`: one occurrence of the pair of `d` and that
/// count, where not zero, less one of the pair of `d` and its earlier count, where not zero; and
/// nothing where `d` has no update at a time at most `t`. With no earlier updates, the changes up
/// to any time accumulate to a map from records to their counts at that time: each pair has
/// weight zero or one, and a record has weight one with its count at that time alone.
pub proof fn lemma_count_until<K: Ord, T: Ord, R: Monoid>(
    c: Seq<(K, T, R)>,
    h: Seq<(K, T, R)>,
    j: int,
    d: K,
    v: R::V,
    t: T,
)
    requires
        ordered::<K, T>(),
        grouped(c),
        times_ascend(c),
        -1 <= j < c.len(),
    ensures
        ({
            let p = last_until(c, j, d, t);
            net_weight_until(c, count_steps(c, h, j + 1), d, v, t) == if p >= 0 {
                (if !R::is_zero_value(count_after(c, h, p)) && v == count_after(c, h, p) {
                    1int
                } else {
                    0int
                }) - (if !R::is_zero_value(history(h, d)) && v == history(h, d) {
                    1int
                } else {
                    0int
                })
            } else {
                0int
            }
        }),
        h.len() == 0 ==> ({
            let p = last_until(c, j, d, t);
            net_weight_until(c, count_steps(c, h, j + 1), d, v, t) == if p >= 0 && !R::is_zero_value(
                count_after(c, h, p),
            ) && v == count_after(c, h, p) {
                1int
            } else {
                0int
            }
        }),
    decreases j + 1,
{
    R::lemma_zero_is_zero();
    if j < 0 {
        assert(net_weight_until(c, count_steps(c, h, 0), d, v, t) == 0);
    } else {
        lemma_count_until(c, h, j - 1, d, v, t);
        assert(count_steps(c, h, j + 1) == count_steps(c, h, j) + count_step(c, h, j));
        lemma_net_weight_until_add(c, count_steps(c, h, j), count_step(c, h, j), d, v, t);
        let step = count_step(c, h, j);
        if data_is(c[j], d) && time_at_most(c[j], t) {
            assert(net_weight_until(c, step, d, v, t) == (if !R::is_zero_value(
                count_before(c, h, j),
            ) && v == count_before(c, h, j) {
                -1int
            } else {
                0int
            }) + (if !R::is_zero_value(count_after(c, h, j)) && v == count_after(c, h, j) {
                1int
            } else {
                0int
            })) by {
                let retract: Seq<(int, R::V, isize)> = if R::is_zero_value(count_before(c, h, j)) {
                    Seq::empty()
                } else {
                    seq![(j, count_before(c, h, j), -1isize)]
                };
                let insert: Seq<(int, R::V, isize)> = if R::is_zero_value(count_after(c, h, j)) {
                    Seq::empty()
                } else {
                    seq![(j, count_after(c, h, j), 1isize)]
                };
                assert(step == retract + insert);
                lemma_net_weight_until_add(c, retract, insert, d, v, t);
                let empty = Seq::<(int, R::V, isize)>::empty();
                assert(net_weight_until(c, empty, d, v, t) == 0);
                if retract.len() > 0 {
                    assert(retract.drop_last() =~= empty);
                }
                if insert.len() > 0 {
                    assert(insert.drop_last() =~= empty);
                }
            }
            if j > 0 && data_equal(c[j - 1], c[j]) {
                lemma_total_order(c[j - 1].0, c[j].0, d);
                lemma_earlier_time_at_most(c, j, t);
                assert(last_until(c, j - 1, d, t) == j - 1);
                assert(count_before(c, h, j) == count_after(c, h, j - 1));
            } else {
                assert forall|i: int| 0 <= i <= j - 1 implies !data_is(#[trigger] c[i], d) by {
                    lemma_total_order(c[i].0, d, c[j].0);
                    lemma_total_order(d, c[j].0, c[j].0);
                    lemma_total_order(c[j].0, d, d);
                    if data_is(c[i], d) {
                        assert(data_equal(c[i], c[j]));
                        if i < j - 1 {
                            assert(data_equal(c[i], c[j - 1]));
                            lemma_total_order(c[j - 1].0, c[i].0, c[j].0);
                            lemma_total_order(c[i].0, c[j - 1].0, c[j].0);
                        }
                    }
                }
                lemma_last_until_none(c, j - 1, d, t);
                lemma_history_equal_data(h, c[j].0, d);
            }
        } else {
            assert forall|i: int| 0 <= i < step.len() implies !(data_is(
                c[(#[trigger] step[i]).0],
                d,
            ) && time_at_most(c[step[i].0], t)) by {
                assert(step[i].0 == j);
            }
            lemma_net_weight_until_none(c, step, d, v, t);
        }
    }
}

/// A consolidated collection has the updates of each record together, and their times
/// ascending, so that `lemma_count_net` and `lemma_count_until` apply to it.
pub proof fn lemma_consolidated_grouped<K: Ord, T: Ord, R: Monoid>(
    input: Seq<(K, T, R)>,
    c: Seq<(K, T, R)>,
)
    requires
        ordered::<K, T>(),
        consolidated(input, c),
    ensures
        grouped(c),
        times_ascend(c),
{
    assert forall|a: int, b: int|
        0 <= a < b < c.len() && data_equal(#[trigger] c[a], #[trigger] c[b]) implies time_less(
        c[a],
        c[b],
    ) by {
        assert(key_less(key_of(c[a]), key_of(c[b])));
        lemma_total_order(c[a].0, c[b].0, c[b].0);
    }
    assert forall|a: int, m: int, b: int|
        0 <= a < m < b < c.len() && data_equal(#[trigger] c[a], #[trigger] c[b]) implies data_equal(
        c[a],
        #[trigger] c[m],
    ) by {
        assert(key_less(key_of(c[a]), key_of(c[m])));
        assert(key_less(key_of(c[m]), key_of(c[b])));
        lemma_total_order(c[a].0, c[m].0, c[b].0);
        lemma_total_order(c[m].0, c[b].0, c[b].0);
        lemma_total_order(c[a].0, c[b].0, c[b].0);
    }
}

/// The counts depend only on the data of the updates and the views of their diffs.
proof fn lemma_count_before_same<K: Ord, T, R: Monoid>(
    c1: Seq<(K, T, R)>,
    c2: Seq<(K, T, R)>,
    h: Seq<(K, T, R)>,
    j: int,
)
    requires
        c1.len() == c2.len(),
        forall|i: int| 0 <= i < c1.len() ==> (#[trigger] c1[i]).0 == c2[i].0 && c1[i].2@ == c2[i].2@,
        0 <= j < c1.len(),
    ensures
        count_before(c1, h, j) == count_before(c2, h, j),
    decreases j,
{
    assert(c1[j].0 == c2[j].0);
    if j > 0 {
        assert(c1[j - 1].0 == c2[j - 1].0);
        lemma_count_before_same(c1, c2, h, j - 1);
    }
}

/// All consolidations of a collection agree on what counting requires: the requirement of
/// `count_total` is about one value.
pub proof fn lemma_count_req_unique<K: Ord, T: Ord, R: Monoid>(
    input: Seq<(K, T, R)>,
    c1: Seq<(K, T, R)>,
    c2: Seq<(K, T, R)>,
    h: Seq<(K, T, R)>,
)
    requires
        ordered::<K, T>(),
        consolidated(input, c1),
        consolidated(input, c2),
    ensures
        count_req(c1, h) == count_req(c2, h),
{
    lemma_consolidation_unique(input, c1, c2);
    assert forall|i: int| 0 <= i < c1.len() implies (#[trigger] c1[i]).0 == c2[i].0 && c1[i].2@
        == c2[i].2@ by {
        assert(key_of(c2[i]) == key_of(c1[i]));
    }
    if count_req(c1, h) {
        lemma_count_req_same(c1, c2, h);
    }
    if count_req(c2, h) {
        lemma_count_req_same(c2, c1, h);
    }
}

proof fn lemma_count_req_same<K: Ord, T, R: Monoid>(
    c1: Seq<(K, T, R)>,
    c2: Seq<(K, T, R)>,
    h: Seq<(K, T, R)>,
)
    requires
        c1.len() == c2.len(),
        forall|i: int| 0 <= i < c1.len() ==> (#[trigger] c1[i]).0 == c2[i].0 && c1[i].2@ == c2[i].2@,
        count_req(c1, h),
    ensures
        count_req(c2, h),
{
    assert forall|j: int| 0 <= j < c2.len() implies #[trigger] count_ok_at(c2, h, j) by {
        lemma_count_before_same(c1, c2, h, j);
        assert(count_before(c1, h, j) == count_before(c2, h, j));
        assert(c1[j].0 == c2[j].0);
        assert(c1[j].2@ == c2[j].2@);
        assert(count_ok_at(c1, h, j));
    }
}

/// With no earlier updates, the changes that counting a consolidated collection reports up to
/// any time `t` accumulate to a map from records to their counts at `t`: the pair of record `d`
/// and count `v` has weight one where `v` is the count of `d` at `t`, that count is not zero, and
/// `d` has an update at a time at most `t`; every other pair has weight zero.
pub proof fn lemma_count_total_map<K: Ord, T: Ord, R: Monoid>(
    input: Seq<(K, T, R)>,
    c: Seq<(K, T, R)>,
    d: K,
    v: R::V,
    t: T,
)
    requires
        ordered::<K, T>(),
        consolidated(input, c),
    ensures
        ({
            let e = Seq::<(K, T, R)>::empty();
            let p = last_until(c, c.len() - 1, d, t);
            net_weight_until(c, count_steps(c, e, c.len() as int), d, v, t) == if p >= 0
                && !R::is_zero_value(count_after(c, e, p)) && v == count_after(c, e, p) {
                1int
            } else {
                0int
            }
        }),
{
    lemma_consolidated_grouped(input, c);
    lemma_count_until(c, Seq::empty(), c.len() - 1, d, v, t);
}

/// Collections with the same keys at every position have their last update of a record at a
/// time at most `t` at the same position.
proof fn lemma_last_until_same<K: Ord, T: Ord, R>(
    c1: Seq<(K, T, R)>,
    c2: Seq<(K, T, R)>,
    j: int,
    d: K,
    t: T,
)
    requires
        j < c1.len(),
        c1.len() == c2.len(),
        forall|i: int| 0 <= i < c2.len() ==> key_of(#[trigger] c2[i]) == key_of(c1[i]),
    ensures
        last_until(c1, j, d, t) == last_until(c2, j, d, t),
    decreases j + 1,
{
    if j >= 0 {
        assert(key_of(c2[j]) == key_of(c1[j]));
        lemma_last_until_same(c1, c2, j - 1, d, t);
    }
}

/// Where the second collection has the keys of the first and twice its integer diffs, and its
/// counts do not overflow, its counts are twice those of the first.
proof fn lemma_counts_double<K: Ord, T>(c1: Seq<(K, T, isize)>, c2: Seq<(K, T, isize)>, j: int)
    requires
        c1.len() == c2.len(),
        forall|i: int| 0 <= i < c2.len() ==> key_of(#[trigger] c2[i]) == key_of(c1[i]) && c2[i].2 == 2 * c1[i].2,
        count_req(c2, Seq::empty()),
        0 <= j < c1.len(),
    ensures
        count_before(c2, Seq::empty(), j) == 2 * count_before(c1, Seq::empty(), j),
        count_after(c2, Seq::empty(), j) == 2 * count_after(c1, Seq::empty(), j),
    decreases j,
{
    let e = Seq::<(K, T, isize)>::empty();
    assert(key_of(c2[j]) == key_of(c1[j]));
    assert(count_ok_at(c2, e, j));
    if j > 0 {
        assert(key_of(c2[j - 1]) == key_of(c1[j - 1]));
        if data_equal(c1[j - 1], c1[j]) {
            lemma_counts_double(c1, c2, j - 1);
        }
    }
    assert(c1[j].2@ == c1[j].2);
    assert(c2[j].2@ == c2[j].2);
}

/// Counting a collection concatenated with itself gives, at every time, the same records as
/// counting the collection alone, each with twice its count: the changes up to time `t` give
/// weight one to the pair of record `d` and twice its count at `t` in the collection alone, where
/// that count is not zero, and weight zero to every other pair.
pub proof fn lemma_count_concat_doubles<K: Ord, T: Ord>(
    x: Seq<(K, T, isize)>,
    c1: Seq<(K, T, isize)>,
    c2: Seq<(K, T, isize)>,
    d: K,
    t: T,
)
    requires
        ordered::<K, T>(),
        accumulable(x + x),
        consolidated(x, c1),
        consolidated(x + x, c2),
        count_req(c2, Seq::empty()),
    ensures
        ({
            let e = Seq::<(K, T, isize)>::empty();
            let p = last_until(c1, c1.len() - 1, d, t);
            &&& last_until(c2, c2.len() - 1, d, t) == p
            &&& forall|v: isize|
                #[trigger] net_weight_until(c1, count_steps(c1, e, c1.len() as int), d, v, t) == if p
                    >= 0 && count_after(c1, e, p) != 0 && v == count_after(c1, e, p) {
                    1int
                } else {
                    0int
                }
            &&& forall|v: isize|
                #[trigger] net_weight_until(c2, count_steps(c2, e, c2.len() as int), d, v, t) == if p
                    >= 0 && count_after(c1, e, p) != 0 && v == 2 * count_after(c1, e, p) {
                    1int
                } else {
                    0int
                }
        }),
{
    let e = Seq::<(K, T, isize)>::empty();
    lemma_concat_doubles(x, c1, c2);
    lemma_last_until_same(c1, c2, c1.len() - 1, d, t);
    let p = last_until(c1, c1.len() - 1, d, t);
    if p >= 0 {
        lemma_last_until_bounds(c1, c1.len() - 1, d, t);
        lemma_counts_double(c1, c2, p);
    }
    assert forall|v: isize|
        #[trigger] net_weight_until(c1, count_steps(c1, e, c1.len() as int), d, v, t) == if p >= 0
            && count_after(c1, e, p) != 0 && v == count_after(c1, e, p) {
            1int
        } else {
            0int
        } by {
        lemma_count_total_map(x, c1, d, v, t);
    }
    assert forall|v: isize|
        #[trigger] net_weight_until(c2, count_steps(c2, e, c2.len() as int), d, v, t) == if p >= 0
            && count_after(c1, e, p) != 0 && v == 2 * count_after(c1, e, p) {
            1int
        } else {
            0int
        } by {
        lemma_count_total_map(x + x, c2, d, v, t);
    }
}

proof fn lemma_last_until_bounds<K: Ord, T: Ord, R>(c: Seq<(K, T, R)>, j: int, d: K, t: T)
    requires
        -1 <= j < c.len(),
    ensures
        -1 <= last_until(c, j, d, t) <= j,
    decreases j + 1,
{
    if j >= 0 {
        lemma_last_until_bounds(c, j - 1, d, t);
    }
}

/// Extension trait for the `count_total` method.
pub trait CountTotal<T, K, R>: Sized {
    /// Whether the collection can be counted.
    spec fn count_total_req(&self) -> bool;

    /// Whether `result` is the count of the collection.
    spec fn count_total_spec(&self, result: Seq<((K, R), T, isize)>) -> bool;

    /// Counts the number of occurrences of each element.
    fn count_total(self) -> (r: Vec<((K, R), T, isize)>)
        requires
            self.count_total_req(),
        ensures
            self.count_total_spec(r@),
    ;
}

/// A collection held as its updates, all in one batch, is first consolidated, which groups its
/// updates by record and orders them by time; `count_batch` then reports the changes of each
/// count. No batch comes before it, so each count starts from zero.
impl<K: Ord + Clone, T: Ord + Clone, R: Monoid> CountTotal<T, K, R> for Vec<(K, T, R)> {
    open spec fn count_total_req(&self) -> bool {
        &&& ordered::<K, T>()
        &&& accumulable(self@)
        &&& forall|c: Seq<(K, T, R)>| #[trigger] consolidated(self@, c) ==> count_req(c, Seq::empty())
    }

    open spec fn count_total_spec(&self, result: Seq<((K, R), T, isize)>) -> bool {
        exists|c: Seq<(K, T, R)>|
            #[trigger] consolidated(self@, c) && count_matches(
                c,
                count_steps(c, Seq::empty(), c.len() as int),
                result,
            )
    }

    fn count_total(self) -> (r: Vec<((K, R), T, isize)>) {
        let ghost input = self@;
        let batch = consolidate_updates(self);
        assert(consolidated(input, batch@));
        let trace: Vec<(K, T, R)> = Vec::new();
        assert(trace@ =~= Seq::<(K, T, R)>::empty());
        let r = count_batch(&batch, &trace);
        assert(consolidated(input, batch@) && count_matches(
            batch@,
            count_steps(batch@, Seq::empty(), batch@.len() as int),
            r@,
        ));
        r
    }
}

} // verus!
