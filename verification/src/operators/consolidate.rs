//! Aggregates the weights of equal records into at most one record.
//!
//! As differential dataflow streams are unordered and taken to be the accumulation of all
//! records, no semantic change happens via `consolidate`. However, there is a practical
//! difference between a collection that aggregates down to zero records, and one that actually
//! has no records.
//!
//! A collection is held here as the list of its updates `(data, time, diff)`.

use vstd::prelude::*;

use crate::difference::Monoid;
use crate::updates::{
    key_equal, key_less, key_of, lemma_key_order, lemma_with_key_equal_keys,
    lemma_with_key_member, lemma_with_key_none, lemma_with_key_nonempty, lemma_with_key_single, lemma_with_key_step, lemma_with_key_take, ordered,
    same_key, sort_by_key, sorted_by_key, with_key,
};

verus! {

/// The accumulation of the diffs of `s`, as consolidation computes it: each diff is added on the
/// left of the accumulation of the diffs before it.
pub open spec fn accumulate<D, T, R: Monoid>(s: Seq<(D, T, R)>) -> R::V
    decreases s.len(),
{
    if s.len() == 0 {
        R::zero_value()
    } else if s.len() == 1 {
        s[0].2@
    } else {
        R::add_value(s.last().2@, accumulate::<D, T, R>(s.drop_last()))
    }
}

/// Whether every addition that `accumulate(s)` performs is free of overflow.
pub open spec fn accumulate_req<D, T, R: Monoid>(s: Seq<(D, T, R)>) -> bool
    decreases s.len(),
{
    s.len() <= 1 || (accumulate_req::<D, T, R>(s.drop_last()) && R::add_value_req(
        s.last().2@,
        accumulate::<D, T, R>(s.drop_last()),
    ))
}

/// Whether, for every key, the diffs of the updates with that key can be accumulated.
pub open spec fn accumulable<D: Ord, T: Ord, R: Monoid>(s: Seq<(D, T, R)>) -> bool {
    forall|k: (D, T)| accumulate_req::<D, T, R>(#[trigger] with_key(s, k))
}

/// Whether `output` is the consolidation of `input`: its keys strictly increase; each of its
/// updates carries the accumulated diff of the updates of `input` with that key, which is not
/// zero, and the key of the last of them; and every key of `input` whose diffs do not
/// accumulate to zero is there.
pub open spec fn consolidated<D: Ord, T: Ord, R: Monoid>(
    input: Seq<(D, T, R)>,
    output: Seq<(D, T, R)>,
) -> bool {
    &&& forall|i: int, j: int|
        0 <= i < j < output.len() ==> key_less(key_of(#[trigger] output[i]), key_of(#[trigger] output[j]))
    &&& forall|i: int|
        0 <= i < output.len() ==> {
            let class = #[trigger] with_key(input, key_of(output[i]));
            &&& class.len() > 0
            &&& key_of(output[i]) == key_of(class.last())
            &&& output[i].2@ == accumulate::<D, T, R>(class)
            &&& !R::is_zero_value(output[i].2@)
        }
    &&& forall|j: int|
        0 <= j < input.len() && !R::is_zero_value(
            accumulate::<D, T, R>(#[trigger] with_key(input, key_of(input[j]))),
        ) ==> exists|i: int|
            0 <= i < output.len() && key_equal(key_of(output[i]), key_of(input[j]))
}

/// The diff that position `j` of the sorted updates `s` holds once equal keys have been merged:
/// zero where the next update has an equal key, and otherwise the accumulation of the run of
/// equal keys that ends at `j`.
pub open spec fn merged_value<D: Ord, T: Ord, R: Monoid>(s: Seq<(D, T, R)>, j: int) -> R::V {
    if j + 1 < s.len() && key_equal(key_of(s[j]), key_of(s[j + 1])) {
        R::zero_value()
    } else {
        accumulate::<D, T, R>(with_key(s.take(j + 1), key_of(s[j])))
    }
}

/// Accumulating a sequence with one more diff adds that diff on the left.
pub proof fn lemma_accumulate_push<D, T, R: Monoid>(s: Seq<(D, T, R)>, x: (D, T, R))
    ensures
        s.len() > 0 ==> accumulate::<D, T, R>(s.push(x)) == R::add_value(
            x.2@,
            accumulate::<D, T, R>(s),
        ),
        s.len() > 0 ==> (accumulate_req::<D, T, R>(s.push(x)) <==> accumulate_req::<D, T, R>(s)
            && R::add_value_req(x.2@, accumulate::<D, T, R>(s))),
        s.len() == 0 ==> accumulate::<D, T, R>(s.push(x)) == x.2@,
{
    assert(s.push(x).drop_last() =~= s);
}

/// What can be accumulated can be accumulated over any prefix of the updates.
proof fn lemma_accumulate_req_take<D: Ord, T: Ord, R: Monoid>(
    s: Seq<(D, T, R)>,
    k: (D, T),
    m: int,
)
    requires
        0 <= m <= s.len(),
        accumulate_req::<D, T, R>(with_key(s, k)),
    ensures
        accumulate_req::<D, T, R>(with_key(s.take(m), k)),
    decreases s.len(),
{
    if m < s.len() {
        let rest = with_key(s.drop_last(), k);
        if key_equal(key_of(s.last()), k) {
            lemma_accumulate_push(rest, s.last());
        }
        assert(s.drop_last().take(m) =~= s.take(m));
        lemma_accumulate_req_take(s.drop_last(), k, m);
    } else {
        assert(s.take(m) =~= s);
    }
}

/// In sorted updates, the run of keys equal to that at `p` ends at some `j`: the keys at `p`
/// through `j` are equal, and the key after `j`, if any, differs.
proof fn lemma_run_end<D: Ord, T: Ord, R>(s: Seq<(D, T, R)>, p: int) -> (j: int)
    requires
        ordered::<D, T>(),
        0 <= p < s.len(),
    ensures
        p <= j < s.len(),
        j + 1 < s.len() ==> !key_equal(key_of(s[j]), key_of(s[j + 1])),
        key_equal(key_of(s[j]), key_of(s[p])),
    decreases s.len() - p,
{
    lemma_key_order(key_of(s[p]), key_of(s[p]), key_of(s[p]));
    if p + 1 < s.len() && key_equal(key_of(s[p]), key_of(s[p + 1])) {
        let j = lemma_run_end(s, p + 1);
        lemma_key_order(key_of(s[j]), key_of(s[p + 1]), key_of(s[p]));
        lemma_key_order(key_of(s[p]), key_of(s[p + 1]), key_of(s[j]));
        j
    } else {
        p
    }
}

/// In sorted updates, where the key at `j` differs from the next, every later key is greater.
proof fn lemma_run_end_greater<D: Ord, T: Ord, R>(s: Seq<(D, T, R)>, j: int, q: int)
    requires
        ordered::<D, T>(),
        sorted_by_key(s),
        0 <= j < q < s.len(),
        !key_equal(key_of(s[j]), key_of(s[j + 1])),
    ensures
        key_less(key_of(s[j]), key_of(s[q])),
        !key_equal(key_of(s[q]), key_of(s[j])),
{
    lemma_key_order(key_of(s[j]), key_of(s[j + 1]), key_of(s[q]));
    lemma_key_order(key_of(s[j + 1]), key_of(s[q]), key_of(s[q]));
    lemma_key_order(key_of(s[q]), key_of(s[j]), key_of(s[j]));
    lemma_key_order(key_of(s[j]), key_of(s[q]), key_of(s[q]));
}

/// At the end of a run of equal keys in sorted updates, the updates before it with that key are
/// all the updates with that key.
proof fn lemma_run_end_class<D: Ord, T: Ord, R>(s: Seq<(D, T, R)>, j: int)
    requires
        ordered::<D, T>(),
        sorted_by_key(s),
        0 <= j < s.len(),
        j + 1 < s.len() ==> !key_equal(key_of(s[j]), key_of(s[j + 1])),
    ensures
        with_key(s.take(j + 1), key_of(s[j])) == with_key(s, key_of(s[j])),
{
    assert forall|q: int| j + 1 <= q < s.len() implies !key_equal(
        key_of(#[trigger] s[q]),
        key_of(s[j]),
    ) by {
        lemma_run_end_greater(s, j, q);
    }
    lemma_with_key_take(s, key_of(s[j]), j + 1);
}

/// The last of the updates with key `k` in a prefix that ends with such an update is that
/// update.
proof fn lemma_with_key_last<D: Ord, T: Ord, R>(s: Seq<(D, T, R)>, j: int)
    requires
        ordered::<D, T>(),
        0 <= j < s.len(),
    ensures
        with_key(s.take(j + 1), key_of(s[j])).len() > 0,
        with_key(s.take(j + 1), key_of(s[j])).last() == s[j],
{
    lemma_key_order(key_of(s[j]), key_of(s[j]), key_of(s[j]));
    lemma_with_key_step(s, key_of(s[j]), j);
}

/// Aggregates the diffs of updates with equal keys, suppressing any that accumulate to zero.
pub fn consolidate_updates<D: Ord, T: Ord, R: Monoid>(updates: Vec<(D, T, R)>) -> (out: Vec<
    (D, T, R),
>)
    requires
        ordered::<D, T>(),
        accumulable(updates@),
    ensures
        consolidated(updates@, out@),
        accumulable(out@),
{
    match try_consolidate_updates(updates) {
        Some(out) => out,
        None => {
            proof {
                assert(false);
            }
            Vec::new()
        },
    }
}

/// Aggregates the diffs of updates with equal keys, suppressing any that accumulate to zero;
/// or, where some addition of diffs would overflow, `None`.
///
/// The updates are sorted by key, the diff of each update is added into the next update where
/// their keys are equal (leaving zero behind), and the updates whose diffs are zero are dropped.
pub fn try_consolidate_updates<D: Ord, T: Ord, R: Monoid>(updates: Vec<(D, T, R)>) -> (r: Option<
    Vec<(D, T, R)>,
>)
    requires
        ordered::<D, T>(),
    ensures
        r matches Some(out) ==> consolidated(updates@, out@) && accumulable(out@),
        r is None ==> !accumulable(updates@),
{
    let ghost input = updates@;
    let mut vector = updates;
    sort_by_key(&mut vector);
    let ghost sorted = vector@;
    let n = vector.len();
    proof {
        if n > 0 {
            let k0 = key_of(sorted[0]);
            lemma_key_order(k0, k0, k0);
            lemma_with_key_step(sorted, k0, 0);
            lemma_accumulate_push(with_key(sorted.take(0), k0), sorted[0]);
        }
    }
    let mut index: usize = 1;
    while index < n
        invariant
            ordered::<D, T>(),
            sorted_by_key(sorted),
            forall|k: (D, T)| #[trigger] with_key(sorted, k) == with_key(input, k),
            input == updates@,
            n == sorted.len(),
            vector@.len() == n,
            1 <= index,
            n > 0 ==> index <= n,
            forall|j: int| 0 <= j < n ==> key_of(#[trigger] vector@[j]) == key_of(sorted[j]),
            forall|j: int| index <= j < n ==> #[trigger] vector@[j] == sorted[j],
            forall|j: int|
                0 <= j < index - 1 ==> (#[trigger] vector@[j]).2@ == merged_value(sorted, j),
            n > 0 ==> vector@[index - 1].2@ == accumulate::<D, T, R>(
                with_key(sorted.take(index as int), key_of(sorted[index - 1])),
            ),
        decreases n - index,
    {
        let ghost i = index as int;
        let ghost k = key_of(sorted[i]);
        let ghost before = with_key(sorted.take(i), key_of(sorted[i - 1]));
        proof {
            lemma_with_key_step(sorted, k, i);
            lemma_with_key_last(sorted, i - 1);
            lemma_key_order(k, k, k);
        }
        if same_key(&vector[index], &vector[index - 1]) {
            proof {
                lemma_key_order(k, key_of(sorted[i - 1]), k);
                lemma_with_key_equal_keys(sorted.take(i), k, key_of(sorted[i - 1]));
                lemma_accumulate_push(before, sorted[i]);
            }
            if !vector[index].2.add_fits(&vector[index - 1].2) {
                proof {
                    if accumulate_req::<D, T, R>(with_key(sorted, k)) {
                        lemma_accumulate_req_take(sorted, k, i + 1);
                    }
                    assert(!accumulate_req::<D, T, R>(with_key(input, k)));
                    assert(!accumulable(input));
                }
                return None;
            }
            let mut prev = R::zero();
            std::mem::swap(&mut prev, &mut vector[index - 1].2);
            vector[index].2.add_assign(&prev);
        } else {
            proof {
                assert forall|q: int| 0 <= q < i implies !key_equal(
                    key_of(#[trigger] sorted.take(i)[q]),
                    k,
                ) by {
                    lemma_key_order(key_of(sorted[i - 1]), k, k);
                    if q < i - 1 {
                        lemma_key_order(key_of(sorted[q]), key_of(sorted[i - 1]), k);
                    }
                    lemma_key_order(key_of(sorted[q]), k, k);
                    lemma_key_order(k, key_of(sorted[q]), key_of(sorted[q]));
                }
                lemma_with_key_none(sorted.take(i), k);
                lemma_accumulate_push(with_key(sorted.take(i), k), sorted[i]);
            }
        }
        index = index + 1;
    }
    let ghost merged = vector@;
    assert(forall|j: int| 0 <= j < n ==> (#[trigger] merged[j]).2@ == merged_value(sorted, j));
    let mut out: Vec<(D, T, R)> = Vec::new();
    let ghost mut kept: Seq<int> = Seq::empty();
    for update in iter: vector.into_iter()
        invariant
            iter.seq() == merged,
            out@.len() == kept.len(),
            forall|i: int|
                0 <= i < kept.len() ==> 0 <= #[trigger] kept[i] < iter.index() && out@[i]
                    == merged[kept[i]] && !R::is_zero_value(merged[kept[i]].2@),
            forall|i: int, j: int| 0 <= i < j < kept.len() ==> kept[i] < kept[j],
            forall|j: int|
                0 <= j < iter.index() && !R::is_zero_value((#[trigger] merged[j]).2@) ==> exists|
                    i: int,
                | 0 <= i < kept.len() && kept[i] == j,
    {
        let ghost j = iter.index();
        let ghost old_kept = kept;
        if !update.2.is_zero() {
            proof {
                kept = kept.push(j);
            }
            out.push(update);
        }
        proof {
            assert forall|j2: int|
                0 <= j2 < j + 1 && !R::is_zero_value(
                    (#[trigger] merged[j2]).2@,
                ) implies exists|i: int| 0 <= i < kept.len() && kept[i] == j2 by {
                if j2 < j {
                    let i = choose|i: int| 0 <= i < old_kept.len() && old_kept[i] == j2;
                    assert(kept[i] == j2);
                } else {
                    assert(kept[kept.len() - 1] == j2);
                }
            }
        }
    }
    proof {
        lemma_consolidated(input, sorted, merged, out@, kept);
        lemma_consolidated_accumulable(input, out@);
    }
    Some(out)
}

/// The updates that the merge and the filter keep form the consolidation of the input.
proof fn lemma_consolidated<D: Ord, T: Ord, R: Monoid>(
    input: Seq<(D, T, R)>,
    sorted: Seq<(D, T, R)>,
    merged: Seq<(D, T, R)>,
    out: Seq<(D, T, R)>,
    kept: Seq<int>,
)
    requires
        ordered::<D, T>(),
        sorted_by_key(sorted),
        sorted.len() == input.len(),
        forall|k: (D, T)| #[trigger] with_key(sorted, k) == with_key(input, k),
        merged.len() == sorted.len(),
        forall|j: int| 0 <= j < sorted.len() ==> key_of(#[trigger] merged[j]) == key_of(sorted[j]),
        forall|j: int| 0 <= j < sorted.len() ==> (#[trigger] merged[j]).2@ == merged_value(sorted, j),
        out.len() == kept.len(),
        forall|i: int|
            0 <= i < kept.len() ==> 0 <= #[trigger] kept[i] < sorted.len() && out[i]
                == merged[kept[i]] && !R::is_zero_value(merged[kept[i]].2@),
        forall|i: int, j: int| 0 <= i < j < kept.len() ==> kept[i] < kept[j],
        forall|j: int|
            0 <= j < sorted.len() && !R::is_zero_value((#[trigger] merged[j]).2@) ==> exists|i: int|
                0 <= i < kept.len() && kept[i] == j,
    ensures
        consolidated(input, out),
{
    R::lemma_zero_is_zero();
    // A kept position ends its run of equal keys.
    assert forall|i: int| 0 <= i < kept.len() && #[trigger] kept[i] + 1 < sorted.len() implies !key_equal(
        key_of(sorted[kept[i]]),
        key_of(sorted[kept[i] + 1]),
    ) by {
        assert(merged[kept[i]].2@ == merged_value(sorted, kept[i]));
    }
    assert forall|i1: int, i2: int| 0 <= i1 < i2 < out.len() implies key_less(
        key_of(#[trigger] out[i1]),
        key_of(#[trigger] out[i2]),
    ) by {
        assert(kept[i1] < kept[i2]);
        lemma_run_end_greater(sorted, kept[i1], kept[i2]);
    }
    assert forall|i: int| 0 <= i < out.len() implies {
        let class = #[trigger] with_key(input, key_of(out[i]));
        &&& class.len() > 0
        &&& key_of(out[i]) == key_of(class.last())
        &&& out[i].2@ == accumulate::<D, T, R>(class)
        &&& !R::is_zero_value(out[i].2@)
    } by {
        let j = kept[i];
        lemma_run_end_class(sorted, j);
        lemma_with_key_last(sorted, j);
        assert(with_key(sorted, key_of(sorted[j])) == with_key(input, key_of(sorted[j])));
        assert(merged[j].2@ == merged_value(sorted, j));
    }
    assert forall|p: int|
        0 <= p < input.len() && !R::is_zero_value(
            accumulate::<D, T, R>(#[trigger] with_key(input, key_of(input[p]))),
        ) implies exists|i: int| 0 <= i < out.len() && key_equal(key_of(out[i]), key_of(input[p])) by {
        let k0 = key_of(input[p]);
        lemma_key_order(k0, k0, k0);
        lemma_with_key_nonempty(input, k0, p);
        assert(with_key(sorted, k0) == with_key(input, k0));
        lemma_with_key_member(sorted, k0, 0);
        let q = choose|q: int| 0 <= q < sorted.len() && sorted[q] == with_key(sorted, k0)[0]
            && key_equal(key_of(sorted[q]), k0);
        let j = lemma_run_end(sorted, q);
        lemma_key_order(key_of(sorted[j]), key_of(sorted[q]), k0);
        lemma_run_end_class(sorted, j);
        lemma_with_key_equal_keys(sorted, key_of(sorted[j]), k0);
        assert(merged[j].2@ == merged_value(sorted, j));
        let i = choose|i: int| 0 <= i < kept.len() && kept[i] == j;
        assert(out[i] == merged[j]);
    }
}

/// Consolidation changes no accumulation: for every key, the updates of the output with that
/// key accumulate to what those of the input do, and where those of the input accumulate to
/// zero, or there are none, the output has no update with that key. Where there is one, it is
/// the only one.
pub proof fn lemma_consolidation_preserves_accumulation<D: Ord, T: Ord, R: Monoid>(
    input: Seq<(D, T, R)>,
    output: Seq<(D, T, R)>,
    k: (D, T),
)
    requires
        ordered::<D, T>(),
        consolidated(input, output),
    ensures
        with_key(input, k).len() == 0 || R::is_zero_value(
            accumulate::<D, T, R>(with_key(input, k)),
        ) ==> with_key(output, k).len() == 0,
        with_key(input, k).len() > 0 && !R::is_zero_value(
            accumulate::<D, T, R>(with_key(input, k)),
        ) ==> with_key(output, k).len() == 1 && accumulate::<D, T, R>(with_key(output, k))
            == accumulate::<D, T, R>(with_key(input, k)),
{
    if exists|i: int| 0 <= i < output.len() && key_equal(key_of(output[i]), k) {
        let i = choose|i: int| 0 <= i < output.len() && key_equal(key_of(output[i]), k);
        assert forall|q: int| 0 <= q < output.len() && q != i implies !key_equal(
            key_of(#[trigger] output[q]),
            k,
        ) by {
            if q < i {
                assert(key_less(key_of(output[q]), key_of(output[i])));
            } else {
                assert(key_less(key_of(output[i]), key_of(output[q])));
            }
            lemma_key_order(key_of(output[q]), k, key_of(output[i]));
            lemma_key_order(key_of(output[i]), k, key_of(output[q]));
            lemma_key_order(k, key_of(output[i]), key_of(output[q]));
            lemma_key_order(key_of(output[q]), key_of(output[i]), k);
        }
        lemma_with_key_single(output, k, i);
        lemma_with_key_equal_keys(input, key_of(output[i]), k);
        assert(with_key(output, k)[0] == output[i]);
        assert(with_key(input, key_of(output[i])).len() > 0);
    } else {
        assert forall|q: int| 0 <= q < output.len() implies !key_equal(
            key_of(#[trigger] output[q]),
            k,
        ) by {}
        lemma_with_key_none(output, k);
        if with_key(input, k).len() > 0 && !R::is_zero_value(
            accumulate::<D, T, R>(with_key(input, k)),
        ) {
            lemma_with_key_member(input, k, 0);
            let p = choose|p: int| 0 <= p < input.len() && input[p] == with_key(input, k)[0]
                && key_equal(key_of(input[p]), k);
            lemma_with_key_equal_keys(input, key_of(input[p]), k);
            assert(!R::is_zero_value(
                accumulate::<D, T, R>(with_key(input, key_of(input[p]))),
            ));
            let i = choose|i: int|
                0 <= i < output.len() && key_equal(key_of(output[i]), key_of(input[p]));
            lemma_key_order(key_of(output[i]), key_of(input[p]), k);
        }
    }
}

/// Whether `p` is among the values of `f`.
spec fn hits(f: Seq<int>, p: int) -> bool {
    exists|i: int| 0 <= i < f.len() && f[i] == p
}

/// A consolidated collection has at most one update for each key, so it can always be
/// consolidated again.
pub proof fn lemma_consolidated_accumulable<D: Ord, T: Ord, R: Monoid>(
    input: Seq<(D, T, R)>,
    output: Seq<(D, T, R)>,
)
    requires
        ordered::<D, T>(),
        consolidated(input, output),
    ensures
        accumulable(output),
{
    assert forall|k: (D, T)| accumulate_req::<D, T, R>(#[trigger] with_key(output, k)) by {
        lemma_consolidation_preserves_accumulation(input, output, k);
    }
}

/// A strictly increasing map from `0 .. f.len()` onto `0 .. n` is the identity.
proof fn lemma_increasing_onto(f: Seq<int>, n: int)
    requires
        n >= 0,
        forall|i: int| 0 <= i < f.len() ==> 0 <= #[trigger] f[i] < n,
        forall|i: int, j: int| 0 <= i < j < f.len() ==> f[i] < f[j],
        forall|p: int| 0 <= p < n ==> #[trigger] hits(f, p),
    ensures
        f.len() == n,
        forall|i: int| 0 <= i < f.len() ==> #[trigger] f[i] == i,
{
    assert forall|i: int| 0 <= i < f.len() implies #[trigger] f[i] >= i by {
        lemma_increasing_at_least(f, i);
    }
    assert forall|i: int| 0 <= i < f.len() implies #[trigger] f[i] == i by {
        lemma_increasing_onto_at(f, n, i);
    }
    if n > 0 {
        assert(hits(f, n - 1));
        let i = choose|i: int| 0 <= i < f.len() && f[i] == n - 1;
        assert(f[i] == i);
        assert(f.len() >= n);
    }
    if f.len() > 0 {
        let last = f.len() - 1;
        assert(f[last] == last);
        assert(f[last] < n);
        assert(f.len() <= n);
    }
}

proof fn lemma_increasing_at_least(f: Seq<int>, i: int)
    requires
        forall|i: int| 0 <= i < f.len() ==> 0 <= #[trigger] f[i],
        forall|i: int, j: int| 0 <= i < j < f.len() ==> f[i] < f[j],
        0 <= i < f.len(),
    ensures
        f[i] >= i,
    decreases i,
{
    if i > 0 {
        lemma_increasing_at_least(f, i - 1);
    }
}

proof fn lemma_increasing_onto_at(f: Seq<int>, n: int, i: int)
    requires
        forall|i: int| 0 <= i < f.len() ==> 0 <= #[trigger] f[i] < n,
        forall|i: int, j: int| 0 <= i < j < f.len() ==> f[i] < f[j],
        forall|p: int| 0 <= p < n ==> #[trigger] hits(f, p),
        forall|i: int| 0 <= i < f.len() ==> #[trigger] f[i] >= i,
        0 <= i < f.len(),
    ensures
        f[i] == i,
    decreases i,
{
    assert(f[i] >= i);
    assert(hits(f, i));
    let j = choose|j: int| 0 <= j < f.len() && f[j] == i;
    if j < i {
        lemma_increasing_onto_at(f, n, j);
    } else if j > i {
        assert(f[i] < f[j]);
    }
}

/// Consolidating a consolidated collection changes nothing: the result has the same keys and
/// the same diffs, in the same order.
pub proof fn lemma_consolidation_idempotent<D: Ord, T: Ord, R: Monoid>(
    input: Seq<(D, T, R)>,
    once: Seq<(D, T, R)>,
    twice: Seq<(D, T, R)>,
)
    requires
        ordered::<D, T>(),
        consolidated(input, once),
        consolidated(once, twice),
    ensures
        twice.len() == once.len(),
        forall|i: int|
            0 <= i < twice.len() ==> key_of(#[trigger] twice[i]) == key_of(once[i]) && twice[i].2@
                == once[i].2@,
{
    // In `once`, each key has a single update.
    assert forall|p: int| 0 <= p < once.len() implies #[trigger] with_key(once, key_of(once[p]))
        == seq![once[p]] by {
        lemma_key_order(key_of(once[p]), key_of(once[p]), key_of(once[p]));
        assert forall|q: int| 0 <= q < once.len() && q != p implies !key_equal(
            key_of(#[trigger] once[q]),
            key_of(once[p]),
        ) by {
            if q < p {
                assert(key_less(key_of(once[q]), key_of(once[p])));
            } else {
                assert(key_less(key_of(once[p]), key_of(once[q])));
            }
            lemma_key_order(key_of(once[q]), key_of(once[p]), key_of(once[p]));
            lemma_key_order(key_of(once[p]), key_of(once[q]), key_of(once[q]));
        }
        lemma_with_key_single(once, key_of(once[p]), p);
    }
    // Each update of `twice` comes from the update of `once` with its key.
    let f = Seq::new(
        twice.len(),
        |i: int| choose|p: int| 0 <= p < once.len() && key_equal(key_of(once[p]), key_of(twice[i])),
    );
    assert forall|i: int| 0 <= i < twice.len() implies 0 <= #[trigger] f[i] < once.len()
        && key_of(once[f[i]]) == key_of(twice[i]) && once[f[i]].2@ == twice[i].2@ by {
        let class = with_key(once, key_of(twice[i]));
        lemma_with_key_member(once, key_of(twice[i]), class.len() - 1);
        let p = choose|p: int| 0 <= p < once.len() && once[p] == class[class.len() - 1]
            && key_equal(key_of(once[p]), key_of(twice[i]));
        assert(key_equal(key_of(once[p]), key_of(twice[i])));
        let q = f[i];
        assert(0 <= q < once.len() && key_equal(key_of(once[q]), key_of(twice[i])));
        lemma_with_key_equal_keys(once, key_of(once[q]), key_of(twice[i]));
        assert(class == seq![once[q]]);
        assert(accumulate::<D, T, R>(seq![once[q]]) == once[q].2@);
    }
    assert forall|i: int, j: int| 0 <= i < j < f.len() implies f[i] < f[j] by {
        assert(key_less(key_of(twice[i]), key_of(twice[j])));
        if f[j] < f[i] {
            assert(key_less(key_of(once[f[j]]), key_of(once[f[i]])));
            lemma_key_order(key_of(twice[i]), key_of(twice[j]), key_of(twice[i]));
        } else if f[j] == f[i] {
            lemma_key_order(key_of(twice[i]), key_of(twice[j]), key_of(twice[j]));
        }
    }
    assert forall|p: int| 0 <= p < once.len() implies #[trigger] hits(f, p) by {
        assert(with_key(once, key_of(once[p])) == seq![once[p]]);
        assert(accumulate::<D, T, R>(seq![once[p]]) == once[p].2@);
        assert(with_key(input, key_of(once[p])).len() > 0);
        assert(!R::is_zero_value(once[p].2@));
        let i = choose|i: int|
            0 <= i < twice.len() && key_equal(key_of(twice[i]), key_of(once[p]));
        if f[i] != p {
            let q = f[i];
            if q < p {
                assert(key_less(key_of(once[q]), key_of(once[p])));
            } else {
                assert(key_less(key_of(once[p]), key_of(once[q])));
            }
            lemma_key_order(key_of(once[q]), key_of(once[p]), key_of(once[p]));
            lemma_key_order(key_of(once[p]), key_of(once[q]), key_of(once[q]));
        }
        assert(f[i] == p);
    }
    lemma_increasing_onto(f, once.len() as int);
    assert forall|i: int| 0 <= i < twice.len() implies key_of(#[trigger] twice[i]) == key_of(once[i])
        && twice[i].2@ == once[i].2@ by {
        assert(f[i] == i);
    }
}

/// The sum of the integer diffs of `s`.
pub open spec fn sum_diffs<D, T>(s: Seq<(D, T, isize)>) -> int
    decreases s.len(),
{
    if s.len() == 0 {
        0
    } else {
        sum_diffs(s.drop_last()) + s.last().2 as int
    }
}

/// The updates of `s` with their diffs negated.
pub open spec fn negated<D, T>(s: Seq<(D, T, isize)>) -> Seq<(D, T, isize)> {
    s.map_values(|u: (D, T, isize)| (u.0, u.1, (-u.2) as isize))
}

/// Integer diffs accumulate to their sum, where no step overflows.
pub proof fn lemma_accumulate_sum<D, T>(s: Seq<(D, T, isize)>)
    requires
        accumulate_req::<D, T, isize>(s),
    ensures
        s.len() > 0 ==> accumulate::<D, T, isize>(s) == sum_diffs(s),
    decreases s.len(),
{
    if s.len() > 1 {
        lemma_accumulate_sum(s.drop_last());
        assert(s.last().2@ == s.last().2);
    } else if s.len() == 1 {
        assert(sum_diffs(s.drop_last()) == 0);
        assert(s[0].2@ == s[0].2);
        assert(s.last() == s[0]);
    }
}

proof fn lemma_sum_add<D, T>(a: Seq<(D, T, isize)>, b: Seq<(D, T, isize)>)
    ensures
        sum_diffs(a + b) == sum_diffs(a) + sum_diffs(b),
    decreases b.len(),
{
    if b.len() > 0 {
        assert((a + b).drop_last() =~= a + b.drop_last());
        lemma_sum_add(a, b.drop_last());
    } else {
        assert(a + b =~= a);
    }
}

proof fn lemma_sum_negated<D, T>(s: Seq<(D, T, isize)>)
    requires
        forall|i: int| 0 <= i < s.len() ==> (#[trigger] s[i]).2 != isize::MIN,
    ensures
        sum_diffs(negated(s)) == -sum_diffs(s),
    decreases s.len(),
{
    if s.len() > 0 {
        assert(negated(s).drop_last() =~= negated(s.drop_last()));
        lemma_sum_negated(s.drop_last());
    }
}

proof fn lemma_with_key_add<D: Ord, T: Ord, R>(a: Seq<(D, T, R)>, b: Seq<(D, T, R)>, k: (D, T))
    ensures
        with_key(a + b, k) == with_key(a, k) + with_key(b, k),
    decreases b.len(),
{
    if b.len() > 0 {
        assert((a + b).drop_last() =~= a + b.drop_last());
        lemma_with_key_add(a, b.drop_last(), k);
        assert(with_key(a, k) + with_key(b.drop_last(), k).push(b.last()) =~= (with_key(a, k)
            + with_key(b.drop_last(), k)).push(b.last()));
    } else {
        assert(a + b =~= a);
        assert(with_key(a, k) + with_key(b, k) =~= with_key(a, k));
    }
}

proof fn lemma_with_key_negated<D: Ord, T: Ord>(s: Seq<(D, T, isize)>, k: (D, T))
    ensures
        with_key(negated(s), k) == negated(with_key(s, k)),
    decreases s.len(),
{
    if s.len() > 0 {
        assert(negated(s).drop_last() =~= negated(s.drop_last()));
        lemma_with_key_negated(s.drop_last(), k);
        let rest = with_key(s.drop_last(), k);
        assert(negated(rest.push(s.last())) =~= negated(rest).push(negated(s).last()));
    } else {
        assert(negated(s) =~= s);
    }
}

/// A collection consolidated together with its negation cancels: nothing remains.
pub proof fn lemma_negation_cancels<D: Ord, T: Ord>(
    x: Seq<(D, T, isize)>,
    output: Seq<(D, T, isize)>,
)
    requires
        ordered::<D, T>(),
        forall|i: int| 0 <= i < x.len() ==> (#[trigger] x[i]).2 != isize::MIN,
        accumulable(negated(x) + x),
        consolidated(negated(x) + x, output),
    ensures
        output.len() == 0,
{
    if output.len() > 0 {
        let input = negated(x) + x;
        let k = key_of(output[0]);
        let class = with_key(input, k);
        assert(class.len() > 0);
        assert(accumulate_req::<D, T, isize>(class));
        lemma_accumulate_sum(class);
        lemma_with_key_add(negated(x), x, k);
        lemma_with_key_negated(x, k);
        lemma_sum_add(negated(with_key(x, k)), with_key(x, k));
        let xs = with_key(x, k);
        assert forall|i: int| 0 <= i < xs.len() implies (#[trigger] xs[i]).2 != isize::MIN by {
            lemma_with_key_member(x, k, i);
        }
        lemma_sum_negated(xs);
        assert(!<isize as Monoid>::is_zero_value(output[0].2@));
    }
}

/// In a consolidation, an update of the input whose key accumulates to something other than zero
/// has its key among the output's.
proof fn lemma_consolidated_covers<D: Ord, T: Ord, R: Monoid>(
    input: Seq<(D, T, R)>,
    output: Seq<(D, T, R)>,
    k: (D, T),
) -> (j: int)
    requires
        ordered::<D, T>(),
        consolidated(input, output),
        with_key(input, k).len() > 0,
        !R::is_zero_value(accumulate::<D, T, R>(with_key(input, k))),
    ensures
        0 <= j < output.len(),
        key_equal(key_of(output[j]), k),
{
    lemma_with_key_member(input, k, 0);
    let p = choose|p: int| 0 <= p < input.len() && input[p] == with_key(input, k)[0]
        && key_equal(key_of(input[p]), k);
    lemma_with_key_equal_keys(input, key_of(input[p]), k);
    assert(!R::is_zero_value(accumulate::<D, T, R>(with_key(input, key_of(input[p])))));
    let j = choose|j: int| 0 <= j < output.len() && key_equal(key_of(output[j]), key_of(input[p]));
    lemma_key_order(key_of(output[j]), key_of(input[p]), k);
    j
}

/// In a consolidation, updates at different positions have different keys.
proof fn lemma_consolidated_distinct<D: Ord, T: Ord, R: Monoid>(
    input: Seq<(D, T, R)>,
    output: Seq<(D, T, R)>,
    i: int,
    j: int,
    k: (D, T),
)
    requires
        ordered::<D, T>(),
        consolidated(input, output),
        0 <= i < output.len(),
        0 <= j < output.len(),
        key_equal(key_of(output[i]), k),
        key_equal(key_of(output[j]), k),
    ensures
        i == j,
{
    if i != j {
        if i < j {
            assert(key_less(key_of(output[i]), key_of(output[j])));
        } else {
            assert(key_less(key_of(output[j]), key_of(output[i])));
        }
        lemma_key_order(key_of(output[i]), k, key_of(output[j]));
        lemma_key_order(key_of(output[j]), k, key_of(output[i]));
        lemma_key_order(k, key_of(output[j]), key_of(output[i]));
        lemma_key_order(key_of(output[i]), key_of(output[j]), key_of(output[j]));
        lemma_key_order(key_of(output[j]), key_of(output[i]), key_of(output[i]));
    }
}

/// Whether the updates of `s` with key `k` exist and do not accumulate to zero, so that `k`
/// survives consolidation.
pub open spec fn survives<D: Ord, T: Ord, R: Monoid>(s: Seq<(D, T, R)>, k: (D, T)) -> bool {
    with_key(s, k).len() > 0 && !R::is_zero_value(accumulate::<D, T, R>(with_key(s, k)))
}

/// Whether, where both inputs have updates with key `k`, the last of them have the same key.
pub open spec fn same_last<D: Ord, T: Ord, R>(
    s1: Seq<(D, T, R)>,
    s2: Seq<(D, T, R)>,
    k: (D, T),
) -> bool {
    with_key(s1, k).len() > 0 && with_key(s2, k).len() > 0 ==> key_of(with_key(s1, k).last())
        == key_of(with_key(s2, k).last())
}

/// Two inputs whose keys survive consolidation alike, and whose last updates with each key have
/// the same key, consolidate to updates with the same keys in the same order.
pub proof fn lemma_consolidations_align<D: Ord, T: Ord, R: Monoid>(
    in1: Seq<(D, T, R)>,
    in2: Seq<(D, T, R)>,
    c1: Seq<(D, T, R)>,
    c2: Seq<(D, T, R)>,
)
    requires
        ordered::<D, T>(),
        consolidated(in1, c1),
        consolidated(in2, c2),
        forall|k: (D, T)| #[trigger] survives(in1, k) == survives(in2, k),
        forall|k: (D, T)| #[trigger] same_last(in1, in2, k),
    ensures
        c1.len() == c2.len(),
        forall|i: int| 0 <= i < c2.len() ==> key_of(#[trigger] c2[i]) == key_of(c1[i]),
{
    let f = Seq::new(
        c2.len(),
        |i: int| choose|j: int| 0 <= j < c1.len() && key_equal(key_of(c1[j]), key_of(c2[i])),
    );
    assert forall|i: int| 0 <= i < c2.len() implies 0 <= #[trigger] f[i] < c1.len() && key_equal(
        key_of(c1[f[i]]),
        key_of(c2[i]),
    ) by {
        let k = key_of(c2[i]);
        assert(with_key(in2, k).len() > 0);
        assert(survives(in2, k));
        assert(survives(in1, k));
        let j = lemma_consolidated_covers(in1, c1, k);
    }
    assert forall|i: int, j: int| 0 <= i < j < f.len() implies f[i] < f[j] by {
        assert(key_less(key_of(c2[i]), key_of(c2[j])));
        let a = key_of(c1[f[i]]);
        let b = key_of(c1[f[j]]);
        lemma_key_order(a, key_of(c2[i]), key_of(c2[j]));
        lemma_key_order(key_of(c2[i]), key_of(c2[j]), b);
        lemma_key_order(b, key_of(c2[j]), key_of(c2[j]));
        lemma_key_order(a, key_of(c2[j]), b);
        lemma_key_order(a, b, b);
        if f[j] < f[i] {
            assert(key_less(b, a));
        } else if f[j] == f[i] {
            assert(a == b);
        }
    }
    assert forall|p: int| 0 <= p < c1.len() implies #[trigger] hits(f, p) by {
        let k = key_of(c1[p]);
        assert(with_key(in1, k).len() > 0);
        assert(survives(in1, k));
        assert(survives(in2, k));
        let i = lemma_consolidated_covers(in2, c2, k);
        lemma_key_order(key_of(c1[f[i]]), key_of(c2[i]), k);
        lemma_key_order(key_of(c2[i]), k, k);
        lemma_key_order(k, k, k);
        lemma_consolidated_distinct(in1, c1, f[i], p, k);
        assert(f[i] == p);
    }
    lemma_increasing_onto(f, c1.len() as int);
    assert forall|i: int| 0 <= i < c2.len() implies key_of(#[trigger] c2[i]) == key_of(c1[i]) by {
        assert(f[i] == i);
        let k = key_of(c2[i]);
        lemma_with_key_equal_keys(in1, key_of(c1[i]), k);
        assert(with_key(in1, key_of(c1[i])).len() > 0);
        assert(with_key(in2, k).len() > 0);
        assert(same_last(in1, in2, k));
    }
}

/// The consolidation of an input is unique: any two have the same keys and the same diffs, in
/// the same order.
pub proof fn lemma_consolidation_unique<D: Ord, T: Ord, R: Monoid>(
    input: Seq<(D, T, R)>,
    c1: Seq<(D, T, R)>,
    c2: Seq<(D, T, R)>,
)
    requires
        ordered::<D, T>(),
        consolidated(input, c1),
        consolidated(input, c2),
    ensures
        c1.len() == c2.len(),
        forall|i: int|
            0 <= i < c2.len() ==> key_of(#[trigger] c2[i]) == key_of(c1[i]) && c2[i].2@ == c1[i].2@,
{
    lemma_consolidations_align(input, input, c1, c2);
    assert forall|i: int| 0 <= i < c2.len() implies key_of(#[trigger] c2[i]) == key_of(c1[i])
        && c2[i].2@ == c1[i].2@ by {
        assert(key_of(c2[i]) == key_of(c1[i]));
        assert(with_key(input, key_of(c1[i])).len() > 0);
        assert(with_key(input, key_of(c2[i])).len() > 0);
    }
}

/// The updates of `x` concatenated with itself with key `k` are those of `x` twice; they
/// accumulate to twice what those of `x` accumulate to, survive consolidation alike, and end in
/// the same key.
proof fn lemma_class_doubles<D: Ord, T: Ord>(x: Seq<(D, T, isize)>, k: (D, T))
    requires
        accumulate_req::<D, T, isize>(with_key(x + x, k)),
    ensures
        with_key(x, k).len() > 0 ==> accumulate::<D, T, isize>(with_key(x + x, k)) == 2
            * accumulate::<D, T, isize>(with_key(x, k)),
        survives(x, k) == survives(x + x, k),
        same_last(x, x + x, k),
{
    lemma_with_key_add(x, x, k);
    let s = with_key(x, k);
    if s.len() > 0 {
        assert((x + x).take(x.len() as int) =~= x);
        lemma_accumulate_req_take(x + x, k, x.len() as int);
        lemma_accumulate_sum(s);
        lemma_accumulate_sum(s + s);
        lemma_sum_add(s, s);
        assert((s + s).last() == s.last());
    } else {
        assert(s + s =~= s);
    }
}

/// A collection concatenated with itself consolidates to the same keys, in the same order, as the
/// collection alone, each with twice its diff.
pub proof fn lemma_concat_doubles<D: Ord, T: Ord>(
    x: Seq<(D, T, isize)>,
    c1: Seq<(D, T, isize)>,
    c2: Seq<(D, T, isize)>,
)
    requires
        ordered::<D, T>(),
        accumulable(x + x),
        consolidated(x, c1),
        consolidated(x + x, c2),
    ensures
        c1.len() == c2.len(),
        forall|i: int|
            0 <= i < c2.len() ==> key_of(#[trigger] c2[i]) == key_of(c1[i]) && c2[i].2 == 2
                * c1[i].2,
{
    assert forall|k: (D, T)| #[trigger] survives(x, k) == survives(x + x, k) by {
        lemma_class_doubles(x, k);
    }
    assert forall|k: (D, T)| #[trigger] same_last(x, x + x, k) by {
        lemma_class_doubles(x, k);
    }
    lemma_consolidations_align(x, x + x, c1, c2);
    assert forall|i: int| 0 <= i < c2.len() implies key_of(#[trigger] c2[i]) == key_of(c1[i])
        && c2[i].2 == 2 * c1[i].2 by {
        let k = key_of(c1[i]);
        assert(with_key(x, k).len() > 0);
        lemma_class_doubles(x, k);
        assert(c2[i].2@ == c2[i].2);
        assert(c1[i].2@ == c1[i].2);
    }
}

/// An extension method for consolidating weighted collections.
pub trait Consolidate<D>: Sized {
    /// Whether the collection can be consolidated.
    spec fn consolidate_req(&self) -> bool;

    /// Whether `result` is the consolidation of the collection.
    spec fn consolidate_spec(&self, result: &Self) -> bool;

    /// Aggregates the weights of equal records into at most one record.
    fn consolidate(self) -> (r: Self)
        requires
            self.consolidate_req(),
        ensures
            self.consolidate_spec(&r),
    ;
}

/// A collection held as its updates consolidates to the updates that `consolidated` describes:
/// at most one update for each `(data, time)`, none with a zero diff. The result can be
/// consolidated again.
impl<D: Ord, T: Ord, R: Monoid> Consolidate<D> for Vec<(D, T, R)> {
    open spec fn consolidate_req(&self) -> bool {
        ordered::<D, T>() && accumulable(self@)
    }

    open spec fn consolidate_spec(&self, result: &Self) -> bool {
        consolidated(self@, result@) && accumulable(result@)
    }

    fn consolidate(self) -> (r: Self) {
        consolidate_updates(self)
    }
}

/// An extension method for consolidating weighted streams.
pub trait ConsolidateStream<D>: Sized {
    /// Whether the stream can be consolidated.
    spec fn consolidate_stream_req(&self) -> bool;

    /// Whether `result` is the consolidation of the stream.
    spec fn consolidate_stream_spec(&self, result: &Self) -> bool;

    /// Aggregates the weights of equal records.
    ///
    /// Unlike `consolidate`, this acts on each batch of data and collapses equivalent
    /// `(data, time)` pairs found therein, suppressing any that accumulate to zero.
    fn consolidate_stream(self) -> (r: Self)
        requires
            self.consolidate_stream_req(),
        ensures
            self.consolidate_stream_spec(&r),
    ;
}

/// A batch of updates consolidates to the updates that `consolidated` describes.
impl<D: Ord, T: Ord, R: Monoid> ConsolidateStream<D> for Vec<(D, T, R)> {
    open spec fn consolidate_stream_req(&self) -> bool {
        ordered::<D, T>() && accumulable(self@)
    }

    open spec fn consolidate_stream_spec(&self, result: &Self) -> bool {
        consolidated(self@, result@) && accumulable(result@)
    }

    fn consolidate_stream(self) -> (r: Self) {
        consolidate_updates(self)
    }
}

} // verus!
