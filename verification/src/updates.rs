//! Updates `(data, time, diff)` and the order of their keys `(data, time)`.
//!
//! The order is the lexicographic order of `Ord` on the data and then on the time. The laws
//! that `Ord` documents for a type are what `vstd` calls `obeys_cmp`; `ordered::<D, T>()` asks
//! them of both.

use std::cmp::Ordering;
use vstd::laws_cmp::obeys_cmp;
use vstd::prelude::*;
use vstd::std_specs::cmp::{OrdSpec, PartialEqSpec, PartialOrdSpec};

verus! {

/// Whether the data type and the time type both obey the laws of a total order.
pub open spec fn ordered<D: Ord, T: Ord>() -> bool {
    obeys_cmp::<D>() && obeys_cmp::<T>()
}

/// Whether the data type obeys the laws of a total order.
pub open spec fn data_ordered<D: Ord>() -> bool {
    obeys_cmp::<D>()
}

/// The key of an update: its data and its time.
pub open spec fn key_of<D, T, R>(x: (D, T, R)) -> (D, T) {
    (x.0, x.1)
}

/// Whether the data of two updates compare equal.
pub open spec fn data_equal<D: Ord, T, R>(a: (D, T, R), b: (D, T, R)) -> bool {
    a.0.cmp_spec(&b.0) == Ordering::Equal
}

/// Whether two data compare equal.
pub open spec fn data_values_equal<D: Ord>(a: D, b: D) -> bool {
    a.cmp_spec(&b) == Ordering::Equal
}

/// Whether the data of an update compares equal to `d`.
pub open spec fn data_is<D: Ord, T, R>(a: (D, T, R), d: D) -> bool {
    a.0.cmp_spec(&d) == Ordering::Equal
}

/// Whether two keys compare equal.
pub open spec fn key_equal<D: Ord, T: Ord>(a: (D, T), b: (D, T)) -> bool {
    a.0.cmp_spec(&b.0) == Ordering::Equal && a.1.cmp_spec(&b.1) == Ordering::Equal
}

/// Whether key `a` comes strictly before key `b`.
pub open spec fn key_less<D: Ord, T: Ord>(a: (D, T), b: (D, T)) -> bool {
    ||| a.0.cmp_spec(&b.0) == Ordering::Less
    ||| a.0.cmp_spec(&b.0) == Ordering::Equal && a.1.cmp_spec(&b.1) == Ordering::Less
}

/// Whether the time of an update is at most `t`.
pub open spec fn time_at_most<D, T: Ord, R>(a: (D, T, R), t: T) -> bool {
    a.1.cmp_spec(&t) != Ordering::Greater
}

/// Whether the time of update `a` comes strictly before that of update `b`.
pub open spec fn time_less<D, T: Ord, R>(a: (D, T, R), b: (D, T, R)) -> bool {
    a.1.cmp_spec(&b.1) == Ordering::Less
}

/// Whether, among the updates of each record, the times strictly increase with the position.
pub open spec fn times_ascend<D: Ord, T: Ord, R>(c: Seq<(D, T, R)>) -> bool {
    forall|a: int, b: int|
        0 <= a < b < c.len() && data_equal(#[trigger] c[a], #[trigger] c[b]) ==> time_less(c[a], c[b])
}

/// Where times ascend within each record, an update of the same record just before one at a
/// time at most `t` is at a time at most `t` too.
pub proof fn lemma_earlier_time_at_most<D: Ord, T: Ord, R>(c: Seq<(D, T, R)>, j: int, t: T)
    requires
        obeys_cmp::<T>(),
        times_ascend(c),
        0 < j < c.len(),
        data_equal(c[j - 1], c[j]),
        time_at_most(c[j], t),
    ensures
        time_at_most(c[j - 1], t),
{
    assert(c[j - 1].1.cmp_spec(&c[j].1) == Ordering::Less);
    lemma_total_order(c[j - 1].1, c[j].1, t);
}

/// The laws of `Ord` for one type, as `obeys_cmp` gives them.
pub proof fn lemma_total_order<K: Ord>(x: K, y: K, z: K)
    requires
        obeys_cmp::<K>(),
    ensures
        x.cmp_spec(&x) == Ordering::Equal,
        x.cmp_spec(&y) == Ordering::Less <==> y.cmp_spec(&x) == Ordering::Greater,
        x.cmp_spec(&y) == Ordering::Equal ==> y.cmp_spec(&x) == Ordering::Equal,
        x.cmp_spec(&y) == Ordering::Equal && y.cmp_spec(&z) == Ordering::Equal ==> x.cmp_spec(&z)
            == Ordering::Equal,
        x.cmp_spec(&y) == Ordering::Less && y.cmp_spec(&z) == Ordering::Less ==> x.cmp_spec(&z)
            == Ordering::Less,
        x.cmp_spec(&y) == Ordering::Less && y.cmp_spec(&z) == Ordering::Equal ==> x.cmp_spec(&z)
            == Ordering::Less,
        x.cmp_spec(&y) == Ordering::Equal && y.cmp_spec(&z) == Ordering::Less ==> x.cmp_spec(&z)
            == Ordering::Less,
        K::obeys_eq_spec(),
        x.eq_spec(&y) <==> x.cmp_spec(&y) == Ordering::Equal,
{
    reveal(vstd::laws_cmp::obeys_partial_cmp_spec_properties);
    reveal(vstd::laws_cmp::obeys_cmp_partial_ord);
    reveal(vstd::laws_cmp::obeys_cmp_ord);
    reveal(vstd::laws_eq::obeys_eq_spec_properties);
    assert(x.partial_cmp_spec(&y) == Some(x.cmp_spec(&y)));
    assert(y.partial_cmp_spec(&x) == Some(y.cmp_spec(&x)));
    assert(x.partial_cmp_spec(&x) == Some(x.cmp_spec(&x)));
    assert(y.partial_cmp_spec(&z) == Some(y.cmp_spec(&z)));
    assert(x.partial_cmp_spec(&z) == Some(x.cmp_spec(&z)));
    assert(z.partial_cmp_spec(&x) == Some(z.cmp_spec(&x)));
    assert(z.partial_cmp_spec(&y) == Some(z.cmp_spec(&y)));
}

/// The order on keys is a total order: `key_equal` is an equivalence, exactly one of
/// `key_less(a, b)`, `key_equal(a, b)` and `key_less(b, a)` holds, and `key_less` is
/// transitive, also through equal keys.
pub proof fn lemma_key_order<D: Ord, T: Ord>(a: (D, T), b: (D, T), c: (D, T))
    requires
        ordered::<D, T>(),
    ensures
        key_equal(a, a),
        key_equal(a, b) ==> key_equal(b, a),
        key_equal(a, b) && key_equal(b, c) ==> key_equal(a, c),
        key_less(a, b) || key_equal(a, b) || key_less(b, a),
        !(key_less(a, b) && key_equal(a, b)),
        !(key_less(a, b) && key_less(b, a)),
        key_less(a, b) && key_less(b, c) ==> key_less(a, c),
        key_less(a, b) && key_equal(b, c) ==> key_less(a, c),
        key_equal(a, b) && key_less(b, c) ==> key_less(a, c),
{
    lemma_total_order(a.0, b.0, c.0);
    lemma_total_order(b.0, a.0, c.0);
    lemma_total_order(a.1, b.1, c.1);
    lemma_total_order(b.1, a.1, c.1);
}

/// Compares the keys of two updates, by data and then by time.
pub fn compare_keys<D: Ord, T: Ord, R>(x: &(D, T, R), y: &(D, T, R)) -> (o: Ordering)
    requires
        ordered::<D, T>(),
    ensures
        (o == Ordering::Less) == key_less(key_of(*x), key_of(*y)),
        (o == Ordering::Equal) == key_equal(key_of(*x), key_of(*y)),
        (o == Ordering::Greater) == key_less(key_of(*y), key_of(*x)),
{
    proof {
        reveal(vstd::laws_cmp::obeys_cmp_ord);
        lemma_key_order(key_of(*x), key_of(*y), key_of(*y));
    }
    match x.0.cmp(&y.0) {
        Ordering::Equal => x.1.cmp(&y.1),
        other => other,
    }
}

/// Whether two updates have equal keys, compared with `==`
/// on the data and on the time.
pub fn same_key<D: Ord, T: Ord, R>(x: &(D, T, R), y: &(D, T, R)) -> (b: bool)
    requires
        ordered::<D, T>(),
    ensures
        b == key_equal(key_of(*x), key_of(*y)),
{
    proof {
        lemma_total_order(x.0, y.0, y.0);
        lemma_total_order(x.1, y.1, y.1);
    }
    x.0 == y.0 && x.1 == y.1
}

/// Whether two updates have equal data, compared with `==`.
pub fn same_data<D: Ord, T, R>(x: &(D, T, R), y: &(D, T, R)) -> (b: bool)
    requires
        data_ordered::<D>(),
    ensures
        b == data_equal(*x, *y),
{
    proof {
        lemma_total_order(x.0, y.0, y.0);
    }
    x.0 == y.0
}

/// Whether the data of an update equals `d`, compared with `==`.
pub fn data_matches<D: Ord, T, R>(x: &(D, T, R), d: &D) -> (b: bool)
    requires
        data_ordered::<D>(),
    ensures
        b == data_is(*x, *d),
{
    proof {
        lemma_total_order(x.0, *d, *d);
    }
    x.0 == *d
}

/// The updates of `s` whose key equals `k`, in their order in `s`.
pub open spec fn with_key<D: Ord, T: Ord, R>(s: Seq<(D, T, R)>, k: (D, T)) -> Seq<(D, T, R)>
    decreases s.len(),
{
    if s.len() == 0 {
        s
    } else {
        let rest = with_key(s.drop_last(), k);
        if key_equal(key_of(s.last()), k) {
            rest.push(s.last())
        } else {
            rest
        }
    }
}

/// Whether the keys of `s` never decrease.
pub open spec fn sorted_by_key<D: Ord, T: Ord, R>(s: Seq<(D, T, R)>) -> bool {
    forall|i: int, j: int| 0 <= i < j < s.len() ==> !key_less(key_of(s[j]), key_of(s[i]))
}

/// Sorts the updates by key, keeping the order of updates with equal keys.
///
/// This calls `slice::sort_by`, whose documentation states that it sorts by the comparison
/// and is stable: updates whose keys compare equal keep their order. The contract states
/// exactly that: the keys never decrease, and for every key the updates with that key are the
/// same, in the same order, as before. The comparison is `compare_keys`, a total order when
/// `ordered::<D, T>()` holds.
#[verifier::external_body]
pub(crate) fn sort_by_key<D: Ord, T: Ord, R>(updates: &mut Vec<(D, T, R)>)
    requires
        ordered::<D, T>(),
    ensures
        final(updates)@.len() == old(updates)@.len(),
        sorted_by_key(final(updates)@),
        forall|k: (D, T)| #[trigger] with_key(final(updates)@, k) == with_key(old(updates)@, k),
{
    updates.sort_by(|x, y| compare_keys(x, y));
}

/// `with_key` depends on the key only up to `key_equal`.
pub proof fn lemma_with_key_equal_keys<D: Ord, T: Ord, R>(
    s: Seq<(D, T, R)>,
    k1: (D, T),
    k2: (D, T),
)
    requires
        ordered::<D, T>(),
        key_equal(k1, k2),
    ensures
        with_key(s, k1) == with_key(s, k2),
    decreases s.len(),
{
    if s.len() > 0 {
        lemma_key_order(key_of(s.last()), k1, k2);
        lemma_key_order(key_of(s.last()), k2, k1);
        lemma_key_order(k1, k2, k2);
        lemma_with_key_equal_keys(s.drop_last(), k1, k2);
    }
}

/// Where no update of `s` has key `k`, `with_key(s, k)` is empty.
pub proof fn lemma_with_key_none<D: Ord, T: Ord, R>(s: Seq<(D, T, R)>, k: (D, T))
    requires
        forall|i: int| 0 <= i < s.len() ==> !key_equal(key_of(#[trigger] s[i]), k),
    ensures
        with_key(s, k).len() == 0,
    decreases s.len(),
{
    if s.len() > 0 {
        assert(!key_equal(key_of(s[s.len() - 1]), k));
        lemma_with_key_none(s.drop_last(), k);
    }
}

/// An update in `with_key(s, k)` is an update of `s` with key `k`.
pub proof fn lemma_with_key_member<D: Ord, T: Ord, R>(s: Seq<(D, T, R)>, k: (D, T), i: int)
    requires
        0 <= i < with_key(s, k).len(),
    ensures
        exists|j: int| 0 <= j < s.len() && s[j] == with_key(s, k)[i] && key_equal(key_of(s[j]), k),
    decreases s.len(),
{
    let rest = with_key(s.drop_last(), k);
    if i < rest.len() {
        lemma_with_key_member(s.drop_last(), k, i);
        let j = choose|j: int| 0 <= j < s.drop_last().len() && s.drop_last()[j] == rest[i]
            && key_equal(key_of(s.drop_last()[j]), k);
        assert(s[j] == s.drop_last()[j]);
    } else {
        assert(s[s.len() - 1] == with_key(s, k)[i]);
    }
}

/// `with_key` of a longer prefix extends `with_key` of a shorter one by the updates of the
/// extra part; in particular, when none of them has key `k`, the two are equal.
pub proof fn lemma_with_key_take<D: Ord, T: Ord, R>(s: Seq<(D, T, R)>, k: (D, T), m: int)
    requires
        0 <= m <= s.len(),
        forall|i: int| m <= i < s.len() ==> !key_equal(key_of(#[trigger] s[i]), k),
    ensures
        with_key(s.take(m), k) == with_key(s, k),
    decreases s.len(),
{
    if m < s.len() {
        assert(!key_equal(key_of(s[s.len() - 1]), k));
        assert(s.drop_last().take(m) =~= s.take(m));
        lemma_with_key_take(s.drop_last(), k, m);
    } else {
        assert(s.take(m) =~= s);
    }
}

/// `with_key` of the prefix of length `m + 1` is that of the prefix of length `m`, followed by
/// `s[m]` where its key is `k`.
pub proof fn lemma_with_key_step<D: Ord, T: Ord, R>(s: Seq<(D, T, R)>, k: (D, T), m: int)
    requires
        0 <= m < s.len(),
    ensures
        with_key(s.take(m + 1), k) == if key_equal(key_of(s[m]), k) {
            with_key(s.take(m), k).push(s[m])
        } else {
            with_key(s.take(m), k)
        },
{
    assert(s.take(m + 1).drop_last() =~= s.take(m));
}

/// Where some update of `s` has key `k`, `with_key(s, k)` is not empty.
pub proof fn lemma_with_key_nonempty<D: Ord, T: Ord, R>(s: Seq<(D, T, R)>, k: (D, T), p: int)
    requires
        0 <= p < s.len(),
        key_equal(key_of(s[p]), k),
    ensures
        with_key(s, k).len() > 0,
    decreases s.len(),
{
    if p < s.len() - 1 {
        assert(s.drop_last()[p] == s[p]);
        lemma_with_key_nonempty(s.drop_last(), k, p);
    }
}

/// Where exactly one update of `s`, at `p`, has key `k`, `with_key(s, k)` is that update alone.
pub proof fn lemma_with_key_single<D: Ord, T: Ord, R>(s: Seq<(D, T, R)>, k: (D, T), p: int)
    requires
        0 <= p < s.len(),
        key_equal(key_of(s[p]), k),
        forall|q: int| 0 <= q < s.len() && q != p ==> !key_equal(key_of(#[trigger] s[q]), k),
    ensures
        with_key(s, k) == seq![s[p]],
    decreases s.len(),
{
    if p < s.len() - 1 {
        assert(s.drop_last()[p] == s[p]);
        assert forall|q: int| 0 <= q < s.drop_last().len() && q != p implies !key_equal(
            key_of(#[trigger] s.drop_last()[q]),
            k,
        ) by {
            assert(s.drop_last()[q] == s[q]);
        }
        lemma_with_key_single(s.drop_last(), k, p);
        assert(!key_equal(key_of(s[s.len() - 1]), k));
    } else {
        assert forall|q: int| 0 <= q < s.drop_last().len() implies !key_equal(
            key_of(#[trigger] s.drop_last()[q]),
            k,
        ) by {
            assert(s.drop_last()[q] == s[q]);
        }
        lemma_with_key_none(s.drop_last(), k);
        assert(with_key(s, k) =~= seq![s[p]]);
    }
}

} // verus!
