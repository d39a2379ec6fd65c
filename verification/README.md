# differential_dataflow (verified core)

Differences and the consolidation of weighted updates, as used by differential dataflow,
written in Verus with their contracts proved.

- `src/difference.rs`: the `Monoid` and `Abelian` traits (alias `Diff`), their integer
  instances, `DiffPair` and `DiffVector`. Each type's arithmetic is stated over its view, and
  the laws (zero as identity on both sides, commutativity, associativity, negation) are proof
  functions of the traits that every instance proves. Vectors of different lengths add as if
  the shorter were padded with zeros. A vector is zero where every update is zero; a pair is zero
  only where it equals the pair of identities, so a pair holding a vector of zeros is not zero.
- `src/updates.rs`: updates `(data, time, diff)`, the lexicographic order of their keys built on
  the laws of `Ord`, and the stable sort by key.
- `src/operators/consolidate.rs`: consolidation of a batch of updates (`Consolidate`,
  `ConsolidateStream`), with the laws that it preserves every key's accumulation, is unique and
  idempotent, cancels a collection against its negation, and doubles the diffs of a collection
  concatenated with itself.
- `src/operators/count.rs`: `CountTotal` and `count_batch`, the changes of each record's count
  over time, starting from the counts of earlier updates, with the laws that the changes reported
  up to any time accumulate to a map from records to their counts at that time, and that
  counting a collection concatenated with itself doubles every count.
- `app/lib.rs`: the timely operators that hand the batches of a stream to the consolidation and
  the count, and copies of the difference types that serde can serialize.
- `tests/`: tests of each operation on concrete values.
