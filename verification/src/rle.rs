//! Run-length encoding: a sequence as `(value, count)` pairs, one per run of equal values.
use vstd::prelude::*;

use vstd::std_specs::cmp::PartialEqSpec;

use crate::grid::clones_of;

verus! {

/// A run-length encoded pair: `count` copies of `value`.
#[derive(Debug, Clone, PartialEq, Eq)]
pub struct RLEPair<T> {
    pub value: T,
    pub count: usize,
}

/// Where run `j` starts: the sum of the counts of the pairs before it.
pub open spec fn rle_offset<T>(pairs: Seq<RLEPair<T>>, j: int) -> int
    decreases j,
{
    if j <= 0 {
        0
    } else {
        rle_offset(pairs, j - 1) + pairs[j - 1].count
    }
}

/// The length of the sequence that `pairs` stands for.
pub open spec fn rle_total<T>(pairs: Seq<RLEPair<T>>) -> int {
    rle_offset(pairs, pairs.len() as int)
}

/// The sequence that `pairs` stands for: each value repeated `count` times, in order.
pub open spec fn rle_expand<T>(pairs: Seq<RLEPair<T>>) -> Seq<T>
    decreases pairs.len(),
{
    if pairs.len() == 0 {
        Seq::empty()
    } else {
        rle_expand(pairs.drop_last()) + Seq::new(
            pairs.last().count as nat,
            |t: int| pairs.last().value,
        )
    }
}

/// `pairs` is the run-length encoding of `data` that a left-to-right scan produces.
///
/// The pairs cut `data` into consecutive non-empty runs; each pair's value is a clone
/// of the first entry of its run. Where `T`'s `==` follows its specification, every
/// later entry of a run compares equal to the run's value, and the first entry of the
/// next run does not.
pub open spec fn is_rle_of<T: Clone + PartialEq>(data: Seq<T>, pairs: Seq<RLEPair<T>>) -> bool {
    &&& rle_total(pairs) == data.len()
    &&& forall|j: int|
        0 <= j < pairs.len() ==> (#[trigger] pairs[j]).count >= 1 && cloned(
            data[rle_offset(pairs, j)],
            pairs[j].value,
        )
    &&& T::obeys_eq_spec() ==> forall|j: int, k: int|
        #![trigger pairs[j], data[k]]
        0 <= j < pairs.len() && rle_offset(pairs, j) < k < rle_offset(pairs, j + 1)
            ==> data[k].eq_spec(&pairs[j].value)
    &&& T::obeys_eq_spec() ==> forall|j: int|
        0 < j < pairs.len() ==> !data[rle_offset(pairs, j)].eq_spec(&(#[trigger] pairs[j - 1]).value)
}

/// Appending a pair does not move the runs before it.
pub proof fn lemma_offset_push<T>(pairs: Seq<RLEPair<T>>, x: RLEPair<T>, j: int)
    requires
        0 <= j <= pairs.len(),
    ensures
        rle_offset(pairs.push(x), j) == rle_offset(pairs, j),
    decreases j,
{
    if j > 0 {
        lemma_offset_push(pairs, x, j - 1);
    }
}

/// Runs start in order, and with non-empty runs every run starts inside the sequence.
pub proof fn lemma_offset_monotone<T>(pairs: Seq<RLEPair<T>>, j: int, k: int)
    requires
        0 <= j <= k <= pairs.len(),
    ensures
        rle_offset(pairs, j) <= rle_offset(pairs, k),
        (forall|t: int| 0 <= t < pairs.len() ==> (#[trigger] pairs[t]).count >= 1) ==> rle_offset(
            pairs,
            j,
        ) + (k - j) <= rle_offset(pairs, k),
    decreases k,
{
    if j < k {
        lemma_offset_monotone(pairs, j, k - 1);
    }
}

/// The expansion of `pairs` has `rle_total(pairs)` entries.
pub proof fn lemma_expand_len<T>(pairs: Seq<RLEPair<T>>)
    ensures
        rle_expand(pairs).len() == rle_total(pairs),
    decreases pairs.len(),
{
    if pairs.len() > 0 {
        let init = pairs.drop_last();
        lemma_expand_len(init);
        assert forall|j: int| 0 <= j <= init.len() implies rle_offset(init, j) == rle_offset(
            pairs,
            j,
        ) by {
            assert(init.push(pairs.last()) =~= pairs);
            lemma_offset_push(init, pairs.last(), j);
        }
    }
}

/// `pairs` is in canonical form: no run is empty and neighbouring runs hold different values.
pub open spec fn is_canonical_rle<T>(pairs: Seq<RLEPair<T>>) -> bool {
    &&& forall|j: int| 0 <= j < pairs.len() ==> (#[trigger] pairs[j]).count >= 1
    &&& forall|j: int| 0 < j < pairs.len() ==> (#[trigger] pairs[j]).value != pairs[j - 1].value
}

/// Position `k < rle_offset(pairs, j)` lies in one of the first `j` runs.
pub proof fn lemma_find_run<T>(pairs: Seq<RLEPair<T>>, k: int, j: int) -> (run: int)
    requires
        0 <= k < rle_offset(pairs, j),
        j <= pairs.len(),
    ensures
        0 <= run < j,
        rle_offset(pairs, run) <= k < rle_offset(pairs, run + 1),
    decreases j,
{
    if k >= rle_offset(pairs, j - 1) {
        j - 1
    } else {
        lemma_find_run(pairs, k, j - 1)
    }
}

/// The entries of run `j` in the expansion are all `pairs[j].value`.
pub proof fn lemma_expand_index<T>(pairs: Seq<RLEPair<T>>, j: int, t: int)
    requires
        0 <= j < pairs.len(),
        0 <= t < pairs[j].count,
    ensures
        rle_offset(pairs, j) + t < rle_expand(pairs).len(),
        rle_expand(pairs)[rle_offset(pairs, j) + t] == pairs[j].value,
    decreases pairs.len(),
{
    let init = pairs.drop_last();
    let last = pairs.last();
    assert(init.push(last) =~= pairs);
    lemma_expand_len(init);
    lemma_expand_len(pairs);
    lemma_offset_push(init, last, j);
    let tail = Seq::new(last.count as nat, |s: int| last.value);
    assert(rle_expand(pairs) == rle_expand(init) + tail);
    if j == pairs.len() - 1 {
        assert(rle_offset(init, j) == rle_total(init));
        assert(rle_expand(pairs)[rle_offset(pairs, j) + t] == tail[t]);
    } else {
        lemma_offset_push(init, last, j + 1);
        lemma_offset_monotone(init, j + 1, init.len() as int);
        assert(init[j] == pairs[j]);
        lemma_expand_index(init, j, t);
        let x = rle_offset(init, j) + t;
        lemma_offset_monotone(init, 0, j);
        assert(rle_offset(pairs, j) == rle_offset(init, j));
        assert(x < rle_expand(init).len());
        assert((rle_expand(init) + tail)[x] == rle_expand(init)[x]);
        assert(rle_expand(pairs)[rle_offset(pairs, j) + t] == rle_expand(init)[rle_offset(
            init,
            j,
        ) + t]);
    }
}

/// What `is_rle_of` gives about run `j`: it is non-empty, lies inside `data`, and its
/// value is a clone of its first entry.
pub proof fn lemma_run_facts<T: Clone + PartialEq>(data: Seq<T>, pairs: Seq<RLEPair<T>>, j: int)
    requires
        is_rle_of(data, pairs),
        0 <= j < pairs.len(),
    ensures
        pairs[j].count >= 1,
        0 <= rle_offset(pairs, j),
        rle_offset(pairs, j) < rle_offset(pairs, j + 1) <= data.len(),
        cloned(data[rle_offset(pairs, j)], pairs[j].value),
{
    assert(pairs[j].count >= 1);
    lemma_offset_monotone(pairs, j + 1, pairs.len() as int);
    lemma_offset_monotone(pairs, 0, j);
}

/// Replacing the last pair (or appending one) leaves the starts of the runs before it.
proof fn lemma_offsets_agree<T>(pairs: Seq<RLEPair<T>>, a: RLEPair<T>, b: RLEPair<T>, j: int)
    requires
        0 <= j <= pairs.len(),
    ensures
        rle_offset(pairs.push(a), j) == rle_offset(pairs.push(b), j),
        rle_offset(pairs.push(a), j) == rle_offset(pairs, j),
{
    lemma_offset_push(pairs, a, j);
    lemma_offset_push(pairs, b, j);
}

/// Encoding one more entry that equals the open run lengthens that run.
proof fn lemma_rle_extend<T: Clone + PartialEq>(
    data: Seq<T>,
    pairs: Seq<RLEPair<T>>,
    open_run: RLEPair<T>,
    y: T,
)
    requires
        is_rle_of(data, pairs.push(open_run)),
        open_run.count + 1 <= usize::MAX,
        T::obeys_eq_spec() ==> y.eq_spec(&open_run.value),
    ensures
        is_rle_of(
            data.push(y),
            pairs.push(RLEPair { value: open_run.value, count: (open_run.count + 1) as usize }),
        ),
{
    let old_p = pairs.push(open_run);
    let grown = RLEPair { value: open_run.value, count: (open_run.count + 1) as usize };
    let new_p = pairs.push(grown);
    let d2 = data.push(y);
    let last = pairs.len() as int;
    lemma_offsets_agree(pairs, open_run, grown, last);
    assert(rle_total(new_p) == d2.len());
    assert forall|j: int| 0 <= j < new_p.len() implies (#[trigger] new_p[j]).count >= 1 && cloned(
        d2[rle_offset(new_p, j)],
        new_p[j].value,
    ) by {
        lemma_offsets_agree(pairs, open_run, grown, j);
        lemma_run_facts(data, old_p, j);
    }
    if T::obeys_eq_spec() {
        assert forall|j: int, k: int|
            #![trigger new_p[j], d2[k]]
            0 <= j < new_p.len() && rle_offset(new_p, j) < k < rle_offset(new_p, j + 1) implies d2[k].eq_spec(
            &new_p[j].value,
        ) by {
            lemma_offsets_agree(pairs, open_run, grown, j);
            lemma_run_facts(data, old_p, j);
            if j < last {
                lemma_offsets_agree(pairs, open_run, grown, j + 1);
                assert(old_p[j] == new_p[j]);
                assert(data[k].eq_spec(&old_p[j].value));
            } else if k < data.len() {
                assert(data[k].eq_spec(&old_p[j].value));
            }
        }
        assert forall|j: int|
            0 < j < new_p.len() implies !d2[rle_offset(new_p, j)].eq_spec(
            &(#[trigger] new_p[j - 1]).value,
        ) by {
            lemma_offsets_agree(pairs, open_run, grown, j);
            lemma_run_facts(data, old_p, j);
            assert(old_p[j - 1] == new_p[j - 1]);
            assert(!data[rle_offset(old_p, j)].eq_spec(&old_p[j - 1].value));
        }
    }
}

/// Encoding one more entry that differs from the open run closes that run and opens
/// a new one whose value is a clone `z` of the entry.
proof fn lemma_rle_start<T: Clone + PartialEq>(
    data: Seq<T>,
    pairs: Seq<RLEPair<T>>,
    open_run: RLEPair<T>,
    y: T,
    z: T,
)
    requires
        is_rle_of(data, pairs.push(open_run)),
        T::obeys_eq_spec() ==> !y.eq_spec(&open_run.value),
        cloned(y, z),
    ensures
        is_rle_of(data.push(y), pairs.push(open_run).push(RLEPair { value: z, count: 1 })),
{
    let old_p = pairs.push(open_run);
    let fresh = RLEPair { value: z, count: 1usize };
    let new_p = old_p.push(fresh);
    let d2 = data.push(y);
    let last = old_p.len() as int;
    lemma_offset_push(old_p, fresh, last);
    assert(rle_offset(new_p, last) == data.len());
    assert(rle_offset(new_p, last + 1) == data.len() + 1);
    assert forall|j: int| 0 <= j < new_p.len() implies (#[trigger] new_p[j]).count >= 1 && cloned(
        d2[rle_offset(new_p, j)],
        new_p[j].value,
    ) by {
        if j < last {
            lemma_offset_push(old_p, fresh, j);
            lemma_run_facts(data, old_p, j);
        }
    }
    if T::obeys_eq_spec() {
        assert forall|j: int, k: int|
            #![trigger new_p[j], d2[k]]
            0 <= j < new_p.len() && rle_offset(new_p, j) < k < rle_offset(new_p, j + 1) implies d2[k].eq_spec(
            &new_p[j].value,
        ) by {
            if j < last {
                lemma_offset_push(old_p, fresh, j);
                lemma_offset_push(old_p, fresh, j + 1);
                lemma_run_facts(data, old_p, j);
                assert(data[k].eq_spec(&old_p[j].value));
            }
        }
        assert forall|j: int|
            0 < j < new_p.len() implies !d2[rle_offset(new_p, j)].eq_spec(
            &(#[trigger] new_p[j - 1]).value,
        ) by {
            lemma_offset_push(old_p, fresh, j);
            if j < last {
                lemma_run_facts(data, old_p, j);
                assert(!data[rle_offset(old_p, j)].eq_spec(&old_p[j - 1].value));
            }
        }
    }
}

/// Run-length encodes `data`: each run of consecutive entries that compare equal to the
/// run's first entry becomes one `(value, count)` pair.
pub fn rle_encode<T: Clone + PartialEq>(data: &[T]) -> (pairs: Vec<RLEPair<T>>)
    ensures
        is_rle_of(data@, pairs@),
{
    if data.len() == 0 {
        return Vec::new();
    }
    let mut result: Vec<RLEPair<T>> = Vec::new();
    let mut current = data[0].clone();
    let mut count: usize = 1;
    proof {
        let first = RLEPair { value: current, count: 1usize };
        let p = result@.push(first);
        assert(rle_offset(p, 0) == 0);
        assert(rle_offset(p, 1) == 1);
        assert(is_rle_of(data@.take(1), p));
    }
    for i in 1..data.len()
        invariant
            1 <= count <= i <= data@.len(),
            is_rle_of(data@.take(i as int), result@.push(RLEPair { value: current, count })),
    {
        let ghost pending = RLEPair { value: current, count };
        let ghost prefix = data@.take(i as int);
        assert(data@.take(i + 1) =~= prefix.push(data@[i as int]));
        if data[i] == current {
            proof {
                lemma_rle_extend(prefix, result@, pending, data@[i as int]);
            }
            count += 1;
        } else {
            let next = data[i].clone();
            proof {
                lemma_rle_start(prefix, result@, pending, data@[i as int], next);
            }
            result.push(RLEPair { value: current, count });
            current = next;
            count = 1;
        }
    }
    result.push(RLEPair { value: current, count });
    assert(data@.take(data@.len() as int) =~= data@);
    result
}

/// Expands run-length encoded pairs back into the sequence they stand for.
pub fn rle_decode<T: Clone>(pairs: &[RLEPair<T>]) -> (data: Vec<T>)
    requires
        rle_total(pairs@) <= usize::MAX,
    ensures
        clones_of(rle_expand(pairs@), data@),
{
    let mut result: Vec<T> = Vec::new();
    for j in 0..pairs.len()
        invariant
            rle_total(pairs@) <= usize::MAX,
            clones_of(rle_expand(pairs@.take(j as int)), result@),
    {
        let ghost done = rle_expand(pairs@.take(j as int));
        let pair = &pairs[j];
        for t in 0..pair.count
            invariant
                clones_of(done + Seq::new(t as nat, |s: int| pair.value), result@),
        {
            let value = pair.value.clone();
            result.push(value);
            assert(done + Seq::new((t + 1) as nat, |s: int| pair.value) =~= (done + Seq::new(
                t as nat,
                |s: int| pair.value,
            )).push(pair.value));
        }
        assert(pairs@.take(j + 1).drop_last() =~= pairs@.take(j as int));
    }
    assert(pairs@.take(pairs@.len() as int) =~= pairs@);
    result
}

} // verus!
