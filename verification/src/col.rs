//! The benchmark bodies that build a collection from an output dataset and
//! bring it into order: once under the baseline (lexicographic/derived)
//! order, and once with every item wrapped in the alt-order adapter.

use crate::outish::{
    lemma_sorted_rearrangement_unique, seq_views, sorted_le, sorted_unique, AltOrd, AltOrderItem,
    Out, OutCollection, UsageError,
};
use vstd::prelude::*;

verus! {

/// Collect into the backend and sort under the baseline order, in the
/// requested sort mode. A backend without the requested mode gives a
/// [`UsageError`]; a backend that keeps itself ordered makes the stable
/// mode a no-op, and a backend that forbids duplicates merges them.
pub fn lexi_indicated<T: Out, C: OutCollection<T>>(out: &[T], stable_sort: bool) -> (r: Result<
    C,
    UsageError,
>)
    ensures
        r is Ok <==> (if stable_sort {
            C::has_sort_spec()
        } else {
            C::has_sort_unstable_spec()
        }),
        r matches Ok(c) ==> c.wf() && sorted_le::<T>(c.contents()),
        r matches Ok(c) ==> (if C::allows_multiple_spec() {
            c.contents().to_multiset() == seq_views(out@).to_multiset()
        } else {
            sorted_unique::<T>(c.contents()) && c.contents().to_set() == seq_views(out@).to_set()
        }),
{
    let mut col = C::with_capacity(out.len());
    col.extend(out);
    let ghost filled: Seq<T::V> = col.contents();
    proof {
        if C::allows_multiple_spec() {
            assert(filled =~= seq_views(out@));
        } else {
            assert(filled.to_set() =~= seq_views(out@).to_set());
        }
    }
    let sorted = if stable_sort {
        col.sort()
    } else {
        col.sort_unstable()
    };
    match sorted {
        Ok(_) => {
            proof {
                if !C::allows_multiple_spec() {
                    lemma_sorted_rearrangement_unique::<T>(filled, col.contents());
                }
            }
            Ok(col)
        },
        Err(e) => Err(e),
    }
}

/// Collect and sort under the baseline order with the stable sort.
pub fn lexi_stable<T: Out, C: OutCollection<T>>(out: &[T]) -> (r: Result<C, UsageError>)
    ensures
        r is Ok <==> C::has_sort_spec(),
        r matches Ok(c) ==> c.wf() && sorted_le::<T>(c.contents()),
        r matches Ok(c) ==> (if C::allows_multiple_spec() {
            c.contents().to_multiset() == seq_views(out@).to_multiset()
        } else {
            sorted_unique::<T>(c.contents()) && c.contents().to_set() == seq_views(out@).to_set()
        }),
{
    lexi_indicated::<T, C>(out, true)
}

/// Collect and sort under the baseline order with the unstable sort.
/// A backend without the unstable sort gives a [`UsageError`].
pub fn lexi_unstable<T: Out, C: OutCollection<T>>(out: &[T]) -> (r: Result<C, UsageError>)
    ensures
        r is Ok <==> C::has_sort_unstable_spec(),
        r matches Ok(c) ==> c.wf() && sorted_le::<T>(c.contents()),
        r matches Ok(c) ==> (if C::allows_multiple_spec() {
            c.contents().to_multiset() == seq_views(out@).to_multiset()
        } else {
            sorted_unique::<T>(c.contents()) && c.contents().to_set() == seq_views(out@).to_set()
        }),
{
    lexi_indicated::<T, C>(out, false)
}

/// Collect clones of the items, each wrapped in the alt-order adapter, and
/// sort under the alternative order, in the requested sort mode.
pub fn cami_indicated<T: AltOrd, C: OutCollection<AltOrderItem<T>>>(
    out: &[T],
    stable_sort: bool,
) -> (r: Result<C, UsageError>)
    ensures
        r is Ok <==> (if stable_sort {
            C::has_sort_spec()
        } else {
            C::has_sort_unstable_spec()
        }),
        r matches Ok(c) ==> c.wf() && sorted_le::<AltOrderItem<T>>(c.contents()),
        r matches Ok(c) ==> (if C::allows_multiple_spec() {
            c.contents().to_multiset() == seq_views(out@).to_multiset()
        } else {
            sorted_unique::<AltOrderItem<T>>(c.contents()) && c.contents().to_set() == seq_views(
                out@,
            ).to_set()
        }),
{
    let mut wrapped: Vec<AltOrderItem<T>> = Vec::with_capacity(out.len());
    let mut k: usize = 0;
    proof {
        assert(seq_views(wrapped@) =~= seq_views(out@).subrange(0, 0));
    }
    while k < out.len()
        invariant
            k <= out@.len(),
            seq_views(wrapped@) == seq_views(out@).subrange(0, k as int),
        decreases out@.len() - k,
    {
        let ghost prev: Seq<AltOrderItem<T>> = wrapped@;
        wrapped.push(AltOrderItem::new(out[k].clone_item()));
        proof {
            assert(seq_views(prev).len() == prev.len());
            assert(prev.len() == k as int);
            assert(wrapped@ == prev.push(wrapped@[prev.len() as int]));
            assert(wrapped@.len() == k as int + 1);
            assert(wrapped@[prev.len() as int]@ == out@[k as int]@);
            assert forall|q: int| 0 <= q < wrapped@.len() implies seq_views(wrapped@)[q]
                == seq_views(out@).subrange(0, k as int + 1)[q] by {
                if q < prev.len() {
                    assert(seq_views(wrapped@)[q] == prev[q]@);
                    assert(seq_views(prev)[q] == prev[q]@);
                }
            }
            assert(seq_views(wrapped@) =~= seq_views(out@).subrange(0, k as int + 1));
        }
        k = k + 1;
    }
    proof {
        assert(seq_views(out@).subrange(0, out@.len() as int) == seq_views(out@));
        assert(seq_views(wrapped@) == seq_views(out@));
    }
    lexi_indicated::<AltOrderItem<T>, C>(wrapped.as_slice(), stable_sort)
}

/// Collect alt-order-wrapped clones and sort with the stable sort.
pub fn cami_stable<T: AltOrd, C: OutCollection<AltOrderItem<T>>>(out: &[T]) -> (r: Result<
    C,
    UsageError,
>)
    ensures
        r is Ok <==> C::has_sort_spec(),
        r matches Ok(c) ==> c.wf() && sorted_le::<AltOrderItem<T>>(c.contents()),
        r matches Ok(c) ==> (if C::allows_multiple_spec() {
            c.contents().to_multiset() == seq_views(out@).to_multiset()
        } else {
            sorted_unique::<AltOrderItem<T>>(c.contents()) && c.contents().to_set() == seq_views(
                out@,
            ).to_set()
        }),
{
    cami_indicated::<T, C>(out, true)
}

/// Collect alt-order-wrapped clones and sort with the unstable sort.
/// A backend without the unstable sort gives a [`UsageError`].
pub fn cami_unstable<T: AltOrd, C: OutCollection<AltOrderItem<T>>>(out: &[T]) -> (r: Result<
    C,
    UsageError,
>)
    ensures
        r is Ok <==> C::has_sort_unstable_spec(),
        r matches Ok(c) ==> c.wf() && sorted_le::<AltOrderItem<T>>(c.contents()),
        r matches Ok(c) ==> (if C::allows_multiple_spec() {
            c.contents().to_multiset() == seq_views(out@).to_multiset()
        } else {
            sorted_unique::<AltOrderItem<T>>(c.contents()) && c.contents().to_set() == seq_views(
                out@,
            ).to_set()
        }),
{
    cami_indicated::<T, C>(out, false)
}

} // verus!
