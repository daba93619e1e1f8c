//! The benchmark protocol bodies shared by the harness entry points: the
//! precomputed collection set a measured case reads from, and the
//! build–sort–search cycle whose correctness assertions are proved to
//! hold, so a run can only fail loudly, never measure a wrong result.

use crate::col::{cami_indicated, lexi_indicated};
use crate::outish::{
    seq_views, sorted_le, sorted_unique, AltOrd, AltOrderItem, Out, OutCollection, OutFrom,
    OutCollectionSet, UsageError,
};
use vstd::prelude::*;

verus! {

broadcast use vstd::seq_lib::group_to_multiset_ensures;

/// The views of the output items derived from a sequence of owned items
/// through the active representation, element-wise.
pub open spec fn derived_views<OwnType: View, T: OutFrom<OwnType>>(s: Seq<OwnType>) -> Seq<T::V> {
    seq_views(s).map_values(|o: OwnType::V| T::of_own_view(o))
}

/// The derived views are as many as the owned items, one from each.
pub proof fn lemma_derived_views<OwnType: View, T: OutFrom<OwnType>>(s: Seq<OwnType>)
    ensures
        derived_views::<OwnType, T>(s).len() == s.len(),
        forall|i: int|
            0 <= i < s.len() ==> #[trigger] derived_views::<OwnType, T>(s)[i] == T::of_own_view(
                s[i]@,
            ),
{
    assert(seq_views(s).len() == s.len());
}

/// All the collections one benchmark group compares, built once from one
/// owned dataset: the derived output items as a plain vector, as an
/// unsorted and a sorted backend collection under the baseline order, and
/// the same pair (plus plain vectors) with every item wrapped in the
/// alt-order adapter. All but the unsorted fields duplicate work that the
/// measured cases also do themselves; that keeps the measured closures
/// free of setup.
pub struct DataOut<T: AltOrd, C1: OutCollection<T>, C2: OutCollection<AltOrderItem<T>>> {
    pub unsorted_vec_classic: Vec<T>,
    pub unsorted_col_classic: C1,
    /// Baseline ("classic") ordering: lexicographic/derived.
    pub sorted_col_classic: C1,
    pub unsorted_col_cami: C2,
    /// The alternative (cami) ordering: potentially non-lexicographic.
    pub sorted_col_cami: C2,
    pub unsorted_vec_cami: Vec<AltOrderItem<T>>,
    /// The alternative ordering, over a plain vector.
    pub sorted_vec_cami: Vec<AltOrderItem<T>>,
}

/// Builds every collection of one benchmark group from the owned items:
/// derives the output items, removes duplicate-equal ones when the
/// baseline backend forbids them (no guarantee which of two equal items
/// stays), and collects and sorts under both orders. Requires backends
/// with the stable sort, since the sorted fields are sorted with it.
pub fn data_out<
    OwnType: View,
    T: AltOrd + OutFrom<OwnType>,
    C1: OutCollection<T>,
    C2: OutCollection<AltOrderItem<T>>,
>(own_items: &Vec<OwnType>) -> (r: DataOut<T, C1, C2>)
    requires
        C1::has_sort_spec(),
        C2::has_sort_spec(),
    ensures
        ({
            let dv = derived_views::<OwnType, T>(own_items@);
            let base = seq_views(r.unsorted_vec_classic@);
            &&& (if C1::allows_multiple_spec() {
                base == dv
            } else {
                sorted_unique::<T>(base) && base.to_set() == dv.to_set()
            })
            &&& r.unsorted_col_classic.wf()
            &&& (if C1::allows_multiple_spec() {
                r.unsorted_col_classic.contents() == base
            } else {
                sorted_unique::<T>(r.unsorted_col_classic.contents())
                    && r.unsorted_col_classic.contents().to_set() == base.to_set()
            })
            &&& r.sorted_col_classic.wf()
            &&& sorted_le::<T>(r.sorted_col_classic.contents())
            &&& r.sorted_col_classic.contents().to_multiset()
                == r.unsorted_col_classic.contents().to_multiset()
            &&& seq_views(r.unsorted_vec_cami@) == base
            &&& sorted_le::<AltOrderItem<T>>(seq_views(r.sorted_vec_cami@))
            &&& seq_views(r.sorted_vec_cami@).to_multiset() == base.to_multiset()
            &&& r.unsorted_col_cami.wf()
            &&& (if C2::allows_multiple_spec() {
                r.unsorted_col_cami.contents() == base
            } else {
                sorted_unique::<AltOrderItem<T>>(r.unsorted_col_cami.contents())
                    && r.unsorted_col_cami.contents().to_set() == base.to_set()
            })
            &&& r.sorted_col_cami.wf()
            &&& sorted_le::<AltOrderItem<T>>(r.sorted_col_cami.contents())
            &&& r.sorted_col_cami.contents().to_multiset()
                == r.unsorted_col_cami.contents().to_multiset()
        }),
{
    let ghost dv = derived_views::<OwnType, T>(own_items@);
    proof {
        lemma_derived_views::<OwnType, T>(own_items@);
    }
    let mut derived: Vec<T> = Vec::with_capacity(own_items.len());
    let mut k: usize = 0;
    proof {
        assert(seq_views(derived@) =~= dv.subrange(0, 0));
    }
    while k < own_items.len()
        invariant
            k <= own_items@.len(),
            dv == derived_views::<OwnType, T>(own_items@),
            dv.len() == own_items@.len(),
            forall|i: int|
                0 <= i < own_items@.len() ==> #[trigger] dv[i] == T::of_own_view(own_items@[i]@),
            seq_views(derived@) == dv.subrange(0, k as int),
        decreases own_items@.len() - k,
    {
        let ghost prev: Seq<T> = derived@;
        derived.push(T::of_own(&own_items[k]));
        proof {
            assert(seq_views(prev).len() == prev.len());
            assert(prev.len() == k as int);
            assert(derived@ == prev.push(derived@[prev.len() as int]));
            assert(derived@[prev.len() as int]@ == T::of_own_view(own_items@[k as int]@));
            assert forall|q: int| 0 <= q < derived@.len() implies seq_views(derived@)[q]
                == dv.subrange(0, k as int + 1)[q] by {
                if q < prev.len() {
                    assert(seq_views(derived@)[q] == prev[q]@);
                    assert(seq_views(prev)[q] == prev[q]@);
                }
            }
            assert(seq_views(derived@) =~= dv.subrange(0, k as int + 1));
        }
        k = k + 1;
    }
    proof {
        assert(dv.subrange(0, dv.len() as int) == dv);
        assert(seq_views(derived@) == dv);
    }
    let unsorted_vec_classic: Vec<T> = if C1::allows_multiple_equal_items() {
        derived
    } else {
        let mut unique: OutCollectionSet<T> = OutCollectionSet::with_capacity(derived.len());
        unique.extend(derived.as_slice());
        proof {
            assert(seq_views(unique.vec@).to_set() =~= dv.to_set());
        }
        unique.vec
    };

    let mut unsorted_col_classic: C1 = C1::with_capacity(unsorted_vec_classic.len());
    unsorted_col_classic.extend(unsorted_vec_classic.as_slice());
    proof {
        if C1::allows_multiple_spec() {
            assert(unsorted_col_classic.contents() =~= seq_views(unsorted_vec_classic@));
        } else {
            assert(unsorted_col_classic.contents().to_set() =~= seq_views(
                unsorted_vec_classic@,
            ).to_set());
        }
    }

    let mut sorted_col_classic: C1 = C1::with_capacity(unsorted_vec_classic.len());
    sorted_col_classic.extend(unsorted_vec_classic.as_slice());
    proof {
        if C1::allows_multiple_spec() {
            assert(sorted_col_classic.contents() =~= unsorted_col_classic.contents());
        } else {
            crate::outish::lemma_sorted_unique_same_set::<T>(
                sorted_col_classic.contents(),
                unsorted_col_classic.contents(),
            );
        }
    }
    let ghost unsorted_classic_contents = sorted_col_classic.contents();
    let _ = sorted_col_classic.sort();

    let mut unsorted_vec_cami: Vec<AltOrderItem<T>> = Vec::with_capacity(
        unsorted_vec_classic.len(),
    );
    let mut k2: usize = 0;
    proof {
        assert(seq_views(unsorted_vec_cami@) =~= seq_views(unsorted_vec_classic@).subrange(0, 0));
    }
    while k2 < unsorted_vec_classic.len()
        invariant
            k2 <= unsorted_vec_classic@.len(),
            seq_views(unsorted_vec_cami@) == seq_views(unsorted_vec_classic@).subrange(
                0,
                k2 as int,
            ),
        decreases unsorted_vec_classic@.len() - k2,
    {
        let ghost prev: Seq<AltOrderItem<T>> = unsorted_vec_cami@;
        unsorted_vec_cami.push(AltOrderItem::new(unsorted_vec_classic[k2].clone_item()));
        proof {
            assert(seq_views(prev).len() == prev.len());
            assert(prev.len() == k2 as int);
            assert(unsorted_vec_cami@ == prev.push(unsorted_vec_cami@[prev.len() as int]));
            assert forall|q: int| 0 <= q < unsorted_vec_cami@.len() implies seq_views(
                unsorted_vec_cami@,
            )[q] == seq_views(unsorted_vec_classic@).subrange(0, k2 as int + 1)[q] by {
                if q < prev.len() {
                    assert(seq_views(unsorted_vec_cami@)[q] == prev[q]@);
                    assert(seq_views(prev)[q] == prev[q]@);
                }
            }
            assert(seq_views(unsorted_vec_cami@) =~= seq_views(unsorted_vec_classic@).subrange(
                0,
                k2 as int + 1,
            ));
        }
        k2 = k2 + 1;
    }
    proof {
        assert(seq_views(unsorted_vec_classic@).subrange(
            0,
            seq_views(unsorted_vec_classic@).len() as int,
        ) == seq_views(unsorted_vec_classic@));
        assert(seq_views(unsorted_vec_cami@) == seq_views(unsorted_vec_classic@));
    }

    let mut sorted_vec_cami: Vec<AltOrderItem<T>> = Vec::with_capacity(unsorted_vec_cami.len());
    let mut k3: usize = 0;
    proof {
        assert(seq_views(sorted_vec_cami@) =~= seq_views(unsorted_vec_cami@).subrange(0, 0));
    }
    while k3 < unsorted_vec_cami.len()
        invariant
            k3 <= unsorted_vec_cami@.len(),
            seq_views(sorted_vec_cami@) == seq_views(unsorted_vec_cami@).subrange(0, k3 as int),
        decreases unsorted_vec_cami@.len() - k3,
    {
        let ghost prev: Seq<AltOrderItem<T>> = sorted_vec_cami@;
        sorted_vec_cami.push(unsorted_vec_cami[k3].clone_item());
        proof {
            assert(seq_views(prev).len() == prev.len());
            assert(prev.len() == k3 as int);
            assert(sorted_vec_cami@ == prev.push(sorted_vec_cami@[prev.len() as int]));
            assert forall|q: int| 0 <= q < sorted_vec_cami@.len() implies seq_views(
                sorted_vec_cami@,
            )[q] == seq_views(unsorted_vec_cami@).subrange(0, k3 as int + 1)[q] by {
                if q < prev.len() {
                    assert(seq_views(sorted_vec_cami@)[q] == prev[q]@);
                    assert(seq_views(prev)[q] == prev[q]@);
                }
            }
            assert(seq_views(sorted_vec_cami@) =~= seq_views(unsorted_vec_cami@).subrange(
                0,
                k3 as int + 1,
            ));
        }
        k3 = k3 + 1;
    }
    proof {
        assert(seq_views(unsorted_vec_cami@).subrange(
            0,
            seq_views(unsorted_vec_cami@).len() as int,
        ) == seq_views(unsorted_vec_cami@));
        assert(seq_views(sorted_vec_cami@) == seq_views(unsorted_vec_cami@));
    }
    crate::outish::sort_vec(&mut sorted_vec_cami);

    let mut unsorted_col_cami: C2 = C2::with_capacity(unsorted_vec_cami.len());
    unsorted_col_cami.extend(unsorted_vec_cami.as_slice());
    proof {
        if C2::allows_multiple_spec() {
            assert(unsorted_col_cami.contents() =~= seq_views(unsorted_vec_cami@));
        } else {
            assert(unsorted_col_cami.contents().to_set() =~= seq_views(
                unsorted_vec_cami@,
            ).to_set());
        }
    }

    let mut sorted_col_cami: C2 = C2::with_capacity(unsorted_vec_cami.len());
    sorted_col_cami.extend(unsorted_vec_cami.as_slice());
    proof {
        if C2::allows_multiple_spec() {
            assert(sorted_col_cami.contents() =~= unsorted_col_cami.contents());
        } else {
            crate::outish::lemma_sorted_unique_same_set::<AltOrderItem<T>>(
                sorted_col_cami.contents(),
                unsorted_col_cami.contents(),
            );
        }
    }
    let _ = sorted_col_cami.sort();

    DataOut {
        unsorted_vec_classic,
        unsorted_col_classic,
        sorted_col_classic,
        unsorted_col_cami,
        sorted_col_cami,
        unsorted_vec_cami,
        sorted_vec_cami,
    }
}

/// One timed case of the benchmark protocol, under the baseline order:
/// build a collection from the output dataset, sort it in the requested
/// mode, re-verify the order, and binary-search every original item
/// against the sorted result. The run can fail only by a backend lacking
/// the requested sort mode; when it runs, every assertion holds: the
/// result is `Ok(true)`, never a quietly wrong measurement.
pub fn vec_sort_bin_search<T: Out, C: OutCollection<T>>(out: &Vec<T>, stable_sort: bool) -> (r:
    Result<bool, UsageError>)
    ensures
        r is Ok <==> (if stable_sort {
            C::has_sort_spec()
        } else {
            C::has_sort_unstable_spec()
        }),
        r matches Ok(b) ==> b,
{
    let col: Result<C, UsageError> = lexi_indicated::<T, C>(out.as_slice(), stable_sort);
    match col {
        Err(e) => Err(e),
        Ok(col) => {
            let sorted_ok = col.is_sorted();
            let mut all_found = true;
            let mut i: usize = 0;
            while i < out.len()
                invariant
                    i <= out@.len(),
                    col.wf(),
                    sorted_le::<T>(col.contents()),
                    C::allows_multiple_spec() ==> col.contents().to_multiset() == seq_views(
                        out@,
                    ).to_multiset(),
                    !C::allows_multiple_spec() ==> col.contents().to_set() == seq_views(
                        out@,
                    ).to_set(),
                    all_found,
                decreases out@.len() - i,
            {
                let found = col.binary_search(&out[i]);
                proof {
                    assert(seq_views(out@)[i as int] == out@[i as int]@);
                    assert(seq_views(out@).contains(out@[i as int]@));
                    if C::allows_multiple_spec() {
                        assert(seq_views(out@).to_multiset().count(out@[i as int]@) > 0);
                        assert(col.contents().contains(out@[i as int]@));
                    } else {
                        assert(seq_views(out@).to_set().contains(out@[i as int]@));
                        assert(col.contents().to_set().contains(out@[i as int]@));
                        assert(col.contents().contains(out@[i as int]@));
                    }
                }
                all_found = all_found && found;
                i = i + 1;
            }
            Ok(sorted_ok && all_found)
        },
    }
}

/// One timed case of the benchmark protocol, under the alternative order:
/// as [`vec_sort_bin_search`], with every collected item and every probe
/// wrapped in the alt-order adapter. Again the assertions are proved:
/// when the backend supports the mode, the result is `Ok(true)`.
pub fn vec_sort_bin_search_cami<T: AltOrd, C: OutCollection<AltOrderItem<T>>>(
    out: &Vec<T>,
    stable_sort: bool,
) -> (r: Result<bool, UsageError>)
    ensures
        r is Ok <==> (if stable_sort {
            C::has_sort_spec()
        } else {
            C::has_sort_unstable_spec()
        }),
        r matches Ok(b) ==> b,
{
    let col: Result<C, UsageError> = cami_indicated::<T, C>(out.as_slice(), stable_sort);
    match col {
        Err(e) => Err(e),
        Ok(col) => {
            let sorted_ok = col.is_sorted();
            let mut all_found = true;
            let mut i: usize = 0;
            while i < out.len()
                invariant
                    i <= out@.len(),
                    col.wf(),
                    sorted_le::<AltOrderItem<T>>(col.contents()),
                    C::allows_multiple_spec() ==> col.contents().to_multiset() == seq_views(
                        out@,
                    ).to_multiset(),
                    !C::allows_multiple_spec() ==> col.contents().to_set() == seq_views(
                        out@,
                    ).to_set(),
                    all_found,
                decreases out@.len() - i,
            {
                let probe = AltOrderItem::new(out[i].clone_item());
                let found = col.binary_search(&probe);
                proof {
                    assert(probe@ == out@[i as int]@);
                    assert(seq_views(out@)[i as int] == out@[i as int]@);
                    assert(seq_views(out@).contains(out@[i as int]@));
                    if C::allows_multiple_spec() {
                        assert(seq_views(out@).to_multiset().count(out@[i as int]@) > 0);
                        assert(col.contents().contains(out@[i as int]@));
                    } else {
                        assert(seq_views(out@).to_set().contains(out@[i as int]@));
                        assert(col.contents().to_set().contains(out@[i as int]@));
                        assert(col.contents().contains(out@[i as int]@));
                    }
                }
                all_found = all_found && found;
                i = i + 1;
            }
            Ok(sorted_ok && all_found)
        },
    }
}

} // verus!
