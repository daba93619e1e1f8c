//! Tests of the collection backends, the two orders, and the benchmark
//! bodies that build and sort collections under them.

use cami_benches::col::{cami_indicated, cami_stable, cami_unstable, lexi_indicated, lexi_stable, lexi_unstable};
use cami_benches::outish::{
    binary_search_vec, insert_unique_sorted, is_sorted_vec, sort_vec, AltOrderItem, Out,
    OutCollection, OutCollectionSet, OutCollectionSlice, OutCollectionVec, UsageError,
};
use cami_benches::shared::{data_out, vec_sort_bin_search, vec_sort_bin_search_cami, DataOut};

fn bytes(items: &[u8]) -> Vec<u8> {
    items.to_vec()
}

#[test]
fn vec_backend_keeps_duplicates_and_sorts() {
    let mut col: OutCollectionVec<u8> = OutCollectionVec::with_capacity(4);
    col.extend(&[3, 1, 2, 1]);
    assert_eq!(col.len(), 4);
    assert!(!col.is_sorted());
    assert_eq!(col.sort(), Ok(()));
    assert!(col.is_sorted());
    assert_eq!(*col.get(0), 1);
    assert_eq!(*col.get(1), 1);
    assert_eq!(*col.get(2), 2);
    assert_eq!(*col.get(3), 3);
    assert!(col.binary_search(&2));
    assert!(!col.binary_search(&4));
}

#[test]
fn vec_backend_unstable_sort_also_works() {
    let mut col: OutCollectionVec<u8> = OutCollectionVec::new();
    col.extend(&[9, 0, 5]);
    assert_eq!(col.sort_unstable(), Ok(()));
    assert!(col.is_sorted());
    assert_eq!(col.len(), 3);
}

#[test]
fn set_backend_collapses_duplicates_and_iterates_ascending() {
    let mut col: OutCollectionSet<u8> = OutCollectionSet::new();
    col.extend(&[3, 1, 2, 1, 3]);
    assert_eq!(col.len(), 3);
    assert_eq!(*col.get(0), 1);
    assert_eq!(*col.get(1), 2);
    assert_eq!(*col.get(2), 3);
    // The order check walks the elements; it is not a cached answer.
    assert!(col.is_sorted());
    // The stable sort is a no-op on an order-keeping backend.
    assert_eq!(col.sort(), Ok(()));
    assert_eq!(col.len(), 3);
    assert!(col.binary_search(&1));
    assert!(!col.binary_search(&9));
}

#[test]
fn set_backend_refuses_unstable_sort() {
    let mut col: OutCollectionSet<u8> = OutCollectionSet::new();
    col.extend(&[1, 2]);
    assert_eq!(col.sort_unstable(), Err(UsageError));
    // The refusal left the contents alone.
    assert_eq!(col.len(), 2);
    assert_eq!(*col.get(0), 1);
}

#[test]
fn slice_backend_refuses_stable_sort_but_sorts_unstable() {
    let mut col: OutCollectionSlice<u8> = OutCollectionSlice::new();
    col.extend(&[2, 1, 2]);
    assert_eq!(col.sort(), Err(UsageError));
    assert_eq!(col.len(), 3);
    assert_eq!(*col.get(0), 2);
    assert_eq!(col.sort_unstable(), Ok(()));
    assert!(col.is_sorted());
    assert_eq!(col.len(), 3);
    assert!(col.binary_search(&2));
}

#[test]
fn backends_advertise_their_capabilities() {
    assert!(OutCollectionVec::<u8>::allows_multiple_equal_items());
    assert!(OutCollectionVec::<u8>::has_sort());
    assert!(OutCollectionVec::<u8>::has_sort_unstable());
    assert!(!OutCollectionSet::<u8>::allows_multiple_equal_items());
    assert!(OutCollectionSet::<u8>::has_sort());
    assert!(!OutCollectionSet::<u8>::has_sort_unstable());
    assert!(OutCollectionSlice::<u8>::allows_multiple_equal_items());
    assert!(!OutCollectionSlice::<u8>::has_sort());
    assert!(OutCollectionSlice::<u8>::has_sort_unstable());
}

#[test]
fn clear_empties_every_backend() {
    let mut v: OutCollectionVec<u8> = OutCollectionVec::new();
    v.extend(&[1, 2]);
    v.clear();
    assert_eq!(v.len(), 0);
    let mut s: OutCollectionSet<u8> = OutCollectionSet::new();
    s.extend(&[1, 2]);
    s.clear();
    assert_eq!(s.len(), 0);
    let mut f: OutCollectionSlice<u8> = OutCollectionSlice::new();
    f.extend(&[1, 2]);
    f.clear();
    assert_eq!(f.len(), 0);
}

#[test]
fn sort_vec_orders_bytes() {
    let mut v: Vec<u8> = vec![5, 3, 250, 0, 3];
    assert!(!is_sorted_vec(&v));
    sort_vec(&mut v);
    assert_eq!(v, vec![0, 3, 3, 5, 250]);
    assert!(is_sorted_vec(&v));
    assert!(binary_search_vec(&v, &250));
    assert!(!binary_search_vec(&v, &1));
}

#[test]
fn sort_vec_orders_byte_buffers_lexicographically() {
    let mut v: Vec<Vec<u8>> = vec![bytes(&[2]), bytes(&[1, 9]), bytes(&[1]), bytes(&[])];
    sort_vec(&mut v);
    assert_eq!(v, vec![bytes(&[]), bytes(&[1]), bytes(&[1, 9]), bytes(&[2])]);
}

#[test]
fn sort_vec_orders_strings_lexicographically() {
    let mut v: Vec<String> = vec!["b".to_string(), "aa".to_string(), "".to_string()];
    sort_vec(&mut v);
    assert_eq!(v, vec!["".to_string(), "aa".to_string(), "b".to_string()]);
}

#[test]
fn alt_order_is_shortlex_on_strings() {
    // Lexicographically "aa" < "b"; under the alternative (length-first)
    // order "b" < "aa", so the two orders are observably different.
    let out: Vec<String> = vec!["b".to_string(), "aa".to_string()];
    let lexi: Result<OutCollectionVec<String>, UsageError> = lexi_stable(&out);
    let lexi = match lexi {
        Ok(c) => c,
        Err(_) => panic!(),
    };
    assert_eq!(lexi.get(0).as_str(), "aa");
    assert_eq!(lexi.get(1).as_str(), "b");
    let cami: Result<OutCollectionVec<AltOrderItem<String>>, UsageError> = cami_stable(&out);
    let cami = match cami {
        Ok(c) => c,
        Err(_) => panic!(),
    };
    assert_eq!(cami.get(0).0.as_str(), "b");
    assert_eq!(cami.get(1).0.as_str(), "aa");
}

#[test]
fn alt_order_is_shortlex_on_byte_buffers() {
    let out: Vec<Vec<u8>> = vec![bytes(&[2]), bytes(&[1, 9])];
    let lexi: Result<OutCollectionVec<Vec<u8>>, UsageError> = lexi_unstable(&out);
    match lexi {
        Ok(c) => {
            assert_eq!(*c.get(0), bytes(&[1, 9]));
            assert_eq!(*c.get(1), bytes(&[2]));
        }
        Err(_) => panic!(),
    }
    let cami: Result<OutCollectionVec<AltOrderItem<Vec<u8>>>, UsageError> = cami_unstable(&out);
    match cami {
        Ok(c) => {
            assert_eq!(c.get(0).0, bytes(&[2]));
            assert_eq!(c.get(1).0, bytes(&[1, 9]));
        }
        Err(_) => panic!(),
    }
}

#[test]
fn collectors_report_unsupported_sort_modes() {
    let out: Vec<u8> = vec![3, 1];
    let r: Result<OutCollectionSet<u8>, UsageError> = lexi_unstable(&out);
    assert_eq!(r.err(), Some(UsageError));
    let r: Result<OutCollectionSlice<u8>, UsageError> = lexi_stable(&out);
    assert_eq!(r.err(), Some(UsageError));
    let r: Result<OutCollectionSet<AltOrderItem<u8>>, UsageError> = cami_unstable(&out);
    assert_eq!(r.err(), Some(UsageError));
    let r: Result<OutCollectionSlice<AltOrderItem<u8>>, UsageError> = cami_indicated(&out, true);
    assert_eq!(r.err(), Some(UsageError));
}

#[test]
fn collectors_sort_into_the_requested_order() {
    let out: Vec<u8> = vec![3, 1, 2, 1];
    let r: Result<OutCollectionVec<u8>, UsageError> = lexi_indicated(&out, true);
    match r {
        Ok(c) => {
            assert_eq!(c.len(), 4);
            assert!(c.is_sorted());
        }
        Err(_) => panic!(),
    }
    let r: Result<OutCollectionSet<u8>, UsageError> = lexi_stable(&out);
    match r {
        Ok(c) => {
            assert_eq!(c.len(), 3);
            assert!(c.is_sorted());
        }
        Err(_) => panic!(),
    }
}

#[test]
fn insert_unique_sorted_merges_equal_values() {
    let mut v: Vec<u8> = Vec::new();
    insert_unique_sorted(&mut v, 5);
    insert_unique_sorted(&mut v, 1);
    insert_unique_sorted(&mut v, 5);
    insert_unique_sorted(&mut v, 3);
    assert_eq!(v, vec![1, 3, 5]);
}

#[test]
fn alt_order_item_wraps_by_content() {
    let w = AltOrderItem::new("abc".to_string());
    assert_eq!(w.0.as_str(), "abc");
    let a = AltOrderItem::new(7u8);
    let b = a.clone_item();
    assert!(a.eq_item(&b));
}

#[test]
fn protocol_completes_on_every_supporting_backend() {
    let out: Vec<u8> = vec![9, 1, 128, 1, 30];
    assert_eq!(
        vec_sort_bin_search::<u8, OutCollectionVec<u8>>(&out, true),
        Ok(true)
    );
    assert_eq!(
        vec_sort_bin_search::<u8, OutCollectionVec<u8>>(&out, false),
        Ok(true)
    );
    assert_eq!(
        vec_sort_bin_search::<u8, OutCollectionSet<u8>>(&out, true),
        Ok(true)
    );
    assert_eq!(
        vec_sort_bin_search::<u8, OutCollectionSlice<u8>>(&out, false),
        Ok(true)
    );
    assert_eq!(
        vec_sort_bin_search_cami::<u8, OutCollectionVec<AltOrderItem<u8>>>(&out, true),
        Ok(true)
    );
    assert_eq!(
        vec_sort_bin_search_cami::<u8, OutCollectionSet<AltOrderItem<u8>>>(&out, true),
        Ok(true)
    );
}

#[test]
fn protocol_reports_missing_sort_modes() {
    let out: Vec<u8> = vec![1, 2];
    assert_eq!(
        vec_sort_bin_search::<u8, OutCollectionSet<u8>>(&out, false),
        Err(UsageError)
    );
    assert_eq!(
        vec_sort_bin_search::<u8, OutCollectionSlice<u8>>(&out, true),
        Err(UsageError)
    );
}

#[test]
fn protocol_on_empty_dataset_is_vacuously_true() {
    let out: Vec<u8> = Vec::new();
    assert_eq!(
        vec_sort_bin_search::<u8, OutCollectionVec<u8>>(&out, true),
        Ok(true)
    );
}

#[test]
fn data_out_builds_consistent_collection_set() {
    let own: Vec<u8> = vec![3, 1, 2, 1];
    let d: DataOut<u8, OutCollectionVec<u8>, OutCollectionVec<AltOrderItem<u8>>> = data_out(&own);
    assert_eq!(d.unsorted_vec_classic, vec![3, 1, 2, 1]);
    assert_eq!(d.unsorted_col_classic.len(), 4);
    assert!(!d.unsorted_col_classic.is_sorted());
    assert!(d.sorted_col_classic.is_sorted());
    assert_eq!(d.sorted_col_classic.len(), 4);
    assert_eq!(d.unsorted_vec_cami.len(), 4);
    assert!(is_sorted_vec(&d.sorted_vec_cami));
    assert!(d.sorted_col_cami.is_sorted());
    assert_eq!(d.sorted_col_cami.len(), 4);
}

#[test]
fn data_out_deduplicates_for_a_unique_backend() {
    let own: Vec<u8> = vec![3, 1, 2, 1];
    let d: DataOut<u8, OutCollectionSet<u8>, OutCollectionVec<AltOrderItem<u8>>> = data_out(&own);
    assert_eq!(d.unsorted_vec_classic, vec![1, 2, 3]);
    assert_eq!(d.unsorted_col_classic.len(), 3);
    assert_eq!(d.sorted_col_classic.len(), 3);
    assert_eq!(d.unsorted_vec_cami.len(), 3);
}

#[test]
fn out_capability_compares_bytes() {
    assert!(Out::le(&1u8, &2u8));
    assert!(!Out::le(&2u8, &1u8));
    assert!(3u8.eq_item(&3u8));
    assert!(!3u8.eq_item(&4u8));
    assert_eq!(5u8.clone_item(), 5u8);
}
