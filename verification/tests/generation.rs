//! Tests of the seeded generation pipeline: determinism, the
//! deduplication and minimum-population invariants, seed parsing, and the
//! environment-style numeric settings.

use cami_benches::data::{
    data_own, from_env_or, max_item_len, max_items, min_item_len, min_items, ConfigError,
    OwnAndOut, MIN_POPULATION,
};
use cami_benches::outish::{AltOrderItem, OutCollectionVec};
use cami_benches::parse::{parse_u64_dec, parse_u64_hex, parse_usize_dec};
use cami_benches::rnd::{Random, Rnd};
use cami_benches::shared::{vec_sort_bin_search, vec_sort_bin_search_cami};
use cami_benches::testish::DataTest;

#[test]
fn same_seed_same_byte_dataset() {
    let a = OwnAndOut::<u8, u8>::new_for_rnd(42, 4, 10, 1, 5, true).unwrap_or_else(|_| panic!());
    let b = OwnAndOut::<u8, u8>::new_for_rnd(42, 4, 10, 1, 5, true).unwrap_or_else(|_| panic!());
    assert_eq!(a.own, b.own);
    assert_eq!(a.out, b.out);
}

#[test]
fn same_seed_same_string_dataset() {
    let a = match OwnAndOut::<String, String>::new_for_rnd(7, 4, 10, 1, 8, false) {
        Ok(d) => d,
        Err(e) => panic!(
            "population too small: {} requested, {} generated, {} after dedup",
            e.requested, e.generated, e.after_dedup
        ),
    };
    let b = match OwnAndOut::<String, String>::new_for_rnd(7, 4, 10, 1, 8, false) {
        Ok(d) => d,
        Err(_) => panic!(),
    };
    assert_eq!(a.own, b.own);
    assert_eq!(a.out, b.out);
}

#[test]
fn different_seeds_differ_somewhere() {
    // Not a law of the library, but a sanity check that the seed reaches
    // the stream: over many seeds the datasets cannot all coincide.
    let base = OwnAndOut::<u8, u8>::new_for_rnd(1, 100, 200, 1, 5, true).unwrap_or_else(|_| panic!());
    let mut any_different = false;
    for seed in 2..10u64 {
        let other =
            OwnAndOut::<u8, u8>::new_for_rnd(seed, 100, 200, 1, 5, true).unwrap_or_else(|_| panic!());
        if other.own != base.own {
            any_different = true;
        }
    }
    assert!(any_different);
}

#[test]
fn byte_dataset_count_within_bounds() {
    let d = OwnAndOut::<u8, u8>::new_for_rnd(42, 4, 10, 1, 5, true).unwrap_or_else(|_| panic!());
    assert!(d.own.len() >= 4 && d.own.len() <= 9);
    assert_eq!(d.own.len(), d.out.len());
}

#[test]
fn end_to_end_seed_42_direct_u8_multiset_backend() {
    // Seed parsed from its decimal encoding, count drawn from [4, 10).
    let rnd = match Rnd::with_seed_dec("42") {
        Ok(r) => r,
        Err(_) => panic!(),
    };
    let mut rnd = rnd;
    let d = OwnAndOut::<u8, u8>::new_for_data(&mut rnd, 4, 10, 1, 5, true)
        .unwrap_or_else(|_| panic!());
    assert!(d.out.len() >= 4 && d.out.len() <= 9);
    // Build + sort + search must complete with every assertion true, for
    // the standard order and for the alt-order-wrapped variant, in both
    // sort modes of the multiset-sequence backend.
    assert_eq!(
        vec_sort_bin_search::<u8, OutCollectionVec<u8>>(&d.out, true),
        Ok(true)
    );
    assert_eq!(
        vec_sort_bin_search::<u8, OutCollectionVec<u8>>(&d.out, false),
        Ok(true)
    );
    assert_eq!(
        vec_sort_bin_search_cami::<u8, OutCollectionVec<AltOrderItem<u8>>>(&d.out, true),
        Ok(true)
    );
    assert_eq!(
        vec_sort_bin_search_cami::<u8, OutCollectionVec<AltOrderItem<u8>>>(&d.out, false),
        Ok(true)
    );
}

#[test]
fn string_view_dedup_keeps_distinct_items() {
    // Five generated text buffers with two forced duplicates: the
    // deduplicated output holds the three distinct values, ascending.
    let feed: Vec<String> = ["aa", "bb", "aa", "cc", "bb"]
        .iter()
        .map(|s| s.to_string())
        .collect();
    let mut data = DataTest::new(feed);
    let d = OwnAndOut::<String, String>::new_for_data(&mut data, 4, 10, 1, 5, false)
        .unwrap_or_else(|_| panic!());
    assert_eq!(d.own.len(), 5);
    assert_eq!(d.out.len(), 3);
    assert_eq!(d.out, vec!["aa".to_string(), "bb".to_string(), "cc".to_string()]);
    assert!(3 >= MIN_POPULATION);
}

#[test]
fn population_below_minimum_aborts_with_counts() {
    // All five generated items equal: one distinct value is below the
    // minimum population, and the diagnostic cites all three counts.
    let feed: Vec<String> = vec!["aa".to_string(); 5];
    let mut data = DataTest::new(feed);
    let r = OwnAndOut::<String, String>::new_for_data(&mut data, 4, 10, 1, 5, false);
    match r {
        Ok(_) => panic!(),
        Err(e) => {
            assert_eq!(e.requested, 5);
            assert_eq!(e.generated, 5);
            assert_eq!(e.after_dedup, 1);
        }
    }
}

#[test]
fn multiset_backend_keeps_duplicates() {
    let feed: Vec<String> = ["aa", "bb", "aa"].iter().map(|s| s.to_string()).collect();
    let mut data = DataTest::new(feed);
    let d = OwnAndOut::<String, String>::new_for_data(&mut data, 2, 10, 1, 5, true)
        .unwrap_or_else(|_| panic!());
    assert_eq!(d.out.len(), 3);
    assert_eq!(
        d.out,
        vec!["aa".to_string(), "bb".to_string(), "aa".to_string()]
    );
}

#[test]
fn seed_from_decimal_text() {
    match Rnd::with_seed_dec("42") {
        Ok(r) => assert_eq!(r.state, 42),
        Err(_) => panic!(),
    }
}

#[test]
fn seed_from_hexadecimal_text() {
    match Rnd::with_seed_hex("2A") {
        Ok(r) => assert_eq!(r.state, 42),
        Err(_) => panic!(),
    }
    match Rnd::with_seed_hex("ff") {
        Ok(r) => assert_eq!(r.state, 255),
        Err(_) => panic!(),
    }
}

#[test]
fn seed_text_that_does_not_parse_is_an_error() {
    match Rnd::with_seed_dec("4x2") {
        Ok(_) => panic!(),
        Err(ConfigError::InvalidNumber { text }) => assert_eq!(text, "4x2"),
        Err(_) => panic!(),
    }
    match Rnd::with_seed_hex("") {
        Ok(_) => panic!(),
        Err(ConfigError::InvalidNumber { text }) => assert_eq!(text, ""),
        Err(_) => panic!(),
    }
}

#[test]
fn exactly_one_seed_encoding_is_required() {
    match <Rnd as Random>::with_seed(Some("1"), Some("2")) {
        Err(ConfigError::BothSeeds { dec, hex }) => {
            assert_eq!(dec, "1");
            assert_eq!(hex, "2");
        }
        _ => panic!(),
    }
    match <Rnd as Random>::with_seed(None, None) {
        Err(ConfigError::NoSeed) => {}
        _ => panic!(),
    }
    match <Rnd as Random>::with_seed(Some("42"), None) {
        Ok(r) => assert_eq!(r.state, 42),
        _ => panic!(),
    }
    match <Rnd as Random>::with_seed(None, Some("2a")) {
        Ok(r) => assert_eq!(r.state, 42),
        _ => panic!(),
    }
}

#[test]
fn parse_decimal_values() {
    assert_eq!(parse_u64_dec("0"), Some(0));
    assert_eq!(parse_u64_dec("42"), Some(42));
    assert_eq!(parse_u64_dec("007"), Some(7));
    assert_eq!(parse_u64_dec("18446744073709551615"), Some(u64::MAX));
    assert_eq!(parse_u64_dec("18446744073709551616"), None);
    assert_eq!(parse_u64_dec(""), None);
    assert_eq!(parse_u64_dec("1a"), None);
    assert_eq!(parse_u64_dec("-1"), None);
    assert_eq!(parse_u64_dec(" 1"), None);
}

#[test]
fn parse_hexadecimal_values() {
    assert_eq!(parse_u64_hex("0"), Some(0));
    assert_eq!(parse_u64_hex("2a"), Some(42));
    assert_eq!(parse_u64_hex("2A"), Some(42));
    assert_eq!(parse_u64_hex("deadBEEF"), Some(0xdead_beef));
    assert_eq!(parse_u64_hex("ffffffffffffffff"), Some(u64::MAX));
    assert_eq!(parse_u64_hex("10000000000000000"), None);
    assert_eq!(parse_u64_hex(""), None);
    assert_eq!(parse_u64_hex("g"), None);
}

#[test]
fn parse_machine_size_values() {
    assert_eq!(parse_usize_dec("123"), Some(123));
    assert_eq!(parse_usize_dec(""), None);
}

#[test]
fn numeric_settings_fall_back_to_defaults() {
    assert_eq!(min_items(None), Ok(1000));
    assert_eq!(max_items(None), Ok(500000));
    assert_eq!(min_item_len(None), Ok(1));
    assert_eq!(max_item_len(None), Ok(1000));
}

#[test]
fn numeric_settings_take_supplied_values() {
    assert_eq!(min_items(Some("4")), Ok(4));
    assert_eq!(max_items(Some("10")), Ok(10));
    assert_eq!(from_env_or(Some("12"), 7), Ok(12));
    assert_eq!(from_env_or(None, 7), Ok(7));
}

#[test]
fn numeric_setting_that_does_not_parse_is_an_error() {
    match from_env_or(Some("12x"), 7) {
        Err(ConfigError::InvalidNumber { text }) => assert_eq!(text, "12x"),
        _ => panic!(),
    }
    match max_items(Some("ten")) {
        Err(ConfigError::InvalidNumber { text }) => assert_eq!(text, "ten"),
        _ => panic!(),
    }
}

#[test]
fn generated_strings_respect_length_bounds() {
    let d = OwnAndOut::<String, String>::new_for_rnd(5, 4, 8, 2, 6, true)
        .unwrap_or_else(|_| panic!());
    for s in &d.own {
        let n = s.chars().count();
        assert!(n >= 2 && n < 6);
        assert!(s.chars().all(|c| c.is_ascii_alphanumeric()));
    }
}

#[test]
fn byte_buffer_dataset_respects_length_bounds() {
    // The slice-view representation over owned byte buffers.
    let d = OwnAndOut::<Vec<u8>, Vec<u8>>::new_for_rnd(3, 4, 8, 2, 6, true)
        .unwrap_or_else(|_| panic!());
    assert!(d.own.len() >= 4 && d.own.len() <= 7);
    assert_eq!(d.own, d.out);
    for b in &d.own {
        assert!(b.len() >= 2 && b.len() < 6);
    }
    let e = OwnAndOut::<Vec<u8>, Vec<u8>>::new_for_rnd(3, 4, 8, 2, 6, true)
        .unwrap_or_else(|_| panic!());
    assert_eq!(d.own, e.own);
}

#[test]
fn data_own_draws_the_requested_count() {
    let mut rnd = Rnd::with_seed(9);
    let items: Vec<u8> = data_own(&mut rnd, 4, 10, 1, 5);
    assert!(items.len() >= 4 && items.len() <= 9);
    let mut again = Rnd::with_seed(9);
    let items2: Vec<u8> = data_own(&mut again, 4, 10, 1, 5);
    assert_eq!(items, items2);
    assert_eq!(rnd.state, again.state);
}
