use ddsketch::BinEncodingMode;
use ddsketch::StoreIter;
use ddsketch::CollapsingLowestDenseStore;
use ddsketch::Error;
use ddsketch::FlagType;
use ddsketch::Input;
use ddsketch::Output;

#[test]
fn test_collapsing_lowest_dense_store_add() {
    let mut store = CollapsingLowestDenseStore::with_capacity(10).unwrap();
    let indexes = vec![
        66, 14, 95, 71, 63, 28, 80, 54, 67, 41, 4, 24, 93, 73, 37, 37, 51, 49, 22, 90,
    ];
    for i in indexes {
        store.add(i, 1);
    }
    assert_eq!(95, store.get_max_index());
    assert_eq!(86, store.get_min_index());
    assert_eq!(20, store.get_total_count());
}

#[test]
fn test_store_capacity_bound_under_wild_indices() {
    let mut store = CollapsingLowestDenseStore::with_capacity(7).unwrap();
    let indexes: Vec<i32> = vec![0, -2000000000, 2000000000, 5, -5, 1000, -1000, 2000000000, 3];
    for i in indexes.iter() {
        store.add(*i, 2);
    }
    assert!(store.get_max_index() as i64 - store.get_min_index() as i64 + 1 <= 7);
    assert_eq!(18, store.get_total_count());
    assert_eq!(2000000000, store.get_max_index());
}

#[test]
fn test_store_collapse_folds_low_buckets() {
    let mut store = CollapsingLowestDenseStore::with_capacity(3).unwrap();
    store.add(1, 4);
    store.add(2, 5);
    store.add(10, 6);
    // Capacity 3 keeps buckets 8, 9 and 10; everything below folds into 8.
    assert_eq!(8, store.get_min_index());
    assert_eq!(10, store.get_max_index());
    assert_eq!(15, store.get_total_count());
    assert_eq!(9, store.get_count_at(8));
    assert_eq!(0, store.get_count_at(9));
    assert_eq!(6, store.get_count_at(10));
    // Once collapsed, lower additions land on the boundary bucket.
    store.add(-100, 7);
    assert_eq!(8, store.get_min_index());
    assert_eq!(16, store.get_count_at(8));
}

#[test]
fn test_store_with_capacity_zero_is_invalid() {
    assert!(matches!(
        CollapsingLowestDenseStore::with_capacity(0),
        Err(Error::InvalidArgument(_))
    ));
}

#[test]
fn test_store_encode_small_sparse() {
    let mut store = CollapsingLowestDenseStore::with_capacity(10).unwrap();
    store.add(0, 1);
    let mut out = Output::new();
    store.encode(&mut out, FlagType::PositiveStore).unwrap();
    // One bucket: the sparse body (1 bin, delta 0, count 1) beats the
    // dense one (1 bin, start 0, step 1, count 1) by one byte.
    assert_eq!(vec![5u8, 1, 0, 2], out.into_vec());
}

#[test]
fn test_store_encode_decode_round_trip() {
    let mut store = CollapsingLowestDenseStore::with_capacity(50).unwrap();
    store.add(3, 1);
    store.add(7, 2);
    store.add(-4, 9);
    store.add(7, 1);
    let mut out = Output::new();
    store.encode(&mut out, FlagType::PositiveStore).unwrap();
    let bytes = out.into_vec();
    let mode = BinEncodingMode::of_flag(bytes[0]).unwrap();
    let body: Vec<u8> = bytes[1..].to_vec();
    let mut fresh = CollapsingLowestDenseStore::with_capacity(50).unwrap();
    let mut input = Input::new(&body);
    fresh.decode_and_merge_with(&mut input, mode).unwrap();
    assert_eq!(13, fresh.get_total_count());
    assert_eq!(1, fresh.get_count_at(3));
    assert_eq!(3, fresh.get_count_at(7));
    assert_eq!(9, fresh.get_count_at(-4));
    assert_eq!(-4, fresh.get_min_index());
    assert_eq!(7, fresh.get_max_index());
}

#[test]
fn test_bin_encoding_mode_flags() {
    assert!(matches!(
        BinEncodingMode::of_flag(5),
        Ok(BinEncodingMode::IndexDeltasAndCounts)
    ));
    assert!(matches!(BinEncodingMode::of_flag(9), Ok(BinEncodingMode::IndexDeltas)));
    assert!(matches!(BinEncodingMode::of_flag(13), Ok(BinEncodingMode::ContiguousCounts)));
    assert!(matches!(BinEncodingMode::of_flag(17), Err(Error::InvalidArgument(_))));
    assert!(matches!(BinEncodingMode::of_flag(0), Err(Error::InvalidArgument(_))));
    let f = BinEncodingMode::ContiguousCounts.to_flag(FlagType::PositiveStore);
    assert_eq!(13, f.get_marker());
    let f = BinEncodingMode::IndexDeltasAndCounts.to_flag(FlagType::NegativeStore);
    assert_eq!(7, f.get_marker());
}

#[test]
fn test_store_iter_ascending_and_descending() {
    let mut store = CollapsingLowestDenseStore::with_capacity(20).unwrap();
    store.add(2, 5);
    store.add(5, 1);
    store.add(9, 4);
    let mut up = StoreIter::new(store.get_min_index(), store.get_max_index(), false);
    assert_eq!(Some((2, 5)), up.next(&store));
    assert_eq!(Some((5, 1)), up.next(&store));
    assert_eq!(Some((9, 4)), up.next(&store));
    assert_eq!(None, up.next(&store));
    let mut down = StoreIter::new(store.get_min_index(), store.get_max_index(), true);
    assert_eq!(Some((9, 4)), down.next(&store));
    assert_eq!(Some((5, 1)), down.next(&store));
    assert_eq!(Some((2, 5)), down.next(&store));
    assert_eq!(None, down.next(&store));
}

#[test]
fn test_store_descending_stream() {
    let mut store = CollapsingLowestDenseStore::with_capacity(20).unwrap();
    assert_eq!(Vec::<(i32, u64)>::new(), store.get_descending_stream());
    store.add(-3, 2);
    store.add(0, 7);
    store.add(11, 1);
    assert_eq!(vec![(11, 1), (0, 7), (-3, 2)], store.get_descending_stream());
}

#[test]
fn test_store_clear() {
    let mut store = CollapsingLowestDenseStore::with_capacity(4).unwrap();
    store.add(1, 3);
    store.add(100, 3);
    store.clear();
    assert!(store.is_empty());
    assert_eq!(0, store.get_total_count());
    store.add(7, 2);
    assert_eq!(7, store.get_min_index());
    assert_eq!(7, store.get_max_index());
    assert_eq!(2, store.get_total_count());
}
