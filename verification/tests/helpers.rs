use abd_clam::criteria::PartitionCriteria;
use abd_clam::error::ClamError;
use abd_clam::geometry::{across, apart, inside};
use abd_clam::helpers::{arg_max, arg_min, compute_lfd, isqrt, Lfd};
use abd_clam::knn::{grown_radius, proposed_radius};
use abd_clam::layout::{column_offset, column_place, data_start, has_buffers_for, row_size_in_bytes};
use abd_clam::nearest::{cut_ties, nearest_of};
use abd_clam::sieve::insert_hit;

#[test]
fn arg_min_takes_first_of_equal_values() {
    assert_eq!(arg_min(&[3, 1, 2, 1]), (1, 1));
    assert_eq!(arg_min(&[7]), (0, 7));
}

#[test]
fn arg_max_takes_first_of_equal_values() {
    assert_eq!(arg_max(&[3, 7, 2, 7]), (1, 7));
    assert_eq!(arg_max(&[0, 0]), (0, 0));
}

#[test]
fn extremes_of_any_ordered_type() {
    assert_eq!(arg_max(&[1.5, 3.0, 2.0, 3.0]), (1, 3.0));
    assert_eq!(arg_min(&[1.5, -3.0, 2.0, -3.0]), (1, -3.0));
    assert_eq!(arg_max(&['a', 'z', 'q']), (1, 'z'));
    assert_eq!(arg_min(&[(2, 1), (1, 9), (1, 3)]), (2, (1, 3)));
}

#[test]
fn integer_square_roots() {
    assert_eq!(isqrt(0), 0);
    assert_eq!(isqrt(1), 1);
    assert_eq!(isqrt(99), 9);
    assert_eq!(isqrt(100), 10);
    assert_eq!(isqrt(10_000), 100);
    assert_eq!(isqrt(usize::MAX), 4_294_967_295);
}

#[test]
fn fractal_dimension_counts_the_inner_half() {
    // four distances, two of them within half the radius: log2(4 / 2)
    assert_eq!(compute_lfd(&[0, 5, 6, 10], 10), Lfd { count: 4, half_count: 2 });
    // none within half the radius: one, that is log2(2 / 1)
    assert_eq!(compute_lfd(&[6, 7, 10], 10), Lfd { count: 2, half_count: 1 });
    // radius zero: one
    assert_eq!(compute_lfd(&[0, 0, 0], 0), Lfd { count: 2, half_count: 1 });
    // half of an odd radius is rounded down
    assert_eq!(compute_lfd(&[3, 4, 7], 7), Lfd { count: 3, half_count: 1 });
    assert_eq!(compute_lfd(&[], 7), Lfd { count: 2, half_count: 1 });
}

#[test]
fn balls_apart_and_inside() {
    assert!(apart(11, 4, 6));
    assert!(!apart(10, 4, 6));
    assert!(inside(2, 4, 6));
    assert!(!inside(3, 4, 6));
    assert!(!apart(u64::MAX, u64::MAX, 1));
    assert!(!inside(1, u64::MAX, u64::MAX));
}

#[test]
fn the_bisector_test_does_not_overflow() {
    // (3 + 5)(5 - 3) = 16 <= 2 * 4 * 2
    assert!(across(3, 5, 4, 2));
    // 16 > 2 * 4 * 1
    assert!(!across(3, 5, 4, 1));
    // (2 + 5)(5 - 2) = 21 <= 2 * 11 * 1 = 22, and 21 > 2 * 10 * 1
    assert!(across(2, 5, 11, 1));
    assert!(!across(2, 5, 10, 1));
    assert!(across(7, 7, 0, 0));
    assert!(across(0, u64::MAX, u64::MAX, u64::MAX));
    assert!(!across(0, u64::MAX, u64::MAX, u64::MAX / 2));
    assert!(across(0, u64::MAX - 1, u64::MAX, u64::MAX / 2));
}

#[test]
fn criteria_combine_their_tests() {
    let strict = PartitionCriteria::new(true);
    assert_eq!(strict.min_cardinality, Some(2));
    assert!(strict.check_all);
    let lenient = PartitionCriteria::new(false);
    assert_eq!(lenient.min_cardinality, Some(1));
    assert!(!lenient.check_all);
    assert_eq!(PartitionCriteria::default(), strict);
    let all = strict.with_max_depth(3).with_min_cardinality(1).with_min_radius(10);
    assert_eq!(all.max_depth, Some(3));
    assert_eq!(all.min_cardinality, Some(1));
    assert_eq!(all.min_radius, Some(10));
}

#[test]
fn the_radius_grows_by_more_than_nothing_and_at_most_twofold() {
    assert_eq!(grown_radius(10, 0), 11);
    assert_eq!(grown_radius(10, 15), 15);
    assert_eq!(grown_radius(10, 20), 20);
    assert_eq!(grown_radius(10, 21), 20);
    assert_eq!(grown_radius(0, 0), 1);
    assert_eq!(grown_radius(0, 9), 1);
    assert_eq!(grown_radius(u64::MAX - 1, 3), u64::MAX);
    assert_eq!(grown_radius(u64::MAX, 3), u64::MAX);
    assert_eq!(grown_radius(u64::MAX / 2 + 1, u64::MAX), u64::MAX);
}

#[test]
fn the_nearest_are_cut_with_their_ties() {
    let hits = vec![(4, 9), (2, 3), (7, 3), (1, 5), (0, 5), (9, 1)];
    assert_eq!(nearest_of(hits.clone(), 1), vec![(9, 1)]);
    assert_eq!(nearest_of(hits.clone(), 2), vec![(9, 1), (2, 3), (7, 3)]);
    assert_eq!(nearest_of(hits.clone(), 3), vec![(9, 1), (2, 3), (7, 3)]);
    assert_eq!(nearest_of(hits.clone(), 4), vec![(9, 1), (2, 3), (7, 3), (0, 5), (1, 5)]);
    assert_eq!(nearest_of(hits.clone(), 6).len(), 6);
    assert_eq!(nearest_of(hits.clone(), 60).last(), Some(&(4, 9)));
    assert_eq!(nearest_of(hits, 0), vec![]);
    assert_eq!(cut_ties(vec![(1, 1), (2, 1), (3, 2)], 1), vec![(1, 1), (2, 1)]);
}

#[test]
fn hits_are_put_in_their_place() {
    let mut pool = vec![];
    for h in [(4, 9), (2, 3), (7, 3), (1, 5), (0, 5), (9, 1)] {
        insert_hit(&mut pool, h);
    }
    assert_eq!(pool, vec![(9, 1), (2, 3), (7, 3), (0, 5), (1, 5), (4, 9)]);
}

#[test]
fn errors_say_what_they_are() {
    assert_eq!(ClamError::InvalidLifecycle.message(), "operation out of order");
    assert_eq!(ClamError::InvalidArgument.message(), "invalid argument");
}

#[test]
fn columns_are_found_in_their_batches() {
    // 12 bytes of header and 100 of metadata, their remainder by eight, four bytes more
    assert_eq!(data_start(100), 112 + 0 + 4);
    assert_eq!(data_start(103), 115 + 3 + 4);
    assert_eq!(data_start(u32::MAX), 4_294_967_307 + 3 + 4);
    assert_eq!(row_size_in_bytes(50, 4), Some(200));
    assert_eq!(row_size_in_bytes(0, 4), Some(0));
    assert_eq!(row_size_in_bytes(7, 0), Some(0));
    assert_eq!(row_size_in_bytes(usize::MAX, 2), None);
    assert_eq!(row_size_in_bytes(usize::MAX / 2, 2), Some(usize::MAX - 1));
    // the eleventh column of batches of four: the third column of the third batch
    assert_eq!(column_place(10, 4, 8).unwrap(), (2, 5));
    assert_eq!(column_place(3, 4, 8).unwrap(), (0, 7));
    assert_eq!(column_place(3, 4, 7).unwrap_err().message(), "No such column");
    assert_eq!(column_place(3, 0, 8).unwrap_err().message(), "The batches hold no column");
    assert_eq!(column_offset(128, 64).unwrap(), 192);
    assert!(column_offset(128, -1).is_err());
    assert!(column_offset(u64::MAX, 1).is_err());
    assert_eq!(column_offset(u64::MAX - 1, 1).unwrap(), u64::MAX);
    assert!(has_buffers_for(8, 4));
    assert!(!has_buffers_for(7, 4));
    assert!(!has_buffers_for(9, 4));
    assert!(has_buffers_for(0, 0));
}

#[test]
fn the_next_radius_is_proposed_where_whole_numbers_can_tell_it() {
    let one = Lfd { count: 2, half_count: 1 };
    // dimension one: the radius times k over the hits
    assert_eq!(proposed_radius(100, 5, 4, one), 125);
    assert_eq!(proposed_radius(100, 7, 2, Lfd { count: 6, half_count: 3 }), 350);
    assert_eq!(proposed_radius(100, 5, 0, one), 500);
    assert_eq!(proposed_radius(7, 3, 2, one), 10);
    assert_eq!(proposed_radius(u64::MAX, 3, 2, one), u64::MAX);
    // any other dimension: the greatest radius, cut to twice the radius
    assert_eq!(proposed_radius(100, 5, 4, Lfd { count: 3, half_count: 1 }), u64::MAX);
    assert_eq!(grown_radius(100, proposed_radius(100, 5, 4, Lfd { count: 3, half_count: 1 })), 200);
    assert_eq!(grown_radius(100, proposed_radius(100, 5, 4, one)), 125);
    assert_eq!(grown_radius(100, proposed_radius(100, 9, 4, one)), 200);
}
