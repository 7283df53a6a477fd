use abd_clam::dataset::VecDataset;
use abd_clam::error::ClamError;
use abd_clam::metric::{cheap, expensive, EuclideanSq, Hamming, Levenshtein, Manhattan, Metric, Named};

/// Euclidean distance in units of 2^-20.
struct Euclidean;

impl Metric<Vec<f64>> for Euclidean {
    fn distance(&self, x: &Vec<f64>, y: &Vec<f64>) -> u64 {
        let d: f64 = distances::vectors::euclidean(x, y);
        (d * 1_048_576.0).round() as u64
    }

    fn one_to_one(&self, x: &Vec<f64>, y: &Vec<f64>) -> u64 {
        self.distance(x, y)
    }

    fn expensive(&self) -> bool {
        self.is_expensive()
    }

    fn is_expensive(&self) -> bool {
        false
    }
}

/// A metric that asks for parallel fan-outs.
struct Costly;

impl Metric<i64> for Costly {
    fn distance(&self, x: &i64, y: &i64) -> u64 {
        x.abs_diff(*y)
    }

    fn one_to_one(&self, x: &i64, y: &i64) -> u64 {
        self.distance(x, y)
    }

    fn expensive(&self) -> bool {
        self.is_expensive()
    }

    fn is_expensive(&self) -> bool {
        true
    }
}

#[test]
fn test_on_two() {
    let a = vec![1, 2, 3];
    let b = vec![3, 3, 1];

    let metric = EuclideanSq { is_expensive: false };
    assert_eq!(metric.one_to_one(&a, &a), 0);
    assert_eq!(metric.one_to_one(&a, &b), 9);

    let metric = Euclidean;
    let (fa, fb) = (vec![1., 2., 3.], vec![3., 3., 1.]);
    assert_eq!(metric.one_to_one(&fa, &fa), 0);
    assert_eq!(metric.one_to_one(&fa, &fb), 3 << 20);

    let metric = Manhattan { is_expensive: false };
    assert_eq!(metric.one_to_one(&a, &a), 0);
    assert_eq!(metric.one_to_one(&a, &b), 5);
}

#[test]
fn test_space() {
    let data = vec![vec![1., 2., 3.], vec![3., 3., 1.]];
    let space = VecDataset::new("test_data".to_string(), data, Euclidean);

    assert_eq!(space.one_to_one(0, 0), 0);
    assert_eq!(space.one_to_one(0, 1), 3 << 20);
    assert_eq!(space.one_to_one(1, 0), 3 << 20);
    assert_eq!(space.one_to_one(1, 1), 0);
}

#[test]
fn hamming_counts_the_coordinates_that_differ() {
    let metric = Hamming { is_expensive: false };
    assert_eq!(metric.one_to_one(&vec![1, 2, 3, 4], &vec![1, 0, 3, 0]), 2);
    assert_eq!(metric.one_to_one(&vec![1, 2, 3, 4], &vec![9]), 1);
    assert_eq!(metric.one_to_one(&vec![], &vec![9]), 0);
}

#[test]
fn sums_stop_at_the_greatest_distance() {
    let far = vec![i32::MAX; 5];
    let near = vec![i32::MIN; 5];
    assert_eq!(Manhattan { is_expensive: false }.one_to_one(&far, &near), 5 * u64::from(u32::MAX));
    assert_eq!(EuclideanSq { is_expensive: false }.one_to_one(&far, &near), u64::MAX);
    assert_eq!(
        EuclideanSq { is_expensive: false }.one_to_one(&vec![i32::MAX], &vec![i32::MIN]),
        u64::from(u32::MAX) * u64::from(u32::MAX)
    );
}

#[test]
fn metrics_are_found_by_name() {
    assert!(matches!(cheap("manhattan"), Some(Named::Manhattan(Manhattan { is_expensive: false }))));
    assert!(matches!(cheap("hamming"), Some(Named::Hamming(Hamming { is_expensive: false }))));
    assert!(matches!(
        expensive("euclideansq"),
        Some(Named::EuclideanSq(EuclideanSq { is_expensive: true }))
    ));
    assert!(cheap("cosine").is_none());
    assert!(expensive("").is_none());
    let metric = cheap("manhattan").unwrap();
    assert_eq!(metric.one_to_one(&vec![0, 0], &vec![3, -4]), 7);
    assert!(!metric.is_expensive());
    assert!(expensive("hamming").unwrap().is_expensive());
}

#[test]
fn fan_outs_keep_the_order_of_the_indices() {
    let data = VecDataset::new("few".to_string(), vec![10i64, -2, 7, 7], Costly);
    assert!(data.is_metric_expensive());
    assert_eq!(data.one_to_many(0, &[3, 1, 0, 2]), vec![3, 12, 0, 3]);
    assert_eq!(data.query_to_many(&0, &[3, 1, 0, 2]), vec![7, 2, 10, 7]);
    let cheap = VecDataset::new("few".to_string(), vec![vec![10], vec![-2], vec![7]], Manhattan {
        is_expensive: false,
    });
    assert_eq!(cheap.one_to_many(0, &[2, 1, 0]), vec![3, 12, 0]);
    assert_eq!(cheap.query_to_many(&vec![0], &[2, 1, 0]), vec![7, 2, 10]);
    assert_eq!(cheap.query_to_one(&vec![1], 1), 3);
}

#[test]
fn the_median_is_the_most_central_instance() {
    let points: Vec<Vec<i32>> = [0, 1, 2, 10, 4].iter().map(|&x| vec![x]).collect();
    let data = VecDataset::new("line".to_string(), points, Manhattan { is_expensive: false });
    // sums of distances: 17, 14, 13, 33, 15
    assert_eq!(data.sum_of_distances(2, &[0, 1, 2, 3, 4]), 13);
    assert_eq!(data.median(&[0, 1, 2, 3, 4]), 2);
    assert_eq!(data.median(&[3, 0]), 0);
    assert_eq!(data.median(&[4, 1, 0]), 1);
    // 0 and 2 are equally central among {0, 1, 2} without 1; the smaller index wins.
    assert_eq!(data.median(&[2, 0]), 0);
}

#[test]
fn a_sample_holds_no_two_equal_instances() {
    let points: Vec<Vec<i32>> = [5, 5, 7, 5, 9, 7, 11].iter().map(|&x| vec![x]).collect();
    let data = VecDataset::new("doubles".to_string(), points, Manhattan { is_expensive: false });
    assert_eq!(data.choose_unique_from(10, &[0, 1, 2, 3, 4, 5, 6]), vec![0, 2, 4, 6]);
    assert_eq!(data.choose_unique_from(2, &[3, 1, 5, 0, 4]), vec![3, 5]);
    assert_eq!(data.choose_unique_from(0, &[3, 1, 5]), Vec::<usize>::new());
    let pool: Vec<usize> = (0..7).collect();
    for seed in [None, Some(1), Some(42)] {
        let chosen = data.choose_unique(3, &pool, seed);
        assert_eq!(chosen.len(), 3);
        let mut values: Vec<i32> = chosen.iter().map(|&i| data.get(i)[0]).collect();
        values.sort();
        values.dedup();
        assert_eq!(values.len(), 3);
    }
    assert_eq!(data.choose_unique(7, &pool, Some(3)).len(), 4);
}

#[test]
fn a_seeded_sample_is_drawn_from_a_shuffled_pool() {
    let points: Vec<Vec<i32>> = (0..100).map(|x| vec![x]).collect();
    let data = VecDataset::new("line".to_string(), points, Manhattan { is_expensive: false });
    let pool: Vec<usize> = (0..100).collect();
    let one = data.choose_unique(10, &pool, Some(42));
    let same = data.choose_unique(10, &pool, Some(42));
    assert_eq!(one, same);
    assert_ne!(one, (0..10).collect::<Vec<usize>>());
    let unseeded = data.choose_unique(10, &pool, None);
    assert_ne!(unseeded, (0..10).collect::<Vec<usize>>());
    let mut all = data.choose_unique(100, &pool, Some(7));
    all.sort();
    assert_eq!(all, pool);
}

#[test]
fn instances_can_be_swapped_and_permuted() {
    let points: Vec<Vec<i32>> = (0..5).map(|x| vec![10 * x]).collect();
    let mut data = VecDataset::new("line".to_string(), points, Manhattan { is_expensive: false });
    assert_eq!(data.cardinality(), 5);
    assert_eq!(data.dimensionality(), 1);
    assert_eq!(data.name(), "line");
    assert_eq!(data.indices(), &vec![0, 1, 2, 3, 4]);
    data.swap(0, 4);
    assert_eq!(data.get(0), &vec![40]);
    assert_eq!(data.get(4), &vec![0]);
    assert_eq!(data.get_reordered_index(0), 0);
    assert_eq!(data.set_permutation(&[2, 0, 1, 4, 3]), Ok(()));
    let now: Vec<i32> = (0..5).map(|i| data.get(i)[0]).collect();
    assert_eq!(now, vec![20, 40, 10, 0, 30]);
    let moved: Vec<usize> = (0..5).map(|i| data.get_reordered_index(i)).collect();
    assert_eq!(moved, vec![1, 2, 0, 4, 3]);
    assert_eq!(data.one_to_one(0, 3), 20);
    assert_eq!(data.set_permutation(&[0, 1, 2, 3]), Err(ClamError::InvalidArgument));
    assert_eq!(data.set_permutation(&[0, 1, 2, 3, 3]), Err(ClamError::InvalidArgument));
    assert_eq!(data.set_permutation(&[0, 1, 2, 3, 5]), Err(ClamError::InvalidArgument));
    let after: Vec<i32> = (0..5).map(|i| data.get(i)[0]).collect();
    assert_eq!(after, now);
}

#[test]
fn distances_between_many_instances() {
    let points: Vec<Vec<i32>> = [0, 3, 3, 10].iter().map(|&x| vec![x]).collect();
    let data = VecDataset::new("line".to_string(), points, Manhattan { is_expensive: false });
    assert_eq!(data.many_to_many(&[0, 3], &[1, 2, 3]), vec![vec![3, 3, 10], vec![7, 7, 0]]);
    assert_eq!(data.pairwise(&[0, 1, 3]), vec![vec![0, 3, 10], vec![3, 0, 7], vec![10, 7, 0]]);
    assert!(data.are_instances_equal(1, 2));
    assert!(!data.are_instances_equal(0, 1));
    assert!(!data.is_metric_expensive());
}

#[test]
fn edits_between_strings_are_counted() {
    let metric = Levenshtein { is_expensive: true };
    assert_eq!(metric.one_to_one(&"kitten".to_string(), &"sitting".to_string()), 3);
    assert_eq!(metric.one_to_one(&"NAJIBEATSPEPPERS".to_string(), &"NAJIBPEPPERSEATS".to_string()), 8);
    assert_eq!(metric.one_to_one(&"".to_string(), &"abc".to_string()), 3);
    assert_eq!(metric.one_to_one(&"abc".to_string(), &"abc".to_string()), 0);
    assert!(metric.is_expensive());
    let words: Vec<String> = ["ACGT", "ACGG", "TTTT", "ACG"].iter().map(|w| w.to_string()).collect();
    let data = VecDataset::new("words".to_string(), words, metric);
    assert_eq!(data.one_to_many(0, &[0, 1, 2, 3]), vec![0, 1, 3, 1]);
}
