use std::{cmp::Ordering, collections::HashSet};

use abd_clam::cakes::Cakes;
use abd_clam::criteria::PartitionCriteria;
use abd_clam::dataset::VecDataset;
use abd_clam::error::ClamError;
use abd_clam::metric::{Levenshtein, Manhattan, Metric};
use abd_clam::knn::{first_radius, repeated_rnn_step, Step};
use abd_clam::{knn, rnn};
use symagen::random_data;

/// One unit of distance, in units of the metric below.
const UNIT: f64 = 1_048_576.0;

/// Euclidean distance in units of 2^-20.
struct Euclidean;

impl Metric<Vec<f32>> for Euclidean {
    fn distance(&self, x: &Vec<f32>, y: &Vec<f32>) -> u64 {
        let d: f32 = distances::vectors::euclidean(x, y);
        (f64::from(d) * UNIT).round() as u64
    }

    fn one_to_one(&self, x: &Vec<f32>, y: &Vec<f32>) -> u64 {
        self.distance(x, y)
    }

    fn expensive(&self) -> bool {
        self.is_expensive()
    }

    fn is_expensive(&self) -> bool {
        false
    }
}

fn scaled(radius: f64) -> u64 {
    (radius * UNIT).round() as u64
}

fn diagonal() -> Vec<Vec<f32>> {
    vec![vec![0., 0.], vec![1., 1.], vec![2., 2.], vec![3., 3.]]
}

fn line() -> Vec<Vec<f32>> {
    (-100..=100).map(|x| vec![x as f32]).collect::<Vec<_>>()
}

#[test]
fn mod_test_search() {
    let data = diagonal();

    let name = "test".to_string();
    let dataset = VecDataset::new(name, data, Euclidean);
    let criteria = PartitionCriteria::new(true);
    let cakes = Cakes::new(dataset, None, criteria).unwrap();

    let query = vec![0., 1.];
    let (results, distances): (Vec<_>, Vec<_>) =
        cakes.rnn_search(&query, scaled(1.5), rnn::Algorithm::Clustered).into_iter().unzip();
    assert_eq!(results.len(), 2);
    assert_eq!(distances, vec![scaled(1.0), scaled(1.0)]);

    let result_points = results.iter().map(|&i| cakes.data().get(i).clone()).collect::<Vec<_>>();
    assert!(result_points.contains(&vec![0., 0.]));
    assert!(result_points.contains(&vec![1., 1.]));

    let query = vec![1., 1.];
    let (results, distances): (Vec<_>, Vec<_>) =
        cakes.rnn_search(&query, 0, rnn::Algorithm::Clustered).into_iter().unzip();
    assert_eq!(results.len(), 1);
    assert_eq!(distances, vec![0]);

    assert!(results.iter().map(|&i| cakes.data().get(i).clone()).any(|x| x == [1., 1.].as_slice()));
}

#[test]
fn cakes_test_search() {
    let dataset = VecDataset::new("test_search".to_string(), diagonal(), Euclidean);
    let cakes = Cakes::new(dataset, None, PartitionCriteria::new(true)).unwrap();

    let query = vec![0., 1.];
    let (results, _): (Vec<_>, Vec<_>) =
        cakes.rnn_search(&query, scaled(1.5), rnn::Algorithm::Clustered).into_iter().unzip();
    assert_eq!(results.len(), 2);
    assert!(results.contains(&0));
    assert!(results.contains(&1));
    assert!(!results.contains(&2));
    assert!(!results.contains(&3));

    let query = cakes.data().get(1).clone();
    let (results, _): (Vec<_>, Vec<_>) =
        cakes.rnn_search(&query, 0, rnn::Algorithm::Clustered).into_iter().unzip();
    assert_eq!(results.len(), 1);
    assert!(!results.contains(&0));
    assert!(results.contains(&1));
    assert!(!results.contains(&2));
    assert!(!results.contains(&3));
}

#[test]
fn rnn_search() {
    let data = VecDataset::new("test".to_string(), line(), Euclidean);
    let criteria = PartitionCriteria::new(true);
    let cakes = Cakes::new(data, Some(42), criteria).unwrap();

    let queries = (-10..=10).step_by(2).map(|x| vec![x as f32]).collect::<Vec<_>>();
    for v in [2, 10, 50] {
        let radius = scaled(f64::from(v));
        let n_hits = 1 + 2 * v as usize;

        for (i, query) in queries.iter().enumerate() {
            let linear_hits = {
                let mut hits = cakes.rnn_search(query, radius, rnn::Algorithm::Linear);
                hits.sort_by(|(_, a), (_, b)| a.partial_cmp(b).unwrap_or(Ordering::Greater));
                hits
            };
            assert_eq!(
                n_hits,
                linear_hits.len(),
                "Failed linear search: query: {i}, radius: {radius}, linear: {linear_hits:?}",
            );

            let ranged_hits = {
                let mut hits = cakes.rnn_search(query, radius, rnn::Algorithm::Clustered);
                hits.sort_by(|(_, a), (_, b)| a.partial_cmp(b).unwrap_or(Ordering::Greater));
                hits
            };
            assert_eq!(n_hits, ranged_hits.len());
            let linear_indices = linear_hits.iter().map(|&(i, _)| i).collect::<HashSet<_>>();
            let ranged_indices = ranged_hits.iter().map(|&(i, _)| i).collect::<HashSet<_>>();
            let diff = linear_indices.difference(&ranged_indices).copied().collect::<Vec<_>>();
            assert!(
                diff.is_empty(),
                "Failed Clustered search: query: {i}, radius: {radius}\nlnn: {linear_indices:?}\nrnn: {ranged_indices:?}\ndiff: {diff:?}",
            );
            assert_eq!(linear_indices, ranged_indices);
        }
    }
}

#[test]
fn rnn_vectors() {
    let seed = 42;
    let (cardinality, dimensionality) = (10_000, 100);
    let (min_val, max_val) = (-1., 1.);

    let data = random_data::random_f32(cardinality, dimensionality, min_val, max_val, seed);

    let num_queries = 100;
    let queries = random_data::random_f32(num_queries, dimensionality, min_val, max_val, seed + 1);

    let name = format!("test-euclidean");
    let data = VecDataset::new(name, data.clone(), Euclidean);
    let cakes = Cakes::new(data, Some(seed), PartitionCriteria::default()).unwrap();

    for radius in [0.0, 0.05, 0.1, 0.25, 0.5] {
        let radius = scaled(radius);
        for (i, query) in queries.iter().enumerate() {
            let linear_hits = {
                let mut hits = cakes.rnn_search(query, radius, rnn::Algorithm::Linear);
                hits.sort_by(|(_, a), (_, b)| a.partial_cmp(b).unwrap_or(Ordering::Greater));
                hits
            };

            let ranged_hits = {
                let mut hits = cakes.rnn_search(query, radius, rnn::Algorithm::Clustered);
                hits.sort_by(|(_, a), (_, b)| a.partial_cmp(b).unwrap_or(Ordering::Greater));
                hits
            };
            let linear_indices = linear_hits.iter().map(|&(i, _)| i).collect::<HashSet<_>>();
            let ranged_indices = ranged_hits.iter().map(|&(i, _)| i).collect::<HashSet<_>>();
            let diff = linear_indices.difference(&ranged_indices).copied().collect::<Vec<_>>();
            assert!(
                diff.is_empty(),
                "Failed Clustered search: query: {i}, radius: {radius}\nlnn: {linear_indices:?}\nrnn: {ranged_indices:?}\ndiff: {diff:?}",
            );
        }
    }
}

#[test]
fn rnn_strings() {
    let seed = 42;
    let (cardinality, alphabet) = (1_000, "ACTG");
    let (min_len, max_len) = (100, 100);

    let data = random_data::random_string(cardinality, min_len, max_len, alphabet, seed);

    let num_queries = 10;
    let queries = random_data::random_string(num_queries, min_len, max_len, alphabet, seed + 1);

    let name = format!("test-levenshtein");
    let data = VecDataset::new(name, data.clone(), Levenshtein { is_expensive: false });
    let cakes = Cakes::new(data, Some(42), PartitionCriteria::default()).unwrap();

    for radius in [1, 5, 10, 25] {
        for (i, query) in queries.iter().enumerate() {
            let linear_hits = {
                let mut hits = cakes.rnn_search(query, radius, rnn::Algorithm::Linear);
                hits.sort_by(|(_, a), (_, b)| a.partial_cmp(b).unwrap_or(Ordering::Greater));
                hits
            };

            let ranged_hits = {
                let mut hits = cakes.rnn_search(query, radius, rnn::Algorithm::Clustered);
                hits.sort_by(|(_, a), (_, b)| a.partial_cmp(b).unwrap_or(Ordering::Greater));
                hits
            };
            let linear_indices = linear_hits.iter().map(|&(i, _)| i).collect::<HashSet<_>>();
            let ranged_indices = ranged_hits.iter().map(|&(i, _)| i).collect::<HashSet<_>>();
            let diff = linear_indices.difference(&ranged_indices).copied().collect::<Vec<_>>();
            assert!(
                diff.is_empty(),
                "Failed Clustered search: query: {i}, radius: {radius}\nlnn: {linear_indices:?}\nrnn: {ranged_indices:?}\ndiff: {diff:?}",
            );
        }
    }
}

#[test]
fn the_three_nearest_neighbour_searches_agree() {
    let data = VecDataset::new("line".to_string(), line(), Euclidean);
    let criteria = PartitionCriteria::new(true).with_min_cardinality(1);
    let cakes = Cakes::new(data, Some(42), criteria).unwrap();
    for k in [1, 2, 3, 7, 50, 201] {
        for q in [-100.0f32, -7.25, 0.0, 0.5, 33.0, 250.0] {
            let query = vec![q];
            let linear = cakes.knn_search(&query, k, knn::Algorithm::Linear).unwrap();
            let repeated = cakes.knn_search(&query, k, knn::Algorithm::RepeatedRnn).unwrap();
            let sieve = cakes.knn_search(&query, k, knn::Algorithm::Sieve).unwrap();
            assert!(linear.len() >= k);
            assert_eq!(linear, repeated);
            assert!(sieve.len() >= k);
            assert!(sieve.iter().all(|h| linear.contains(h)));
            let farthest = sieve.last().unwrap().1;
            assert!(linear.iter().all(|h| sieve.contains(h) || h.1 >= farthest));
        }
    }
}

#[test]
fn nearest_neighbours_come_nearest_first_with_ties() {
    let data = VecDataset::new("line".to_string(), line(), Euclidean);
    let cakes = Cakes::new(data, None, PartitionCriteria::new(true)).unwrap();
    // 0.0 is at position 100; 1.0 and -1.0 are equally far from it.
    let hits = cakes.knn_search(&vec![0.0], 2, knn::Algorithm::Linear).unwrap();
    assert_eq!(hits, vec![(100, 0), (99, scaled(1.0)), (101, scaled(1.0))]);
    let hits = cakes.knn_by_rnn(&vec![0.0], 2).unwrap();
    assert_eq!(hits, vec![(100, 0), (99, scaled(1.0)), (101, scaled(1.0))]);
    let hits = cakes.knn_search(&vec![0.25], 2, knn::Algorithm::Sieve).unwrap();
    assert_eq!(hits, vec![(100, scaled(0.25)), (101, scaled(0.75))]);
}

#[test]
fn asking_for_more_neighbours_than_there_are_gives_all() {
    let data = VecDataset::new("diagonal".to_string(), diagonal(), Euclidean);
    let cakes = Cakes::new(data, None, PartitionCriteria::new(true)).unwrap();
    for algorithm in [knn::Algorithm::Linear, knn::Algorithm::RepeatedRnn, knn::Algorithm::Sieve] {
        let hits = cakes.knn_search(&vec![3.0, 3.0], 10, algorithm).unwrap();
        let indices: Vec<usize> = hits.iter().map(|h| h.0).collect();
        assert_eq!(indices, vec![3, 2, 1, 0]);
    }
}

#[test]
fn asking_for_no_neighbours_is_refused() {
    let data = VecDataset::new("diagonal".to_string(), diagonal(), Euclidean);
    let cakes = Cakes::new(data, None, PartitionCriteria::new(true)).unwrap();
    for algorithm in [knn::Algorithm::Linear, knn::Algorithm::RepeatedRnn, knn::Algorithm::Sieve] {
        assert_eq!(cakes.knn_search(&vec![3.0, 3.0], 0, algorithm), Err(ClamError::InvalidArgument));
    }
}

#[test]
fn an_empty_dataset_is_refused() {
    let data = VecDataset::new("none".to_string(), Vec::<Vec<f32>>::new(), Euclidean);
    assert!(matches!(
        Cakes::new(data, None, PartitionCriteria::new(true)),
        Err(ClamError::InvalidArgument)
    ));
}

#[test]
fn radius_zero_finds_the_instances_at_distance_zero() {
    let mut points = diagonal();
    points.push(vec![1., 1.]);
    points.push(vec![1., 1.]);
    let data = VecDataset::new("doubles".to_string(), points, Euclidean);
    let cakes = Cakes::new(data, None, PartitionCriteria::new(true).with_min_cardinality(1)).unwrap();
    for algorithm in [rnn::Algorithm::Linear, rnn::Algorithm::Clustered] {
        let mut hits = cakes.rnn_search(&vec![1., 1.], 0, algorithm);
        hits.sort();
        let instances: Vec<Vec<f32>> = hits.iter().map(|h| cakes.data().get(h.0).clone()).collect();
        assert_eq!(instances, vec![vec![1., 1.]; 3]);
        assert!(hits.iter().all(|h| h.1 == 0));
    }
}

#[test]
fn batches_answer_each_query_in_turn() {
    let data = VecDataset::new("line".to_string(), line(), Euclidean);
    let cakes = Cakes::new(data, Some(7), PartitionCriteria::new(true)).unwrap();
    let queries: Vec<Vec<f32>> = vec![vec![-3.0], vec![0.0], vec![99.5]];
    let ranged = cakes.batch_rnn_search(&queries, scaled(2.0), rnn::Algorithm::Clustered);
    let nearest = cakes.batch_knn_search(&queries, 3, knn::Algorithm::Sieve);
    assert_eq!(ranged.len(), 3);
    assert_eq!(nearest.len(), 3);
    for (i, query) in queries.iter().enumerate() {
        let mut one = cakes.rnn_search(query, scaled(2.0), rnn::Algorithm::Linear);
        let mut other = ranged[i].clone();
        one.sort();
        other.sort();
        assert_eq!(one, other);
        assert_eq!(nearest[i], cakes.knn_search(query, 3, knn::Algorithm::Sieve));
    }
    assert_eq!(ranged[2].len(), 3);
}

#[test]
fn a_single_instance_is_found_when_in_range() {
    let data = VecDataset::new("one".to_string(), vec![vec![2.0f32, 0.0]], Euclidean);
    let cakes = Cakes::new(data, None, PartitionCriteria::new(false)).unwrap();
    assert!(cakes.root().is_leaf());
    assert_eq!(cakes.root().cardinality(), 1);
    assert_eq!(cakes.radius(), 0);
    assert_eq!(cakes.diameter(), 0);
    assert_eq!(cakes.depth(), 0);
    assert_eq!(cakes.root().lfd(), abd_clam::helpers::Lfd { count: 2, half_count: 1 });
    let query = vec![0.0, 0.0];
    for algorithm in [rnn::Algorithm::Linear, rnn::Algorithm::Clustered] {
        assert_eq!(cakes.rnn_search(&query, scaled(2.0), algorithm), vec![(0, scaled(2.0))]);
        assert_eq!(cakes.rnn_search(&query, scaled(2.0) - 1, algorithm), vec![]);
    }
    for algorithm in [knn::Algorithm::Linear, knn::Algorithm::RepeatedRnn, knn::Algorithm::Sieve] {
        assert_eq!(cakes.knn_search(&query, 1, algorithm), Ok(vec![(0, scaled(2.0))]));
        assert_eq!(cakes.knn_search(&query, 5, algorithm), Ok(vec![(0, scaled(2.0))]));
    }
    assert_eq!(cakes.linear_search(&query, scaled(3.0), Some(vec![0, 0])).len(), 2);
    assert_eq!(cakes.linear_search(&query, scaled(3.0), None), vec![(0, scaled(2.0))]);
}

#[test]
fn poles_rule_out_too_much_where_the_space_is_not_flat() {
    // Under the Manhattan distance the hyperplane that bisects two poles
    // does not separate as it does under the Euclidean distance: the child
    // that the poles rule out can hold an instance within the radius.
    let points = vec![vec![2, 3], vec![3, 0], vec![0, 0]];
    let data = VecDataset::new("corner".to_string(), points, Manhattan { is_expensive: false });
    let criteria = PartitionCriteria::new(true).with_min_cardinality(1);
    let cakes = Cakes::new(data, None, criteria).unwrap();
    let query = vec![3, 2];
    let linear = cakes.rnn_search(&query, 2, rnn::Algorithm::Linear);
    let clustered = cakes.rnn_search(&query, 2, rnn::Algorithm::Clustered);
    assert_eq!(linear, vec![(1, 2), (0, 2)]);
    assert_eq!(clustered, vec![(0, 2)]);
    // the linear search of nearest neighbours does not prune
    assert_eq!(cakes.knn_search(&query, 2, knn::Algorithm::Linear), Ok(vec![(0, 2), (1, 2)]));
}

#[test]
fn the_descent_sorts_clusters_by_how_they_lie_to_the_ball() {
    let data = VecDataset::new("line".to_string(), line(), Euclidean);
    let criteria = PartitionCriteria::new(true).with_min_cardinality(1);
    let cakes: abd_clam::cakes::CAKES<Vec<f32>, Euclidean> = Cakes::new(data, Some(42), criteria).unwrap();
    assert!(!cakes.metric().is_expensive());
    let query = vec![0.25];
    let radius = scaled(3.0);
    let (confirmed, straddlers) = cakes.rnn_tree_search(&query, radius);
    for (c, d) in confirmed.iter() {
        assert_eq!(*d, c.distance_to_instance(cakes.data(), &query));
        assert!(c.radius() + d <= radius);
    }
    for (c, d) in straddlers.iter() {
        assert!(c.is_leaf());
        assert!(c.radius() + d > radius && *d <= c.radius() + radius);
    }
    let mut found: Vec<usize> = confirmed.iter().flat_map(|(c, _)| c.indices()).collect();
    let clusters: Vec<&abd_clam::cluster::Cluster> = straddlers.iter().map(|(c, _)| *c).collect();
    found.extend(cakes.rnn_leaf_search(&query, radius, &clusters).iter().map(|h| h.0));
    found.sort();
    // -2, -1, 0, 1, 2, 3 are within 3 of 0.25
    assert_eq!(found, vec![98, 99, 100, 101, 102, 103]);
    let (left, right) = cakes.root().children().unwrap();
    assert_eq!(
        left.distance_to_other(cakes.data(), right),
        cakes.data().one_to_one(left.arg_center(), right.arg_center())
    );
}

#[test]
fn a_ball_that_holds_too_little_asks_to_grow() {
    let data = VecDataset::new("line".to_string(), line(), Euclidean);
    let cakes = Cakes::new(data, Some(42), PartitionCriteria::new(true)).unwrap();
    // the first ball has a hundredth of the radius of the root
    assert_eq!(first_radius(cakes.tree()), cakes.radius() / 100);
    let few = VecDataset::new("few".to_string(), diagonal(), Euclidean);
    let few = Cakes::new(few, None, PartitionCriteria::new(true)).unwrap();
    // the center is [1, 1], and [3, 3] is farthest from it: 2 * sqrt(2)
    assert_eq!(few.radius(), scaled(8.0f64.sqrt()));
    assert_eq!(first_radius(few.tree()), scaled(8.0f64.sqrt()) / 100);
    let query = vec![0.0];
    match repeated_rnn_step(cakes.tree(), &query, 5, scaled(1.0)) {
        Step::Grow { hits, lfd } => {
            assert_eq!(hits, 3);
            // distances 0, 1, 1 at the scale 1: one of three within a half
            assert_eq!(lfd, abd_clam::helpers::Lfd { count: 3, half_count: 1 });
        }
        Step::Done(_) => panic!("three instances are not five"),
    }
    match repeated_rnn_step(cakes.tree(), &query, 5, scaled(2.0)) {
        Step::Done(hits) => {
            assert_eq!(hits.iter().map(|h| h.0).collect::<Vec<_>>(), vec![100, 99, 101, 98, 102]);
        }
        Step::Grow { .. } => panic!("five instances are within two"),
    }
    let batch = cakes.batch_knn_by_rnn(&[vec![0.0], vec![100.0]], 2);
    assert_eq!(batch[0], Ok(vec![(100, 0), (99, scaled(1.0)), (101, scaled(1.0))]));
    assert_eq!(batch[1], Ok(vec![(200, 0), (199, scaled(1.0))]));
    let batch = cakes.batch_linear_search(&[vec![0.0], vec![100.5]], scaled(1.0));
    assert_eq!(batch[0].len(), 3);
    assert_eq!(batch[1], vec![(200, scaled(0.5))]);
}

#[test]
fn on_a_line_the_clustered_search_is_exact() {
    let points: Vec<Vec<i32>> = (0..500).map(|x: i32| vec![(x * x * 31 + x * 17) % 1009 - 400]).collect();
    let data = VecDataset::new("line".to_string(), points, Manhattan { is_expensive: false });
    let criteria = PartitionCriteria::new(true).with_min_cardinality(1);
    let cakes = Cakes::new(data, Some(11), criteria).unwrap().tree.depth_first_reorder().unwrap();
    let cakes = Cakes { tree: cakes };
    for q in [-1000, -400, -399, -7, 0, 1, 250, 608, 609, 5000] {
        let query = vec![q];
        for radius in [0, 1, 2, 10, 75, 300, 2000, u64::MAX] {
            let mut linear = cakes.rnn_search(&query, radius, rnn::Algorithm::Linear);
            let mut clustered = cakes.rnn_search(&query, radius, rnn::Algorithm::Clustered);
            linear.sort();
            clustered.sort();
            assert_eq!(linear, clustered);
        }
        for k in [1, 3, 10, 499, 500, 501] {
            let linear = cakes.knn_search(&query, k, knn::Algorithm::Linear).unwrap();
            let repeated = cakes.knn_search(&query, k, knn::Algorithm::RepeatedRnn).unwrap();
            let sieve = cakes.knn_search(&query, k, knn::Algorithm::Sieve).unwrap();
            assert_eq!(linear, repeated);
            assert!(linear.len() >= k.min(500));
            assert!(sieve.len() >= k.min(500));
            assert!(sieve.iter().all(|h| linear.contains(h)));
            let farthest = sieve.last().unwrap().1;
            assert!(linear.iter().all(|h| sieve.contains(h) || h.1 >= farthest));
            assert!(linear.windows(2).all(|w| (w[0].1, w[0].0) < (w[1].1, w[1].0)));
        }
    }
}

#[test]
fn with_radius_zero_the_poles_rule_out_no_hit() {
    // the Manhattan distance in the plane is a true distance, and not flat
    let points: Vec<Vec<i32>> =
        (0..400).map(|x: i32| vec![(x * 37) % 23 - 11, (x * x * 13 + x) % 19 - 9]).collect();
    let data = VecDataset::new("plane".to_string(), points.clone(), Manhattan { is_expensive: false });
    let criteria = PartitionCriteria::new(true).with_min_cardinality(1);
    let cakes = Cakes::new(data, Some(5), criteria).unwrap();
    for query in points.iter().take(60).chain([vec![100, 100], vec![0, 0]].iter()) {
        let mut linear = cakes.rnn_search(query, 0, rnn::Algorithm::Linear);
        let mut clustered = cakes.rnn_search(query, 0, rnn::Algorithm::Clustered);
        linear.sort();
        clustered.sort();
        assert_eq!(linear, clustered);
        assert!(clustered.iter().all(|h| h.1 == 0 && cakes.data().get(h.0) == query));
        let mut whole = cakes.rnn_search(query, u64::MAX, rnn::Algorithm::Clustered);
        whole.sort();
        assert_eq!(whole.iter().map(|h| h.0).collect::<Vec<_>>(), (0..400).collect::<Vec<_>>());
        // asked for more than there are, the repeated range search ends with the whole space
        let all = cakes.knn_search(query, 401, knn::Algorithm::RepeatedRnn).unwrap();
        assert_eq!(all, cakes.knn_search(query, 401, knn::Algorithm::Linear).unwrap());
        assert_eq!(all.len(), 400);
        assert_eq!(cakes.knn_search(query, 401, knn::Algorithm::Sieve).unwrap(), all);
    }
}

#[test]
fn a_seed_repeats_a_tree() {
    let points: Vec<Vec<i32>> =
        (0..1500).map(|x: i32| vec![(x * 37) % 211 - 100, (x * x * 13 + x) % 199 - 90]).collect();
    let grow = |seed: u64, parallel: bool| {
        let data = VecDataset::new("plane".to_string(), points.clone(), Manhattan { is_expensive: false });
        let tree = abd_clam::tree::Tree::new(data).unwrap().with_seed(seed).build().unwrap();
        let criteria = PartitionCriteria::new(true).with_min_cardinality(1);
        let tree = if parallel {
            tree.par_partition(&criteria, true).unwrap()
        } else {
            tree.partition(&criteria, true).unwrap()
        };
        tree.root()
            .subtree()
            .iter()
            .map(|c| {
                (c.name(), c.indices(), c.arg_center(), c.arg_radius(), c.radius(), c.lfd(), c.polar_distance())
            })
            .collect::<Vec<_>>()
    };
    let one = grow(42, false);
    assert!(one[0].1.len() == 1500);
    assert_eq!(one, grow(42, false));
    assert_eq!(one, grow(42, true));
    assert_eq!(grow(7, true), grow(7, false));
}

#[test]
fn whether_the_descent_loses_a_hit_can_be_asked() {
    // under the edit distance, which is not flat, the descent happens to lose nothing
    let data = random_data::random_string(300, 30, 30, "ACTG", 42);
    let queries = random_data::random_string(5, 30, 30, "ACTG", 43);
    let data = VecDataset::new("strings".to_string(), data, Levenshtein { is_expensive: false });
    let cakes = Cakes::new(data, Some(42), PartitionCriteria::default()).unwrap();
    for radius in [0, 1, 5, 10, 25] {
        for query in queries.iter() {
            let mut linear = cakes.rnn_search(query, radius, rnn::Algorithm::Linear);
            let mut clustered = cakes.rnn_search(query, radius, rnn::Algorithm::Clustered);
            linear.sort();
            clustered.sort();
            let kept = cakes.root().loses_no_hit(cakes.data(), query, radius);
            assert_eq!(kept, linear == clustered);
        }
    }
    // where the poles rule out an instance within the radius, the answer is no
    let points = vec![vec![2, 3], vec![3, 0], vec![0, 0]];
    let data = VecDataset::new("corner".to_string(), points, Manhattan { is_expensive: false });
    let corner = Cakes::new(data, None, PartitionCriteria::new(true).with_min_cardinality(1)).unwrap();
    assert!(!corner.root().loses_no_hit(corner.data(), &vec![3, 2], 2));
    assert!(corner.root().loses_no_hit(corner.data(), &vec![3, 2], 0));
    assert!(corner.root().loses_no_hit(corner.data(), &vec![3, 2], u64::MAX));
    let (left, right) = corner.root().children().unwrap();
    assert!(left.has_no_hit(corner.data(), &vec![10, 10], 5));
    assert!(!right.has_no_hit(corner.data(), &vec![2, 3], 0));
}
