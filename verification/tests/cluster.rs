use abd_clam::cluster::Cluster;
use abd_clam::criteria::{PartitionCriteria, PartitionCriterion};
use abd_clam::dataset::VecDataset;
use abd_clam::error::ClamError;
use abd_clam::metric::Metric;
use abd_clam::tree::Tree;

/// Euclidean distance in units of 2^-20.
struct Euclidean;

impl Metric<Vec<f32>> for Euclidean {
    fn distance(&self, x: &Vec<f32>, y: &Vec<f32>) -> u64 {
        let d: f32 = distances::vectors::euclidean(x, y);
        (f64::from(d) * 1_048_576.0).round() as u64
    }

    fn one_to_one(&self, x: &Vec<f32>, y: &Vec<f32>) -> u64 {
        self.distance(x, y)
    }

    fn expensive(&self) -> bool {
        self.is_expensive()
    }

    fn is_expensive(&self) -> bool {
        false
    }
}

fn line() -> Vec<Vec<f32>> {
    vec![
        vec![10.],
        vec![1.],
        vec![-5.],
        vec![8.],
        vec![3.],
        vec![2.],
        vec![0.5],
        vec![0.],
    ]
}

#[test]
fn cluster_test_cluster() {
    let data = vec![vec![0., 0., 0.], vec![1., 1., 1.], vec![2., 2., 2.], vec![3., 3., 3.]];
    let name = "test".to_string();
    let data = VecDataset::new(name, data, Euclidean);
    let indices = data.indices().to_vec();
    let partition_criteria = PartitionCriteria::new(true).with_max_depth(3).with_min_cardinality(1);
    let cluster = Cluster::new_root(indices)
        .build(&data)
        .unwrap()
        .partition(&data, &partition_criteria, true)
        .unwrap();

    assert_eq!(cluster.depth(), 0);
    assert_eq!(cluster.cardinality(), 4);
    assert_eq!(cluster.num_descendants(), 6);
    assert!(cluster.radius() > 0);

    assert_eq!(cluster.name(), "1");

    let (left, right) = cluster.children().unwrap();
    assert_eq!(left.name(), "2");
    assert_eq!(right.name(), "3");

    for child in [left, right] {
        assert_eq!(child.depth(), 1);
        assert_eq!(child.cardinality(), 2);
        assert_eq!(child.num_descendants(), 2);
    }
}

#[test]
fn test_reordering() {
    let name = "test".to_string();
    let data = VecDataset::new(name, line(), Euclidean);
    let partition_criteria = PartitionCriteria::new(true).with_max_depth(3).with_min_cardinality(1);

    let tree = Tree::new(data)
        .unwrap()
        .build()
        .unwrap()
        .partition(&partition_criteria, true)
        .unwrap()
        .depth_first_reorder()
        .unwrap();

    // Assert that the tree's indices have been reordered in depth-first order
    assert_eq!((0..tree.cardinality()).collect::<Vec<usize>>(), tree.indices());
}

#[test]
fn test_leaf_indices() {
    let name = "test".to_string();
    let data = VecDataset::new(name, line(), Euclidean);
    let partition_criteria = PartitionCriteria::new(true).with_max_depth(3).with_min_cardinality(1);

    let tree = Tree::new(data).unwrap().build().unwrap().partition(&partition_criteria, true).unwrap();

    let mut leaf_indices = tree.root().leaf_indices().unwrap();
    leaf_indices.sort();

    assert_eq!(&leaf_indices, tree.dataset().indices());
}

#[test]
fn reordering_keeps_every_cluster_together() {
    let data = VecDataset::new("test".to_string(), line(), Euclidean);
    let criteria = PartitionCriteria::new(true).with_max_depth(3).with_min_cardinality(1);
    let tree = Tree::new(data).unwrap().build().unwrap().partition(&criteria, true).unwrap();
    let before: Vec<Vec<Vec<f32>>> = tree
        .root()
        .subtree()
        .iter()
        .map(|c| c.indices().iter().map(|&i| tree.data().get(i).clone()).collect())
        .collect();
    let tree = tree.depth_first_reorder().unwrap();
    let after: Vec<Vec<Vec<f32>>> = tree
        .root()
        .subtree()
        .iter()
        .map(|c| c.indices().iter().map(|&i| tree.data().get(i).clone()).collect())
        .collect();
    assert_eq!(before, after);
    let mut leaves: Vec<(usize, usize)> = tree
        .root()
        .subtree()
        .iter()
        .filter(|c| c.is_leaf())
        .map(|c| (c.indices()[0], c.cardinality()))
        .collect();
    leaves.sort();
    let mut next = 0;
    for (start, len) in leaves {
        assert_eq!(start, next);
        next = start + len;
    }
    assert_eq!(next, 8);
}

#[test]
fn second_reordering_changes_nothing() {
    let data = VecDataset::new("test".to_string(), line(), Euclidean);
    let criteria = PartitionCriteria::new(true).with_max_depth(3).with_min_cardinality(1);
    let tree = Tree::new(data)
        .unwrap()
        .build()
        .unwrap()
        .partition(&criteria, true)
        .unwrap()
        .depth_first_reorder()
        .unwrap();
    let instances: Vec<Vec<f32>> = (0..8).map(|i| tree.data().get(i).clone()).collect();
    let tree = tree.depth_first_reorder().unwrap();
    let again: Vec<Vec<f32>> = (0..8).map(|i| tree.data().get(i).clone()).collect();
    assert_eq!(instances, again);
    assert_eq!(tree.indices(), (0..8).collect::<Vec<usize>>());
}

#[test]
fn second_build_is_refused() {
    let data = VecDataset::new("test".to_string(), line(), Euclidean);
    let built = Cluster::new_root(data.indices().to_vec()).build(&data).unwrap();
    assert!(matches!(built.build(&data), Err(ClamError::InvalidLifecycle)));
}

#[test]
fn names_are_read_back_as_they_were_written() {
    let points: Vec<Vec<f32>> = (0..64).map(|x| vec![x as f32]).collect();
    let data = VecDataset::new("line".to_string(), points, Euclidean);
    let criteria = PartitionCriteria::new(true).with_min_cardinality(1);
    let tree = Tree::new(data).unwrap().build().unwrap().partition(&criteria, true).unwrap();
    let clusters = tree.root().subtree();
    assert_eq!(clusters.len(), 127);
    let mut names = std::collections::HashSet::new();
    for c in clusters {
        let name = c.name();
        let chars: Vec<char> = name.chars().collect();
        assert_eq!(abd_clam::name::history_of(&chars), Some(c.history()));
        assert_eq!(c.history().len(), c.depth() + 1);
        assert!(names.insert(name));
    }
    assert!(names.contains("1"));
    assert_eq!(abd_clam::name::history_of(&['0', '5']), Some(vec![true, false, true]));
    assert_eq!(abd_clam::name::history_of(&['1', 'f']), Some(vec![true, true, true, true, true]));
    assert_eq!(abd_clam::name::history_of(&['1', 'F']), None);
    assert_eq!(abd_clam::name::history_of(&['0']), Some(vec![]));
}

#[test]
fn a_tree_split_all_the_way_ends_in_single_instances() {
    let data = VecDataset::new("line".to_string(), line(), Euclidean);
    let criteria = PartitionCriteria::new(true).with_min_cardinality(1);
    let tree = Tree::new(data).unwrap().build().unwrap().partition(&criteria, true).unwrap();
    for c in tree.root().subtree() {
        if c.is_leaf() {
            assert_eq!(c.cardinality(), 1);
            assert_eq!(c.radius(), 0);
            assert!(c.is_singleton());
            assert_eq!(c.lfd(), abd_clam::helpers::Lfd { count: 2, half_count: 1 });
            assert_eq!(c.arg_center(), c.arg_radius());
            assert_eq!(c.polar_distance(), None);
        } else {
            let (left, right) = c.children().unwrap();
            assert_eq!(c.cardinality(), left.cardinality() + right.cardinality());
            assert!(left.cardinality() >= right.cardinality());
            assert!(c.is_ancestor_of(left) && right.is_descendant_of(c));
            assert!(!left.is_ancestor_of(right) && !c.is_ancestor_of(c));
            let polar = c.polar_distance().unwrap();
            assert!(polar >= c.radius());
        }
        for &i in &c.indices() {
            assert!(c.distance_to_indexed_instance(tree.data(), i) <= c.radius());
        }
    }
    assert_eq!(tree.depth(), tree.root().max_leaf_depth());
    assert!(tree.root().is_root());
}

#[test]
fn equal_instances_stay_together() {
    let points = vec![vec![1.], vec![1.], vec![1.], vec![4.]];
    let data = VecDataset::new("doubles".to_string(), points, Euclidean);
    let criteria = PartitionCriteria::new(true).with_min_cardinality(1);
    let tree = Tree::new(data).unwrap().build().unwrap().partition(&criteria, true).unwrap();
    let leaves: Vec<usize> =
        tree.root().subtree().iter().filter(|c| c.is_leaf()).map(|c| c.cardinality()).collect();
    assert_eq!(leaves, vec![3, 1]);
    let (left, _) = tree.root().children().unwrap();
    assert_eq!(left.radius(), 0);
    assert!(left.is_singleton());
}

#[test]
fn one_split_gathers_the_instances_round_two_poles() {
    let data = VecDataset::new("line".to_string(), line(), Euclidean);
    let root = Cluster::new_root(data.indices().to_vec()).build(&data).unwrap();
    // the sums of distances are least for 2.0 (position 5) and 1.0 (position 1), and equal
    assert_eq!(root.arg_center(), 1);
    assert_eq!(root.arg_radius(), 0);
    assert_eq!(root.radius(), 9 << 20);
    let once = root.partition_once(&data).unwrap();
    assert_eq!(once.polar_distance, 15 << 20);
    // the pole 10.0 keeps 8.0 and 3.0; the other six go with the pole -5.0
    assert_eq!((once.left_pole, once.right_pole), (2, 0));
    assert_eq!(once.left.indices(), vec![1, 5, 6, 7, 2]);
    assert_eq!(once.right.indices(), vec![3, 4, 0]);
    assert_eq!(once.left.name(), "2");
    assert_eq!(once.right.name(), "3");
}

#[test]
fn partitioning_side_by_side_grows_the_same_tree() {
    let points: Vec<Vec<f32>> = (0..300).map(|x| vec![((x * 37) % 101) as f32, (x % 7) as f32]).collect();
    let criteria = PartitionCriteria::new(true).with_max_depth(6);
    let grow = |parallel: bool| {
        let data = VecDataset::new("grid".to_string(), points.clone(), Euclidean);
        let tree = Tree::new(data).unwrap().with_seed(42).build().unwrap();
        let tree = if parallel {
            tree.par_partition(&criteria, true).unwrap()
        } else {
            tree.partition(&criteria, true).unwrap()
        };
        tree.root()
            .subtree()
            .iter()
            .map(|c| (c.name(), c.indices(), c.arg_center(), c.arg_radius(), c.radius(), c.lfd()))
            .collect::<Vec<_>>()
    };
    let serial = grow(false);
    assert!(serial.len() > 3);
    assert_eq!(serial.iter().map(|c| c.0.len()).max(), Some(2));
    assert_eq!(serial, grow(true));
}

#[test]
fn operations_out_of_order_are_refused() {
    let data = VecDataset::new("test".to_string(), line(), Euclidean);
    let criteria = PartitionCriteria::new(true);
    let fresh = Cluster::new_root(data.indices().to_vec());
    assert!(matches!(fresh.partition(&data, &criteria, true), Err(ClamError::InvalidLifecycle)));
    let grown = Cluster::new_root(data.indices().to_vec())
        .build(&data)
        .unwrap()
        .partition(&data, &criteria, false)
        .unwrap();
    assert!(!grown.is_leaf());
    assert!(matches!(grown.partition(&data, &criteria, false), Err(ClamError::InvalidLifecycle)));
    let tree = Tree::new(VecDataset::new("test".to_string(), line(), Euclidean)).unwrap();
    assert!(matches!(tree.depth_first_reorder(), Err(ClamError::InvalidLifecycle)));
    let tree = Tree::new(VecDataset::new("test".to_string(), line(), Euclidean)).unwrap().build().unwrap();
    assert!(matches!(tree.build(), Err(ClamError::InvalidLifecycle)));
    assert!(matches!(
        Cluster::new_root(vec![0, 8]).build(&data),
        Err(ClamError::InvalidArgument)
    ));
    assert!(matches!(Cluster::new_root(vec![]).build(&data), Err(ClamError::InvalidArgument)));
    let mut other = VecDataset::new("test".to_string(), line(), Euclidean);
    let part = Cluster::new_root(vec![0, 1, 2]).build(&other).unwrap();
    assert!(matches!(part.depth_first_reorder(&mut other), Err(ClamError::InvalidArgument)));
}

/// Allows clusters whose center is the instance at an even position.
struct EvenCenter;

impl PartitionCriterion for EvenCenter {
    fn allows(&self, cluster: &Cluster) -> bool {
        cluster.arg_center() % 2 == 0
    }

    fn check(&self, cluster: &Cluster) -> bool {
        self.allows(cluster)
    }
}

#[test]
fn criteria_take_a_test_of_the_callers_own() {
    let data = VecDataset::new("line".to_string(), line(), Euclidean);
    // the center of the root is at position 1
    let strict = PartitionCriteria::new(true).with_custom(EvenCenter).with_min_cardinality(1);
    let tree = Tree::new(data).unwrap().build().unwrap().partition(&strict, true).unwrap();
    assert!(tree.root().is_leaf());
    let lenient = PartitionCriteria::new(false).with_min_cardinality(100).with_custom(EvenCenter);
    let data = VecDataset::new("line".to_string(), line(), Euclidean);
    let tree = Tree::new(data).unwrap().build().unwrap();
    assert!(!lenient.check(tree.root()));
    assert!(lenient.with_max_depth(1).check(tree.root()));
    let data = VecDataset::new("line".to_string(), line(), Euclidean);
    let strict = PartitionCriteria::new(true).with_min_cardinality(1).with_custom(EvenCenter);
    let root = Cluster::new_root(vec![0, 2, 3, 4]).build(&data).unwrap();
    // 10, -5, 8, 3: the center is 8, at position 3
    assert_eq!(root.arg_center(), 3);
    assert!(!strict.check(&root));
    let root = Cluster::new_root(vec![0, 2, 4]).build(&data).unwrap();
    assert_eq!(root.arg_center(), 4);
    let grown = root.partition(&data, &strict, true).unwrap();
    // 10 | -5, 3: the pair has its center at position 2 and is split, too
    assert_eq!(grown.num_descendants(), 4);
}

#[test]
fn clusters_sort_as_a_breadth_first_walk_meets_them() {
    let points: Vec<Vec<f32>> = (0..16).map(|x| vec![x as f32]).collect();
    let data = VecDataset::new("line".to_string(), points, Euclidean);
    let criteria = PartitionCriteria::new(true).with_min_cardinality(1);
    let tree = Tree::new(data).unwrap().build().unwrap().partition(&criteria, true).unwrap();
    let mut clusters = tree.root().subtree();
    clusters.sort_by(|a, b| a.partial_cmp(b).unwrap());
    let names: Vec<String> = clusters.iter().map(|c| c.name()).collect();
    let mut by_depth = names.clone();
    by_depth.sort_by_key(|n| (n.len(), n.clone()));
    assert_eq!(names[..3], ["1".to_string(), "2".to_string(), "3".to_string()]);
    let depths: Vec<usize> = clusters.iter().map(|c| c.depth()).collect();
    assert!(depths.windows(2).all(|w| w[0] <= w[1]));
    for pair in clusters.windows(2) {
        assert!(pair[0].precedes(pair[1]));
        assert!(!pair[1].precedes(pair[0]));
        assert!(pair[0] < pair[1]);
        assert!(pair[0] != pair[1]);
        assert!(!pair[0].same_name(pair[1]));
    }
    let (left, right) = tree.root().children().unwrap();
    assert!(left == left && left.same_name(left));
    assert!(left < right && tree.root() < left);
    assert!(!tree.root().precedes(tree.root()));
}
