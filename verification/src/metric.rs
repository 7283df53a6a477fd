//! Distance functions.

use vstd::prelude::*;

verus! {

/// A distance function on instances of type `T`.
///
/// The library never checks that an implementation is a metric in the
/// mathematical sense. What the searches promise of one that is, they state
/// with the predicates of [`crate::dataset::VecDataset`].
pub trait Metric<T> {
    /// The distance between two instances.
    spec fn distance(&self, x: &T, y: &T) -> u64;

    /// Computes the distance between two instances.
    fn one_to_one(&self, x: &T, y: &T) -> (d: u64)
        ensures
            d == self.distance(x, y),
    ;

    /// Whether the metric declares itself expensive to evaluate.
    spec fn expensive(&self) -> bool;

    /// Whether one evaluation is costly enough to be worth a thread.
    fn is_expensive(&self) -> (b: bool)
        ensures
            b == self.expensive(),
    ;
}

} // verus!

verus! {

/// The number of coordinates that two vectors are compared on: those of the
/// shorter one.
pub open spec fn common_len(x: Seq<i32>, y: Seq<i32>) -> int {
    if x.len() <= y.len() {
        x.len() as int
    } else {
        y.len() as int
    }
}

/// A sum as a distance: the greatest distance there is, where the sum is more.
pub open spec fn saturated(sum: nat) -> u64 {
    if sum > u64::MAX {
        u64::MAX
    } else {
        sum as u64
    }
}

/// The absolute difference of two coordinates.
pub open spec fn gap(a: i32, b: i32) -> nat {
    if a >= b {
        (a - b) as nat
    } else {
        (b - a) as nat
    }
}

/// The sum of the absolute differences of the first `n` coordinates.
pub open spec fn manhattan_sum(x: Seq<i32>, y: Seq<i32>, n: int) -> nat
    decreases n,
{
    if n <= 0 {
        0
    } else {
        manhattan_sum(x, y, n - 1) + gap(x[n - 1], y[n - 1])
    }
}

/// The sum of the squared differences of the first `n` coordinates.
pub open spec fn squares_sum(x: Seq<i32>, y: Seq<i32>, n: int) -> nat
    decreases n,
{
    if n <= 0 {
        0
    } else {
        squares_sum(x, y, n - 1) + gap(x[n - 1], y[n - 1]) * gap(x[n - 1], y[n - 1])
    }
}

/// The number of the first `n` coordinates in which the vectors differ.
pub open spec fn differences(x: Seq<i32>, y: Seq<i32>, n: int) -> nat
    decreases n,
{
    if n <= 0 {
        0
    } else {
        differences(x, y, n - 1) + if x[n - 1] != y[n - 1] {
            1nat
        } else {
            0nat
        }
    }
}

/// The absolute difference of two coordinates.
fn gap_of(a: i32, b: i32) -> (g: u64)
    ensures
        g == gap(a, b),
        g <= 0xffff_ffff,
{
    if a >= b {
        (a as i64 - b as i64) as u64
    } else {
        (b as i64 - a as i64) as u64
    }
}

/// The squared L2 norm of the difference of two vectors of integers.
#[derive(Clone, Copy, Debug)]
pub struct EuclideanSq {
    /// Whether the metric asks for parallel fan-outs.
    pub is_expensive: bool,
}

/// The L1 norm of the difference of two vectors of integers.
#[derive(Clone, Copy, Debug)]
pub struct Manhattan {
    /// Whether the metric asks for parallel fan-outs.
    pub is_expensive: bool,
}

/// The number of coordinates in which two vectors of integers differ.
#[derive(Clone, Copy, Debug)]
pub struct Hamming {
    /// Whether the metric asks for parallel fan-outs.
    pub is_expensive: bool,
}

impl Metric<Vec<i32>> for EuclideanSq {
    open spec fn expensive(&self) -> bool {
        self.is_expensive
    }

    open spec fn distance(&self, x: &Vec<i32>, y: &Vec<i32>) -> u64 {
        saturated(squares_sum(x@, y@, common_len(x@, y@)))
    }

    fn one_to_one(&self, x: &Vec<i32>, y: &Vec<i32>) -> (d: u64) {
        let n = if x.len() <= y.len() {
            x.len()
        } else {
            y.len()
        };
        let mut sum: u128 = 0;
        let mut i: usize = 0;
        while i < n
            invariant
                n == common_len(x@, y@),
                i <= n,
                sum == saturated(squares_sum(x@, y@, i as int)),
            decreases n - i,
        {
            let g = gap_of(x[i], y[i]);
            assert(g * g <= 0xffff_ffff * 0xffff_ffff) by (nonlinear_arith)
                requires
                    g <= 0xffff_ffff,
            ;
            let next = sum + (g as u128) * (g as u128);
            sum = if next > u64::MAX as u128 {
                u64::MAX as u128
            } else {
                next
            };
            i += 1;
        }
        sum as u64
    }

    fn is_expensive(&self) -> (b: bool) {
        self.is_expensive
    }
}

impl Metric<Vec<i32>> for Manhattan {
    open spec fn expensive(&self) -> bool {
        self.is_expensive
    }

    open spec fn distance(&self, x: &Vec<i32>, y: &Vec<i32>) -> u64 {
        saturated(manhattan_sum(x@, y@, common_len(x@, y@)))
    }

    fn one_to_one(&self, x: &Vec<i32>, y: &Vec<i32>) -> (d: u64) {
        let n = if x.len() <= y.len() {
            x.len()
        } else {
            y.len()
        };
        let mut sum: u128 = 0;
        let mut i: usize = 0;
        while i < n
            invariant
                n == common_len(x@, y@),
                i <= n,
                sum == saturated(manhattan_sum(x@, y@, i as int)),
            decreases n - i,
        {
            let g = gap_of(x[i], y[i]);
            let next = sum + g as u128;
            sum = if next > u64::MAX as u128 {
                u64::MAX as u128
            } else {
                next
            };
            i += 1;
        }
        sum as u64
    }

    fn is_expensive(&self) -> (b: bool) {
        self.is_expensive
    }
}

impl Metric<Vec<i32>> for Hamming {
    open spec fn expensive(&self) -> bool {
        self.is_expensive
    }

    open spec fn distance(&self, x: &Vec<i32>, y: &Vec<i32>) -> u64 {
        saturated(differences(x@, y@, common_len(x@, y@)))
    }

    fn one_to_one(&self, x: &Vec<i32>, y: &Vec<i32>) -> (d: u64) {
        let n = if x.len() <= y.len() {
            x.len()
        } else {
            y.len()
        };
        let mut count: u64 = 0;
        let mut i: usize = 0;
        while i < n
            invariant
                n == common_len(x@, y@),
                i <= n,
                count == differences(x@, y@, i as int),
                count <= i,
            decreases n - i,
        {
            if x[i] != y[i] {
                count += 1;
            }
            i += 1;
        }
        count
    }

    fn is_expensive(&self) -> (b: bool) {
        self.is_expensive
    }
}

} // verus!

verus! {

/// One of the metrics on vectors of integers, chosen by name.
#[derive(Clone, Copy, Debug)]
pub enum Named {
    /// The squared L2 norm.
    EuclideanSq(EuclideanSq),
    /// The L1 norm.
    Manhattan(Manhattan),
    /// The count of differences.
    Hamming(Hamming),
}

impl Metric<Vec<i32>> for Named {
    open spec fn expensive(&self) -> bool {
        match *self {
            Named::EuclideanSq(m) => m.is_expensive,
            Named::Manhattan(m) => m.is_expensive,
            Named::Hamming(m) => m.is_expensive,
        }
    }

    open spec fn distance(&self, x: &Vec<i32>, y: &Vec<i32>) -> u64 {
        match *self {
            Named::EuclideanSq(m) => m.distance(x, y),
            Named::Manhattan(m) => m.distance(x, y),
            Named::Hamming(m) => m.distance(x, y),
        }
    }

    fn one_to_one(&self, x: &Vec<i32>, y: &Vec<i32>) -> (d: u64) {
        match self {
            Named::EuclideanSq(m) => m.one_to_one(x, y),
            Named::Manhattan(m) => m.one_to_one(x, y),
            Named::Hamming(m) => m.one_to_one(x, y),
        }
    }

    fn is_expensive(&self) -> (b: bool) {
        match self {
            Named::EuclideanSq(m) => m.is_expensive,
            Named::Manhattan(m) => m.is_expensive,
            Named::Hamming(m) => m.is_expensive,
        }
    }
}

/// The metric of the given name, if the name is `"euclideansq"`,
/// `"manhattan"` or `"hamming"`.
pub open spec fn named(name: Seq<char>, is_expensive: bool) -> Option<Named> {
    if name == "euclideansq"@ {
        Some(Named::EuclideanSq(EuclideanSq { is_expensive }))
    } else if name == "manhattan"@ {
        Some(Named::Manhattan(Manhattan { is_expensive }))
    } else if name == "hamming"@ {
        Some(Named::Hamming(Hamming { is_expensive }))
    } else {
        None
    }
}

/// The metric of the given name.
fn by_name(name: &str, is_expensive: bool) -> (res: Option<Named>)
    ensures
        res == named(name@, is_expensive),
{
    let name = name.to_owned();
    if name == "euclideansq".to_owned() {
        Some(Named::EuclideanSq(EuclideanSq { is_expensive }))
    } else if name == "manhattan".to_owned() {
        Some(Named::Manhattan(Manhattan { is_expensive }))
    } else if name == "hamming".to_owned() {
        Some(Named::Hamming(Hamming { is_expensive }))
    } else {
        None
    }
}

/// The metric of the given name, for fan-outs on the calling thread. `None`
/// for a name that is none of `"euclideansq"`, `"manhattan"` and `"hamming"`.
pub fn cheap(name: &str) -> (res: Option<Named>)
    ensures
        res == named(name@, false),
{
    by_name(name, false)
}

/// The metric of the given name, for parallel fan-outs. `None` for a name
/// that is none of `"euclideansq"`, `"manhattan"` and `"hamming"`.
pub fn expensive(name: &str) -> (res: Option<Named>)
    ensures
        res == named(name@, true),
{
    by_name(name, true)
}

} // verus!

verus! {

/// What `distances::strings::levenshtein` returns for two strings, as a
/// function of their characters.
pub uninterp spec fn levenshtein_of(x: Seq<char>, y: Seq<char>) -> u64;

/// `distances::strings::levenshtein`, with distances of 64 bits: its result
/// is a function of the two strings and of nothing else, and no more is
/// claimed of it. (The crate computes it by the scheme of Wagner and Fischer
/// with unit penalties, over a table that is as long as the second string has
/// bytes: for strings of ASCII characters it is the edit distance.)
#[verifier::external_body]
fn levenshtein(x: &String, y: &String) -> (d: u64)
    ensures
        d == levenshtein_of(x@, y@),
{
    distances::strings::levenshtein::<u64>(x, y)
}

/// The distance between two strings that `distances::strings::levenshtein`
/// computes: for strings of ASCII characters, their edit distance.
#[derive(Clone, Copy, Debug)]
pub struct Levenshtein {
    /// Whether the metric asks for parallel fan-outs.
    pub is_expensive: bool,
}

impl Metric<String> for Levenshtein {
    open spec fn expensive(&self) -> bool {
        self.is_expensive
    }

    open spec fn distance(&self, x: &String, y: &String) -> u64 {
        levenshtein_of(x@, y@)
    }

    fn one_to_one(&self, x: &String, y: &String) -> (d: u64) {
        levenshtein(x, y)
    }

    fn is_expensive(&self) -> (b: bool) {
        self.is_expensive
    }
}

} // verus!
