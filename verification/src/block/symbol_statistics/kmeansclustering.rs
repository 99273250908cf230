use vstd::prelude::*;

verus! {

/// What the clustering returns: for every cluster its centre, each coordinate scaled
/// by 10000, and for every data point the cluster it belongs to.
#[derive(Debug)]
pub struct KMeansResult {
    pub means: Vec<Vec<usize>>,
    pub assignments: Vec<u8>,
}

/// A clustering problem: `data` holds points of `dimension` coordinates each.
pub struct KMeansProblem<'a> {
    pub dimension: usize,
    pub data: &'a [Vec<u8>],
    pub num_iterations: usize,
    pub num_clusters: usize,
}

/// The factor by which the coordinates of a centre are scaled.
pub const CENTER_SCALE: u64 = 10000;

/// The largest coordinate that a centre can have.
pub const MAX_CENTER: u64 = 2550000;

/// The squared distance between the scaled centre `center` and the point `point`,
/// over their first `k` coordinates.
pub open spec fn squared_distance(center: Seq<u64>, point: Seq<u8>, k: int) -> int
    decreases k,
{
    if k <= 0 {
        0
    } else {
        let diff = center[k - 1] as int - CENTER_SCALE as int * point[k - 1] as int;
        squared_distance(center, point, k - 1) + diff * diff
    }
}

/// The first cluster among the first `k` whose centre is nearest to `point`.
pub open spec fn nearest(centers: Seq<Seq<u64>>, point: Seq<u8>, k: int) -> int
    decreases k,
{
    if k <= 1 {
        0
    } else {
        let best = nearest(centers, point, k - 1);
        if squared_distance(centers[k - 1], point, point.len() as int) < squared_distance(
            centers[best],
            point,
            point.len() as int,
        ) {
            k - 1
        } else {
            best
        }
    }
}

/// The centres as lists of their coordinates.
pub open spec fn centers_view(centers: Seq<Vec<u64>>) -> Seq<Seq<u64>> {
    Seq::new(centers.len(), |c: int| centers[c]@)
}

/// The points as lists of their coordinates.
pub open spec fn data_view(data: Seq<Vec<u8>>) -> Seq<Seq<u8>> {
    Seq::new(data.len(), |p: int| data[p]@)
}

/// The first centres: points spread evenly over the data, scaled.
pub open spec fn initial_centers(data: Seq<Seq<u8>>, num_clusters: int, dimension: int) -> Seq<Seq<u64>> {
    Seq::new(
        num_clusters as nat,
        |c: int|
            Seq::new(
                dimension as nat,
                |d: int| (CENTER_SCALE * data[c * data.len() / num_clusters][d]) as u64,
            ),
    )
}

/// For every point the first cluster whose centre is nearest to it.
pub open spec fn assign(centers: Seq<Seq<u64>>, data: Seq<Seq<u8>>) -> Seq<u8> {
    Seq::new(data.len(), |p: int| nearest(centers, data[p], centers.len() as int) as u8)
}

/// The sum of the coordinate `d` of those of the first `upto` points that belong to
/// the cluster `c`.
pub open spec fn cluster_sum(data: Seq<Seq<u8>>, assignments: Seq<u8>, c: int, d: int, upto: int) -> int
    decreases upto,
{
    if upto <= 0 {
        0
    } else {
        cluster_sum(data, assignments, c, d, upto - 1) + if assignments[upto - 1] == c {
            data[upto - 1][d] as int
        } else {
            0
        }
    }
}

/// How many of the first `upto` points belong to the cluster `c`.
pub open spec fn cluster_size(assignments: Seq<u8>, c: int, upto: int) -> int
    decreases upto,
{
    if upto <= 0 {
        0
    } else {
        cluster_size(assignments, c, upto - 1) + if assignments[upto - 1] == c {
            1int
        } else {
            0int
        }
    }
}

/// The mean of `count` numbers with the sum `sum`, scaled and rounded down; 0 for
/// no numbers.
pub open spec fn scaled_mean_spec(sum: int, count: int) -> int {
    if count <= 0 {
        0
    } else {
        (sum * CENTER_SCALE) / count
    }
}

/// The centres of the clusters: the means of the points that belong to them.
pub open spec fn next_centers(data: Seq<Seq<u8>>, assignments: Seq<u8>, num_clusters: int, dimension: int) -> Seq<
    Seq<u64>,
> {
    Seq::new(
        num_clusters as nat,
        |c: int|
            Seq::new(
                dimension as nat,
                |d: int|
                    scaled_mean_spec(
                        cluster_sum(data, assignments, c, d, data.len() as int),
                        cluster_size(assignments, c, data.len() as int),
                    ) as u64,
            ),
    )
}

/// The centres and the clusters of the points after the given number of passes.
/// Before the first pass every point belongs to the cluster 0.
pub open spec fn lloyd(data: Seq<Seq<u8>>, num_clusters: int, dimension: int, passes: nat) -> (
    Seq<Seq<u64>>,
    Seq<u8>,
)
    decreases passes,
{
    if passes == 0 {
        (initial_centers(data, num_clusters, dimension), Seq::new(data.len(), |p: int| 0u8))
    } else {
        let before = lloyd(data, num_clusters, dimension, (passes - 1) as nat);
        let assignments = assign(before.0, data);
        (next_centers(data, assignments, num_clusters, dimension), assignments)
    }
}

/// The centres as they are returned.
pub open spec fn means_view(means: Seq<Vec<usize>>) -> Seq<Seq<u64>> {
    Seq::new(means.len(), |c: int| Seq::new(means[c]@.len(), |d: int| means[c]@[d] as u64))
}

/// Whether every point has `dimension` coordinates.
pub open spec fn well_shaped(data: Seq<Vec<u8>>, dimension: int) -> bool {
    forall|p: int| 0 <= p < data.len() ==> (#[trigger] data[p])@.len() == dimension
}

/// Whether every centre has `dimension` coordinates, none above the largest.
pub open spec fn centers_bounded(centers: Seq<Vec<u64>>, dimension: int) -> bool {
    forall|c: int|
        0 <= c < centers.len() ==> (#[trigger] centers[c])@.len() == dimension && forall|d: int|
            0 <= d < dimension ==> #[trigger] centers[c]@[d] <= MAX_CENTER
}

proof fn lemma_squared_distance_bound(center: Seq<u64>, point: Seq<u8>, k: int)
    requires
        0 <= k <= center.len(),
        k <= point.len(),
        forall|d: int| 0 <= d < center.len() ==> #[trigger] center[d] <= MAX_CENTER,
    ensures
        0 <= squared_distance(center, point, k) <= k * 6502500000000,
    decreases k,
{
    if k > 0 {
        lemma_squared_distance_bound(center, point, k - 1);
        let diff = center[k - 1] as int - CENTER_SCALE as int * point[k - 1] as int;
        assert(-2550000 <= diff <= 2550000);
        assert(0 <= diff * diff <= 6502500000000) by (nonlinear_arith)
            requires
                -2550000 <= diff <= 2550000,
        ;
    }
}

/// A cluster holds at most as many points as there are, and its sums are at most 255
/// for every point.
pub proof fn lemma_cluster_sum_bound(data: Seq<Seq<u8>>, assignments: Seq<u8>, c: int, d: int, upto: int)
    requires
        0 <= upto,
    ensures
        0 <= cluster_size(assignments, c, upto) <= upto,
        0 <= cluster_sum(data, assignments, c, d, upto) <= 255 * cluster_size(assignments, c, upto),
    decreases upto,
{
    if upto > 0 {
        lemma_cluster_sum_bound(data, assignments, c, d, upto - 1);
    }
}

/// Computes the squared distance between a scaled centre and a point.
fn distance(center: &Vec<u64>, point: &Vec<u8>) -> (dist: u64)
    requires
        center@.len() == point@.len(),
        point@.len() <= 0x10000,
        forall|d: int| 0 <= d < center@.len() ==> #[trigger] center@[d] <= MAX_CENTER,
    ensures
        dist == squared_distance(center@, point@, point@.len() as int),
{
    let mut dist: u64 = 0;
    let mut d: usize = 0;
    while d < point.len()
        invariant
            d <= point@.len(),
            center@.len() == point@.len(),
            point@.len() <= 0x10000,
            forall|d: int| 0 <= d < center@.len() ==> #[trigger] center@[d] <= MAX_CENTER,
            dist == squared_distance(center@, point@, d as int),
        decreases point@.len() - d,
    {
        proof {
            lemma_squared_distance_bound(center@, point@, d as int);
            lemma_squared_distance_bound(center@, point@, d + 1);
        }
        let scaled: u64 = CENTER_SCALE * (point[d] as u64);
        let diff: u64 = if center[d] >= scaled {
            center[d] - scaled
        } else {
            scaled - center[d]
        };
        proof {
            let signed = center@[d as int] as int - CENTER_SCALE as int * point@[d as int] as int;
            assert(diff * diff == signed * signed) by (nonlinear_arith)
                requires
                    diff == signed || diff == -signed,
            ;
            assert(diff * diff <= 6502500000000) by (nonlinear_arith)
                requires
                    0 <= diff <= 2550000,
            ;
        }
        dist = dist + diff * diff;
        d = d + 1;
    }
    dist
}

/// Finds the first cluster whose centre is nearest to the point.
fn nearest_center(centers: &Vec<Vec<u64>>, point: &Vec<u8>) -> (cluster: usize)
    requires
        1 <= centers@.len(),
        point@.len() <= 0x10000,
        centers_bounded(centers@, point@.len() as int),
    ensures
        cluster == nearest(centers_view(centers@), point@, centers@.len() as int),
        cluster < centers@.len(),
{
    let mut min_assignment: usize = 0;
    let mut min_distance: u64 = distance(&centers[0], point);
    let mut cluster_number: usize = 1;
    while cluster_number < centers.len()
        invariant
            1 <= cluster_number <= centers@.len(),
            point@.len() <= 0x10000,
            centers_bounded(centers@, point@.len() as int),
            min_assignment < cluster_number,
            min_assignment == nearest(centers_view(centers@), point@, cluster_number as int),
            min_distance == squared_distance(centers@[min_assignment as int]@, point@, point@.len() as int),
        decreases centers@.len() - cluster_number,
    {
        let dist = distance(&centers[cluster_number], point);
        if dist < min_distance {
            min_distance = dist;
            min_assignment = cluster_number;
        }
        cluster_number = cluster_number + 1;
    }
    min_assignment
}

/// The mean of `count` numbers with the sum `sum`, scaled and rounded down.
fn scaled_mean(sum: u64, count: u64) -> (mean: u64)
    requires
        sum <= 255 * count,
        count <= 0x1_0000_0000,
    ensures
        mean <= MAX_CENTER,
        mean == scaled_mean_spec(sum as int, count as int),
{
    if count == 0 {
        return 0;
    }
    let scaled: u64 = sum * CENTER_SCALE;
    let mean = scaled / count;
    proof {
        assert(scaled <= 2550000 * count);
        vstd::arithmetic::div_mod::lemma_div_is_ordered(scaled as int, 2550000 * count as int, count as int);
        vstd::arithmetic::div_mod::lemma_div_multiples_vanish(2550000, count as int);
        assert(2550000 * count as int == count as int * 2550000) by (nonlinear_arith);
    }
    mean
}

impl<'a> KMeansProblem<'a> {
    /// Whether the problem can be solved: there is a point and a cluster, the clusters
    /// can be numbered in a byte, and every point has `dimension` coordinates.
    pub open spec fn valid(&self) -> bool {
        &&& 1 <= self.num_clusters <= 256
        &&& 1 <= self.data@.len() <= 0x1_0000_0000
        &&& self.dimension <= 0x10000
        &&& well_shaped(self.data@, self.dimension as int)
    }

    /// Takes the first centres from the data.
    fn first_centers(&self) -> (centers: Vec<Vec<u64>>)
        requires
            self.valid(),
        ensures
            centers@.len() == self.num_clusters,
            centers_bounded(centers@, self.dimension as int),
            centers_view(centers@) == initial_centers(
                data_view(self.data@),
                self.num_clusters as int,
                self.dimension as int,
            ),
    {
        let n = self.data.len();
        let mut centers: Vec<Vec<u64>> = Vec::new();
        let mut i: usize = 0;
        while i < self.num_clusters
            invariant
                self.valid(),
                n == self.data@.len(),
                i <= self.num_clusters,
                centers@.len() == i,
                centers_bounded(centers@, self.dimension as int),
                forall|c: int|
                    0 <= c < i ==> (#[trigger] centers@[c])@ == initial_centers(
                        data_view(self.data@),
                        self.num_clusters as int,
                        self.dimension as int,
                    )[c],
            decreases self.num_clusters - i,
        {
            proof {
                assert(i * n / (self.num_clusters as int) < n) by (nonlinear_arith)
                    requires
                        0 <= i < self.num_clusters,
                        0 < n,
                ;
                assert(0 <= i * n <= 256 * 0x1_0000_0000) by (nonlinear_arith)
                    requires
                        0 <= i <= 256,
                        0 <= n <= 0x1_0000_0000,
                ;
            }
            let index = ((i as u64) * (n as u64) / (self.num_clusters as u64)) as usize;
            let point = &self.data[index];
            let mut center: Vec<u64> = Vec::new();
            let mut d: usize = 0;
            while d < point.len()
                invariant
                    d <= point@.len(),
                    center@.len() == d,
                    forall|e: int| 0 <= e < d ==> #[trigger] center@[e] == CENTER_SCALE * point@[e],
                decreases point@.len() - d,
            {
                center.push(CENTER_SCALE * (point[d] as u64));
                d = d + 1;
            }
            let ghost before = centers@;
            proof {
                assert(center@ =~= initial_centers(
                    data_view(self.data@),
                    self.num_clusters as int,
                    self.dimension as int,
                )[i as int]);
            }
            centers.push(center);
            proof {
                assert forall|c: int| 0 <= c < centers@.len() implies (#[trigger] centers@[c])@.len()
                    == self.dimension && forall|d: int|
                    0 <= d < self.dimension ==> #[trigger] centers@[c]@[d] <= MAX_CENTER by {
                    if c < before.len() {
                        assert(centers@[c] == before[c]);
                    }
                }
                assert forall|c: int| 0 <= c < i + 1 implies (#[trigger] centers@[c])@ == initial_centers(
                    data_view(self.data@),
                    self.num_clusters as int,
                    self.dimension as int,
                )[c] by {
                    if c < before.len() {
                        assert(centers@[c] == before[c]);
                    }
                }
            }
            i = i + 1;
        }
        proof {
            assert(centers_view(centers@) =~= initial_centers(
                data_view(self.data@),
                self.num_clusters as int,
                self.dimension as int,
            ));
        }
        centers
    }

    /// Assigns every point to the first cluster whose centre is nearest.
    fn assign_points(&self, centers: &Vec<Vec<u64>>) -> (assignments: Vec<u8>)
        requires
            self.valid(),
            centers@.len() == self.num_clusters,
            centers_bounded(centers@, self.dimension as int),
        ensures
            assignments@ == assign(centers_view(centers@), data_view(self.data@)),
            forall|p: int| 0 <= p < assignments@.len() ==> (#[trigger] assignments@[p] as int) < self.num_clusters,
    {
        let n = self.data.len();
        let mut assignments: Vec<u8> = Vec::new();
        let mut p: usize = 0;
        while p < n
            invariant
                self.valid(),
                n == self.data@.len(),
                p <= n,
                centers@.len() == self.num_clusters,
                centers_bounded(centers@, self.dimension as int),
                assignments@.len() == p,
                forall|q: int|
                    0 <= q < p ==> #[trigger] assignments@[q] == assign(
                        centers_view(centers@),
                        data_view(self.data@),
                    )[q] && (assignments@[q] as int) < self.num_clusters,
            decreases n - p,
        {
            let assignment = nearest_center(centers, &self.data[p]);
            assignments.push(assignment as u8);
            p = p + 1;
        }
        proof {
            assert(assignments@ =~= assign(centers_view(centers@), data_view(self.data@)));
        }
        assignments
    }

    /// Moves every centre to the mean of the points of its cluster.
    fn update_centers(&self, assignments: &Vec<u8>) -> (centers: Vec<Vec<u64>>)
        requires
            self.valid(),
            assignments@.len() == self.data@.len(),
            forall|p: int| 0 <= p < assignments@.len() ==> (#[trigger] assignments@[p] as int) < self.num_clusters,
        ensures
            centers@.len() == self.num_clusters,
            centers_bounded(centers@, self.dimension as int),
            centers_view(centers@) == next_centers(
                data_view(self.data@),
                assignments@,
                self.num_clusters as int,
                self.dimension as int,
            ),
    {
        let n = self.data.len();
        let ghost data = data_view(self.data@);
        let mut centers: Vec<Vec<u64>> = Vec::new();
        let mut c: usize = 0;
        while c < self.num_clusters
            invariant
                self.valid(),
                n == self.data@.len(),
                data == data_view(self.data@),
                assignments@.len() == n,
                c <= self.num_clusters,
                centers@.len() == c,
                centers_bounded(centers@, self.dimension as int),
                forall|k: int|
                    0 <= k < c ==> (#[trigger] centers@[k])@ == next_centers(
                        data,
                        assignments@,
                        self.num_clusters as int,
                        self.dimension as int,
                    )[k],
            decreases self.num_clusters - c,
        {
            let mut sums: Vec<u64> = vec![0; self.dimension];
            let mut size: u64 = 0;
            let mut p: usize = 0;
            while p < n
                invariant
                    self.valid(),
                    n == self.data@.len(),
                    data == data_view(self.data@),
                    assignments@.len() == n,
                    p <= n,
                    c < self.num_clusters,
                    sums@.len() == self.dimension,
                    size == cluster_size(assignments@, c as int, p as int),
                    size <= p,
                    forall|d: int|
                        0 <= d < self.dimension ==> #[trigger] sums@[d] == cluster_sum(
                            data,
                            assignments@,
                            c as int,
                            d,
                            p as int,
                        ) && sums@[d] <= 255 * size,
                decreases n - p,
            {
                if assignments[p] as usize == c {
                    let point = &self.data[p];
                    let ghost before = sums@;
                    let mut d: usize = 0;
                    while d < self.dimension
                        invariant
                            d <= self.dimension,
                            p < n,
                            n == self.data@.len(),
                            sums@.len() == self.dimension,
                            before.len() == self.dimension,
                            point@.len() == self.dimension,
                            size <= p < 0x1_0000_0000,
                            forall|e: int| 0 <= e < self.dimension ==> #[trigger] before[e] <= 255 * size,
                            forall|e: int| 0 <= e < d ==> #[trigger] sums@[e] == before[e] + point@[e],
                            forall|e: int| d <= e < self.dimension ==> #[trigger] sums@[e] == before[e],
                        decreases self.dimension - d,
                    {
                        sums[d] = sums[d] + point[d] as u64;
                        d = d + 1;
                    }
                    size = size + 1;
                    proof {
                        assert(data[p as int] == point@);
                    }
                }
                p = p + 1;
            }
            let mut center: Vec<u64> = Vec::new();
            let mut d: usize = 0;
            while d < self.dimension
                invariant
                    d <= self.dimension,
                    sums@.len() == self.dimension,
                    size <= n <= 0x1_0000_0000,
                    size == cluster_size(assignments@, c as int, n as int),
                    forall|e: int|
                        0 <= e < self.dimension ==> #[trigger] sums@[e] == cluster_sum(
                            data,
                            assignments@,
                            c as int,
                            e,
                            n as int,
                        ) && sums@[e] <= 255 * size,
                    center@.len() == d,
                    forall|e: int|
                        0 <= e < d ==> #[trigger] center@[e] <= MAX_CENTER && center@[e] == scaled_mean_spec(
                            cluster_sum(data, assignments@, c as int, e, n as int),
                            cluster_size(assignments@, c as int, n as int),
                        ),
                decreases self.dimension - d,
            {
                center.push(scaled_mean(sums[d], size));
                d = d + 1;
            }
            let ghost before = centers@;
            proof {
                assert(center@ =~= next_centers(
                    data,
                    assignments@,
                    self.num_clusters as int,
                    self.dimension as int,
                )[c as int]);
            }
            centers.push(center);
            proof {
                assert forall|k: int| 0 <= k < centers@.len() implies (#[trigger] centers@[k])@.len()
                    == self.dimension && forall|d: int|
                    0 <= d < self.dimension ==> #[trigger] centers@[k]@[d] <= MAX_CENTER by {
                    if k < before.len() {
                        assert(centers@[k] == before[k]);
                    }
                }
                assert forall|k: int| 0 <= k < c + 1 implies (#[trigger] centers@[k])@ == next_centers(
                    data,
                    assignments@,
                    self.num_clusters as int,
                    self.dimension as int,
                )[k] by {
                    if k < before.len() {
                        assert(centers@[k] == before[k]);
                    }
                }
            }
            c = c + 1;
        }
        proof {
            assert(centers_view(centers@) =~= next_centers(
                data,
                assignments@,
                self.num_clusters as int,
                self.dimension as int,
            ));
        }
        centers
    }

    /// Clusters the points by Lloyd's algorithm. The first centres are points spread
    /// evenly over the data. Every pass assigns each point to the first nearest centre
    /// and then moves each centre to the mean of its points; a cluster without points
    /// gets the origin as its centre. Centres are kept scaled by 10000 and rounded down.
    pub fn solve(self) -> (result: KMeansResult)
        requires
            self.valid(),
        ensures
            result.assignments@ == lloyd(
                data_view(self.data@),
                self.num_clusters as int,
                self.dimension as int,
                self.num_iterations as nat,
            ).1,
            means_view(result.means@) == lloyd(
                data_view(self.data@),
                self.num_clusters as int,
                self.dimension as int,
                self.num_iterations as nat,
            ).0,
            result.assignments@.len() == self.data@.len(),
            forall|p: int| 0 <= p < result.assignments@.len() ==> (#[trigger] result.assignments@[p] as int) < self.num_clusters,
            result.means@.len() == self.num_clusters,
            forall|c: int|
                0 <= c < result.means@.len() ==> (#[trigger] result.means@[c])@.len() == self.dimension
                    && forall|d: int| 0 <= d < self.dimension ==> #[trigger] result.means@[c]@[d] <= MAX_CENTER,
    {
        let n = self.data.len();
        let mut centers = self.first_centers();
        let mut cluster_assignments: Vec<u8> = vec![0; n];
        let mut iteration: usize = 0;
        proof {
            assert(cluster_assignments@ =~= Seq::new(n as nat, |p: int| 0u8));
        }
        while iteration < self.num_iterations
            invariant
                self.valid(),
                n == self.data@.len(),
                iteration <= self.num_iterations,
                centers@.len() == self.num_clusters,
                centers_bounded(centers@, self.dimension as int),
                cluster_assignments@.len() == n,
                forall|p: int| 0 <= p < n ==> (#[trigger] cluster_assignments@[p] as int) < self.num_clusters,
                (centers_view(centers@), cluster_assignments@) == lloyd(
                    data_view(self.data@),
                    self.num_clusters as int,
                    self.dimension as int,
                    iteration as nat,
                ),
            decreases self.num_iterations - iteration,
        {
            cluster_assignments = self.assign_points(&centers);
            centers = self.update_centers(&cluster_assignments);
            iteration = iteration + 1;
        }
        let mut means: Vec<Vec<usize>> = Vec::new();
        let mut c: usize = 0;
        while c < self.num_clusters
            invariant
                c <= self.num_clusters,
                centers@.len() == self.num_clusters,
                centers_bounded(centers@, self.dimension as int),
                means@.len() == c,
                forall|k: int|
                    0 <= k < c ==> (#[trigger] means@[k])@.len() == self.dimension && forall|d: int|
                        0 <= d < self.dimension ==> #[trigger] means@[k]@[d] == centers@[k]@[d],
            decreases self.num_clusters - c,
        {
            let mut mean: Vec<usize> = Vec::new();
            let mut d: usize = 0;
            while d < self.dimension
                invariant
                    d <= self.dimension,
                    c < self.num_clusters,
                    centers@.len() == self.num_clusters,
                    centers@[c as int]@.len() == self.dimension,
                    forall|e: int| 0 <= e < self.dimension ==> #[trigger] centers@[c as int]@[e] <= MAX_CENTER,
                    mean@.len() == d,
                    forall|e: int| 0 <= e < d ==> #[trigger] mean@[e] == centers@[c as int]@[e],
                decreases self.dimension - d,
            {
                mean.push(centers[c][d] as usize);
                d = d + 1;
            }
            let ghost before = means@;
            means.push(mean);
            proof {
                assert forall|k: int| 0 <= k < means@.len() implies (#[trigger] means@[k])@.len()
                    == self.dimension && forall|d: int|
                    0 <= d < self.dimension ==> #[trigger] means@[k]@[d] == centers@[k]@[d] by {
                    if k < before.len() {
                        assert(means@[k] == before[k]);
                    }
                }
            }
            c = c + 1;
        }
        proof {
            assert(means_view(means@) =~= centers_view(centers@)) by {
                assert forall|k: int| 0 <= k < means@.len() implies means_view(means@)[k] == centers_view(
                    centers@,
                )[k] by {
                    assert(means@[k]@.len() == self.dimension);
                    assert(means_view(means@)[k] =~= centers@[k]@);
                }
            }
            assert forall|k: int| 0 <= k < means@.len() implies (#[trigger] means@[k])@.len()
                == self.dimension && forall|d: int|
                0 <= d < self.dimension ==> #[trigger] means@[k]@[d] <= MAX_CENTER by {
                assert(centers@[k]@.len() == self.dimension);
            }
        }
        KMeansResult { assignments: cluster_assignments, means }
    }
}

} // verus!
