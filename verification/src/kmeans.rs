use crate::error::VectorDbError;
use crate::ivf::{nearest, nearest_position};
use crate::ranking::{distance_rank, rank_of};
use rand::seq::SliceRandom;
use vstd::prelude::*;

verus! {

/// The number of rounds after which fitting ends at the latest.
pub const DEFAULT_MAX_ITER: usize = 50;

/// The bit pattern of the single-precision number nearest to 0.0001: the
/// shift of the centroids below which fitting ends.
pub const DEFAULT_TOLERANCE: u32 = 0x38d1_b717;

/// What the caller of a fitting step does next.
#[derive(Debug, Clone, Copy, PartialEq, Eq, Structural)]
pub enum FitStep {
    /// Nothing: fitting has ended.
    Done,
    /// Pick one more centroid among the data, each point weighted by its
    /// distance to its nearest centroid, and hand its position to `seed`.
    Seed,
    /// Assign each point to its nearest centroid, take the mean of each
    /// cluster, and hand the means and their shift to `update`.
    Iterate,
}

/// A k-means trainer under cosine distance. It keeps the centroids and
/// decides how fitting goes on; distances and means are computed by the
/// caller. Components are single-precision bit patterns.
///
/// `fit` runs the whole procedure. `begin`, `seed` and `update` are its
/// steps, for callers that run it themselves.
#[derive(Debug)]
pub struct KMeans {
    pub centroids: Vec<Vec<u32>>,
    /// The number of clusters to fit; at most the number of points, once
    /// fitting has begun.
    pub n_clusters: usize,
    /// The number of rounds after which fitting ends at the latest.
    pub max_iter: usize,
    /// The shift of the centroids below which fitting ends, as a
    /// single-precision bit pattern.
    pub tolerance: u32,
    /// The number of rounds since fitting began.
    pub iterations: usize,
}

/// What comes after a centroid was chosen: one more where they are fewer
/// than the clusters, then rounds if any are allowed.
pub open spec fn step_after_seed(n_centroids: nat, n_clusters: nat, max_iter: nat) -> FitStep {
    if n_centroids < n_clusters {
        FitStep::Seed
    } else if max_iter > 0 {
        FitStep::Iterate
    } else {
        FitStep::Done
    }
}

/// What comes after a round: fitting ends where the centroids moved by
/// less than the tolerance, or the rounds are used up.
pub open spec fn step_after_round(shift: u32, tolerance: u32, iterations: nat, max_iter: nat) -> FitStep {
    if distance_rank(shift) < distance_rank(tolerance) || iterations >= max_iter {
        FitStep::Done
    } else {
        FitStep::Iterate
    }
}

/// `SliceRandom::choose` of rand on a slice, with the generator that
/// `rand::thread_rng` gives the calling thread: one of the given numbers,
/// whichever chance picks, or nothing where none are given. Nothing is
/// claimed of which number comes. The generator is seeded by the system
/// when a thread first uses it, and panics where the system has no seed
/// to give.
#[verifier::external_body]
fn choose_one(candidates: &Vec<usize>) -> (r: Option<usize>)
    ensures
        candidates@.len() == 0 ==> r is None,
        candidates@.len() > 0 ==> r is Some && candidates@.contains(r->0),
{
    candidates.choose(&mut rand::thread_rng()).copied()
}

/// A position below `n`, whichever chance picks; nothing for `n == 0`.
pub fn random_position(n: usize) -> (r: Option<usize>)
    ensures
        n == 0 ==> r is None,
        n > 0 ==> r is Some && r->0 < n,
{
    let mut candidates: Vec<usize> = Vec::new();
    let mut i: usize = 0;
    while i < n
        invariant
            i <= n,
            candidates@.len() == i,
            forall|j: int| 0 <= j < i ==> (#[trigger] candidates@[j]) == j,
        decreases n - i,
    {
        candidates.push(i);
        i += 1;
    }
    let r = choose_one(&candidates);
    proof {
        if n > 0 {
            let j = choose|j: int| 0 <= j < candidates@.len() && candidates@[j] == r->0;
            assert(candidates@[j] == j);
        }
    }
    r
}

impl KMeans {
    /// A trainer for `n_clusters` clusters, without centroids.
    pub fn new(n_clusters: usize) -> (r: KMeans)
        ensures
            r.centroids@.len() == 0,
            r.n_clusters == n_clusters,
            r.max_iter == DEFAULT_MAX_ITER,
            r.tolerance == DEFAULT_TOLERANCE,
            r.iterations == 0,
    {
        KMeans {
            centroids: Vec::new(),
            n_clusters,
            max_iter: DEFAULT_MAX_ITER,
            tolerance: DEFAULT_TOLERANCE,
            iterations: 0,
        }
    }

    /// The same trainer with at most `max_iter` rounds.
    pub fn with_max_iter(self, max_iter: usize) -> (r: KMeans)
        ensures
            r.centroids == self.centroids,
            r.n_clusters == self.n_clusters,
            r.max_iter == max_iter,
            r.tolerance == self.tolerance,
            r.iterations == self.iterations,
    {
        let mut r = self;
        r.max_iter = max_iter;
        r
    }

    /// Fits the centroids to `data`: `begin`, then `seed` and `update` for
    /// as long as they ask for more.
    ///
    /// What is computed on components is the caller's: `pick` draws the
    /// position of the next centroid, given the centroids so far;
    /// `distances` gives, for the centroids, each point's distance to each
    /// of them; `means` gives the mean of each cluster and the shift of
    /// the centroids, given the centroids and each point's cluster.
    /// Fitting fails where `pick` names no point or `means` gives another
    /// number of centroids; it succeeds where they are known not to.
    pub fn fit<P, D, M>(&mut self, data: &Vec<Vec<u32>>, pick: P, distances: D, means: M) -> (r:
        Result<(), VectorDbError>) where
        P: Fn(&Vec<Vec<u32>>) -> usize,
        D: Fn(&Vec<Vec<u32>>) -> Vec<Vec<u32>>,
        M: Fn(&Vec<Vec<u32>>, &Vec<usize>) -> (Vec<Vec<u32>>, u32),

        requires
            forall|c: &Vec<Vec<u32>>| pick.requires((c,)),
            forall|c: &Vec<Vec<u32>>| distances.requires((c,)),
            forall|c: &Vec<Vec<u32>>, k: &Vec<usize>| means.requires((c, k)),
        ensures
            final(self).n_clusters == if data@.len() < old(self).n_clusters {
                data@.len()
            } else {
                old(self).n_clusters as nat
            },
            final(self).max_iter == old(self).max_iter,
            final(self).tolerance == old(self).tolerance,
            data@.len() == 0 ==> r is Ok && final(self).centroids == old(self).centroids
                && final(self).iterations == old(self).iterations,
            data@.len() > 0 && r is Ok ==> final(self).centroids@.len() >= 1,
            data@.len() > 0 && r is Ok ==> final(self).centroids@.len() >= final(self).n_clusters,
            data@.len() > 0 && r is Ok ==> final(self).iterations <= final(self).max_iter,
            r matches Err(e) ==> e is InvalidConfig,
            (forall|c: &Vec<Vec<u32>>, p: usize| pick.ensures((c,), p) ==> p < data@.len()) && (
            forall|c: &Vec<Vec<u32>>, k: &Vec<usize>, out: (Vec<Vec<u32>>, u32)|
                means.ensures((c, k), out) ==> out.0@.len() == c@.len()) ==> r is Ok,
    {
        let ghost well = (forall|c: &Vec<Vec<u32>>, p: usize|
            pick.ensures((c,), p) ==> p < data@.len()) && (forall|
            c: &Vec<Vec<u32>>,
            k: &Vec<usize>,
            out: (Vec<Vec<u32>>, u32),
        | means.ensures((c, k), out) ==> out.0@.len() == c@.len());
        let mut step = self.begin(data);
        loop
            invariant
                self.n_clusters == if data@.len() < old(self).n_clusters {
                    data@.len()
                } else {
                    old(self).n_clusters as nat
                },
                self.max_iter == old(self).max_iter,
                self.tolerance == old(self).tolerance,
                data@.len() == 0 ==> step == FitStep::Done && self.centroids == old(self).centroids
                    && self.iterations == old(self).iterations,
                data@.len() > 0 ==> self.centroids@.len() >= 1,
                step == FitStep::Seed ==> self.centroids@.len() < self.n_clusters,
                step == FitStep::Seed ==> self.iterations == 0,
                step != FitStep::Seed && data@.len() > 0 ==> self.centroids@.len() >= self.n_clusters,
                step == FitStep::Iterate ==> self.iterations < self.max_iter,
                data@.len() > 0 ==> self.iterations <= self.max_iter,
                forall|c: &Vec<Vec<u32>>| pick.requires((c,)),
                forall|c: &Vec<Vec<u32>>| distances.requires((c,)),
                forall|c: &Vec<Vec<u32>>, k: &Vec<usize>| means.requires((c, k)),
                well ==> forall|c: &Vec<Vec<u32>>, p: usize| pick.ensures((c,), p) ==> p < data@.len(),
                well ==> forall|c: &Vec<Vec<u32>>, k: &Vec<usize>, out: (Vec<Vec<u32>>, u32)|
                    means.ensures((c, k), out) ==> out.0@.len() == c@.len(),
            decreases
                    (if self.centroids@.len() < self.n_clusters {
                        self.n_clusters - self.centroids@.len()
                    } else {
                        0
                    }) + (if step == FitStep::Done {
                        0
                    } else {
                        1 + self.max_iter - self.iterations
                    }),
        {
            match step {
                FitStep::Done => {
                    return Ok(());
                },
                FitStep::Seed => {
                    let position = pick(&self.centroids);
                    match self.seed(data, position) {
                        Ok(next) => {
                            step = next;
                        },
                        Err(e) => {
                            return Err(e);
                        },
                    }
                },
                FitStep::Iterate => {
                    let rows = distances(&self.centroids);
                    let clusters = self.assign_clusters(&rows);
                    let (centroids, shift) = means(&self.centroids, &clusters);
                    match self.update(centroids, shift) {
                        Ok(next) => {
                            step = next;
                        },
                        Err(e) => {
                            return Err(e);
                        },
                    }
                },
            }
        }
    }

    /// Begins fitting on `data`. No more clusters are fitted than there
    /// are points. Without points nothing else changes and fitting has
    /// ended; otherwise one point, whichever chance picks, becomes the
    /// only centroid.
    pub fn begin(&mut self, data: &Vec<Vec<u32>>) -> (r: FitStep)
        ensures
            final(self).n_clusters == if data@.len() < old(self).n_clusters {
                data@.len()
            } else {
                old(self).n_clusters as nat
            },
            final(self).max_iter == old(self).max_iter,
            final(self).tolerance == old(self).tolerance,
            data@.len() == 0 ==> r == FitStep::Done && final(self).centroids == old(self).centroids
                && final(self).iterations == old(self).iterations,
            data@.len() > 0 ==> final(self).iterations == 0 && final(self).centroids@.len() == 1
                && (exists|i: int|
                0 <= i < data@.len() && final(self).centroids@[0]@ == (#[trigger] data@[i])@) && r
                == step_after_seed(1, final(self).n_clusters as nat, final(self).max_iter as nat),
    {
        if data.len() < self.n_clusters {
            self.n_clusters = data.len();
        }
        match random_position(data.len()) {
            Some(first) => {
                let seed = data[first].clone();
                assert(seed@ =~= data@[first as int]@);
                let mut centroids: Vec<Vec<u32>> = Vec::new();
                centroids.push(seed);
                self.centroids = centroids;
                self.iterations = 0;
                self.next_after_seed()
            },
            None => FitStep::Done,
        }
    }

    /// What comes after a centroid was chosen.
    fn next_after_seed(&self) -> (r: FitStep)
        ensures
            r == step_after_seed(
                self.centroids@.len(),
                self.n_clusters as nat,
                self.max_iter as nat,
            ),
    {
        if self.centroids.len() < self.n_clusters {
            FitStep::Seed
        } else if self.max_iter > 0 {
            FitStep::Iterate
        } else {
            FitStep::Done
        }
    }

    /// Makes the point at `position` one more centroid. A position that
    /// is none of `data` is refused, and so is a centroid beyond the
    /// number of clusters; nothing changes then.
    pub fn seed(&mut self, data: &Vec<Vec<u32>>, position: usize) -> (r: Result<
        FitStep,
        VectorDbError,
    >)
        ensures
            final(self).n_clusters == old(self).n_clusters,
            final(self).max_iter == old(self).max_iter,
            final(self).tolerance == old(self).tolerance,
            final(self).iterations == old(self).iterations,
            position >= data@.len() || old(self).centroids@.len() >= old(self).n_clusters ==> (
            r matches Err(VectorDbError::InvalidConfig(m)) && m@ == "no such centroid to add"@)
                && final(self).centroids == old(self).centroids,
            position < data@.len() && old(self).centroids@.len() < old(self).n_clusters ==> (
            r matches Ok(step) && step == step_after_seed(
                final(self).centroids@.len(),
                final(self).n_clusters as nat,
                final(self).max_iter as nat,
            )) && final(self).centroids.deep_view() == old(self).centroids.deep_view().push(
                data@[position as int]@,
            ) && final(self).centroids@.len() == old(self).centroids@.len() + 1,
    {
        if position >= data.len() || self.centroids.len() >= self.n_clusters {
            return Err(VectorDbError::invalid_config("no such centroid to add"));
        }
        let ghost before = self.centroids.deep_view();
        let seed = data[position].clone();
        assert(seed@ =~= data@[position as int]@);
        assert(seed.deep_view() =~= seed@);
        self.centroids.push(seed);
        assert(self.centroids.deep_view() =~= before.push(data@[position as int]@));
        Ok(self.next_after_seed())
    }

    /// Ends a round: `centroids` take the place of the centroids, which
    /// they differ from by `shift`. The number of centroids stays as it
    /// is: another number is refused and nothing changes.
    pub fn update(&mut self, centroids: Vec<Vec<u32>>, shift: u32) -> (r: Result<
        FitStep,
        VectorDbError,
    >)
        ensures
            final(self).n_clusters == old(self).n_clusters,
            final(self).max_iter == old(self).max_iter,
            final(self).tolerance == old(self).tolerance,
            centroids@.len() != old(self).centroids@.len() ==> (
            r matches Err(VectorDbError::InvalidConfig(m)) && m@
                == "the number of centroids must stay"@) && final(self).centroids == old(
                self,
            ).centroids && final(self).iterations == old(self).iterations,
            centroids@.len() == old(self).centroids@.len() ==> final(self).centroids == centroids
                && final(self).iterations == (if old(self).iterations < usize::MAX {
                old(self).iterations + 1
            } else {
                usize::MAX as int
            }) && r == Ok::<FitStep, VectorDbError>(
                step_after_round(
                    shift,
                    old(self).tolerance,
                    final(self).iterations as nat,
                    old(self).max_iter as nat,
                ),
            ),
    {
        if centroids.len() != self.centroids.len() {
            return Err(VectorDbError::invalid_config("the number of centroids must stay"));
        }
        self.centroids = centroids;
        self.iterations = self.iterations.saturating_add(1);
        if rank_of(shift) < rank_of(self.tolerance) || self.iterations >= self.max_iter {
            Ok(FitStep::Done)
        } else {
            Ok(FitStep::Iterate)
        }
    }

    /// The cluster of a point whose distance to each centroid is given:
    /// the nearest centroid, the first among equally near ones; 0 without
    /// centroids.
    pub fn predict(&self, distances: &Vec<u32>) -> (r: usize)
        ensures
            r == if self.centroids@.len() == 0 {
                0
            } else {
                nearest_position(distances@)
            },
    {
        if self.centroids.len() == 0 {
            0
        } else {
            nearest(distances)
        }
    }

    /// The cluster of each point, given each point's distance to each
    /// centroid.
    pub fn assign_clusters(&self, distance_rows: &Vec<Vec<u32>>) -> (r: Vec<usize>)
        ensures
            r@.len() == distance_rows@.len(),
            forall|i: int|
                0 <= i < r@.len() ==> (#[trigger] r@[i]) == if self.centroids@.len() == 0 {
                    0
                } else {
                    nearest_position(distance_rows@[i]@)
                },
    {
        let mut clusters: Vec<usize> = Vec::new();
        let mut i: usize = 0;
        while i < distance_rows.len()
            invariant
                i <= distance_rows@.len(),
                clusters@.len() == i,
                forall|j: int|
                    0 <= j < i ==> (#[trigger] clusters@[j]) == if self.centroids@.len() == 0 {
                        0
                    } else {
                        nearest_position(distance_rows@[j]@)
                    },
            decreases distance_rows.len() - i,
        {
            clusters.push(self.predict(&distance_rows[i]));
            i += 1;
        }
        clusters
    }
}

} // verus!
