//! The path-generation engine: a neighbor model over the sounding cloud and
//! the family of path-to-path refinement operators.

use vstd::prelude::*;

use crate::bathymetry::{all_valid, position_valid, Bathymetry, Position};
use crate::geometry::{is_within, midpoint, spec_midpoint, sq_dist, sq_dist_i128, within_meters,
    RADIUS_M_MAX};

verus! {

/// Largest accepted resolution, in metres.
pub const RESOLUTION_MAX: usize = 1_000_000;

/// The engine: a read-only sounding cloud, a resolution radius in metres,
/// and a flag selecting depth-weighted edge costs.
pub struct ThalwegGenerator {
    /// The full point cloud, fixed for the generator's lifetime.
    pub data: Vec<Bathymetry>,
    /// Search radius and target spacing, in metres.
    pub resolution: usize,
    /// When set, path-search edge costs favour deeper water.
    pub weighted: bool,
}

impl ThalwegGenerator {
    /// Well-formedness: every sounding valid, resolution positive and bounded.
    pub open spec fn wf(self) -> bool {
        all_valid(self.data@) && 1 <= self.resolution <= RESOLUTION_MAX
    }

    /// Build an engine over a point cloud.
    pub fn new(data: Vec<Bathymetry>, resolution: usize, weighted: bool) -> (r: Self)
        requires
            all_valid(data@),
            1 <= resolution <= RESOLUTION_MAX,
        ensures
            r == (ThalwegGenerator { data, resolution, weighted }),
            r.wf(),
    {
        ThalwegGenerator { data, resolution, weighted }
    }

    /// The soundings of `cloud`, in build order, whose distance to `center`
    /// is at most `radius_m` metres.
    pub open spec fn neighbors_spec(cloud: Seq<Bathymetry>, center: Position, radius_m: int)
        -> Seq<Bathymetry>
        decreases cloud.len(),
    {
        if cloud.len() == 0 {
            Seq::empty()
        } else {
            Self::neighbors_spec(cloud.drop_last(), center, radius_m) + (if within_meters(
                center,
                cloud.last().spec_position(),
                radius_m,
            ) {
                seq![cloud.last()]
            } else {
                Seq::<Bathymetry>::empty()
            })
        }
    }

    /// All recorded soundings within `radius_m` metres of `center`,
    /// including any exactly at the center. No ordering is promised beyond
    /// the cloud's build order.
    pub fn neighbors_within(&self, center: Position, radius_m: u64) -> (r: Vec<Bathymetry>)
        requires
            self.wf(),
            position_valid(center),
            radius_m <= RADIUS_M_MAX,
        ensures
            r@ == Self::neighbors_spec(self.data@, center, radius_m as int),
            all_valid(r@),
    {
        let mut out: Vec<Bathymetry> = Vec::new();
        let n = self.data.len();
        let mut i: usize = 0;
        while i < n
            invariant
                self.wf(),
                position_valid(center),
                radius_m <= RADIUS_M_MAX,
                n == self.data@.len(),
                i <= n,
                out@ == Self::neighbors_spec(self.data@.take(i as int), center, radius_m as int),
                all_valid(out@),
            decreases n - i,
        {
            let b = self.data[i];
            proof {
                assert(self.data@[i as int].valid());
            }
            if is_within(center, b.position(), radius_m) {
                out.push(b);
            }
            proof {
                assert(self.data@.take(i + 1 as int).drop_last() =~= self.data@.take(i as int));
                assert(self.data@.take(i + 1 as int).last() == self.data@[i as int]);
                assert(out@ =~= Self::neighbors_spec(
                    self.data@.take(i + 1 as int),
                    center,
                    radius_m as int,
                ));
            }
            i += 1;
        }
        proof {
            assert(self.data@.take(n as int) =~= self.data@);
        }
        out
    }

    /// The first index among the first `k` entries of `cloud` whose position
    /// is nearest to `p`; ties keep the earlier index.
    pub open spec fn nearest_in(cloud: Seq<Bathymetry>, p: Position, k: nat) -> int
        decreases k,
    {
        if k <= 1 {
            0
        } else {
            let b = Self::nearest_in(cloud, p, (k - 1) as nat);
            if sq_dist(cloud[k - 1].spec_position(), p) < sq_dist(cloud[b].spec_position(), p) {
                k - 1
            } else {
                b
            }
        }
    }

    /// The index of the sounding nearest to `p`: least distance, ties broken
    /// toward the first in build order.
    pub open spec fn nearest_idx(cloud: Seq<Bathymetry>, p: Position) -> int {
        Self::nearest_in(cloud, p, cloud.len())
    }

    /// `nearest_in` stays in bounds and minimises the distance over the
    /// prefix it has seen.
    pub proof fn lemma_nearest_in_min(cloud: Seq<Bathymetry>, p: Position, k: nat)
        requires
            1 <= k <= cloud.len(),
        ensures
            0 <= Self::nearest_in(cloud, p, k) < k,
            forall|j: int|
                0 <= j < k ==> sq_dist(cloud[Self::nearest_in(cloud, p, k)].spec_position(), p)
                    <= sq_dist(#[trigger] cloud[j].spec_position(), p),
        decreases k,
    {
        if k > 1 {
            Self::lemma_nearest_in_min(cloud, p, (k - 1) as nat);
        }
    }

    /// The nearest recorded sounding stays in bounds and minimises distance.
    pub proof fn lemma_nearest_idx_min(cloud: Seq<Bathymetry>, p: Position)
        requires
            cloud.len() > 0,
        ensures
            0 <= Self::nearest_idx(cloud, p) < cloud.len(),
            forall|j: int|
                0 <= j < cloud.len() ==> sq_dist(
                    cloud[Self::nearest_idx(cloud, p)].spec_position(),
                    p,
                ) <= sq_dist(#[trigger] cloud[j].spec_position(), p),
    {
        Self::lemma_nearest_in_min(cloud, p, cloud.len());
    }

    /// The index of the sounding nearest to `location`.
    pub(crate) fn nearest_index(&self, location: Position) -> (r: usize)
        requires
            self.wf(),
            self.data@.len() > 0,
            position_valid(location),
        ensures
            r == Self::nearest_idx(self.data@, location),
            r < self.data@.len(),
    {
        let n = self.data.len();
        let mut best: usize = 0;
        proof {
            assert(self.data@[0].valid());
        }
        let mut best_d2: i128 = sq_dist_i128(self.data[0].position(), location);
        let mut k: usize = 1;
        while k < n
            invariant
                self.wf(),
                position_valid(location),
                n == self.data@.len(),
                1 <= k <= n,
                best == Self::nearest_in(self.data@, location, k as nat),
                best < k,
                best_d2 == sq_dist(self.data@[best as int].spec_position(), location),
            decreases n - k,
        {
            proof {
                assert(self.data@[k as int].valid());
            }
            let d2 = sq_dist_i128(self.data[k].position(), location);
            if d2 < best_d2 {
                best = k;
                best_d2 = d2;
            }
            k += 1;
        }
        proof {
            Self::lemma_nearest_idx_min(self.data@, location);
        }
        best
    }

    /// The recorded sounding nearest to `location`, absent only when the
    /// cloud is empty. Ties go to the first in build order; which duplicate
    /// wins carries no meaning.
    pub fn nearest(&self, location: Position) -> (r: Option<Bathymetry>)
        requires
            self.wf(),
            position_valid(location),
        ensures
            r is Some <==> self.data@.len() > 0,
            r matches Some(b) ==> b == self.data@[Self::nearest_idx(self.data@, location)]
                && b.valid(),
    {
        if self.data.len() == 0 {
            None
        } else {
            proof {
                Self::lemma_nearest_idx_min(self.data@, location);
            }
            Some(self.data[self.nearest_index(location)])
        }
    }

    /// Replace every point of an externally supplied path by the nearest
    /// recorded sounding, point for point: same length, same order, every
    /// output point drawn from the cloud.
    pub fn from_path(&self, path: &Vec<Bathymetry>) -> (r: Vec<Bathymetry>)
        requires
            self.wf(),
            self.data@.len() > 0,
            all_valid(path@),
        ensures
            r@.len() == path@.len(),
            forall|i: int|
                0 <= i < path@.len() ==> #[trigger] r@[i] == self.data@[Self::nearest_idx(
                    self.data@,
                    path@[i].spec_position(),
                )],
            forall|i: int| 0 <= i < r@.len() ==> self.data@.contains(#[trigger] r@[i]),
            all_valid(r@),
    {
        let mut out: Vec<Bathymetry> = Vec::new();
        let n = path.len();
        let mut i: usize = 0;
        while i < n
            invariant
                self.wf(),
                self.data@.len() > 0,
                all_valid(path@),
                n == path@.len(),
                i <= n,
                out@.len() == i,
                forall|j: int|
                    0 <= j < i ==> #[trigger] out@[j] == self.data@[Self::nearest_idx(
                        self.data@,
                        path@[j].spec_position(),
                    )],
                forall|j: int| 0 <= j < i ==> self.data@.contains(#[trigger] out@[j]),
                all_valid(out@),
            decreases n - i,
        {
            proof {
                assert(path@[i as int].valid());
            }
            let idx = self.nearest_index(path[i].position());
            out.push(self.data[idx]);
            i += 1;
        }
        out
    }

    /// The midpoint-densified path: the points of `path` with the sounding
    /// nearest to each adjacent pair's midpoint inserted between them.
    pub open spec fn add_midpoints_spec(cloud: Seq<Bathymetry>, path: Seq<Bathymetry>)
        -> Seq<Bathymetry> {
        if path.len() < 2 {
            path
        } else {
            Seq::new(
                (2 * path.len() - 1) as nat,
                |i: int|
                    if i % 2 == 0 {
                        path[i / 2]
                    } else {
                        cloud[Self::nearest_idx(
                            cloud,
                            spec_midpoint(
                                path[i / 2].spec_position(),
                                path[i / 2 + 1].spec_position(),
                            ),
                        )]
                    },
            )
        }
    }

    /// Insert between every adjacent pair the recorded sounding nearest to
    /// the pair's geometric midpoint. A path of fewer than two points is
    /// returned unchanged; otherwise the result has `2 n - 1` points.
    pub fn add_midpoints(&self, path: &Vec<Bathymetry>) -> (r: Vec<Bathymetry>)
        requires
            self.wf(),
            self.data@.len() > 0,
            all_valid(path@),
        ensures
            r@ == Self::add_midpoints_spec(self.data@, path@),
            all_valid(r@),
    {
        let n = path.len();
        let mut out: Vec<Bathymetry> = Vec::new();
        if n < 2 {
            if n == 1 {
                out.push(path[0]);
            }
            proof {
                assert(out@ =~= Self::add_midpoints_spec(self.data@, path@));
            }
            return out;
        }
        let mut i: usize = 0;
        while i < n - 1
            invariant
                self.wf(),
                self.data@.len() > 0,
                all_valid(path@),
                n == path@.len(),
                2 <= n,
                i <= n - 1,
                out@.len() == 2 * i,
                forall|j: int|
                    0 <= j < 2 * i ==> #[trigger] out@[j] == Self::add_midpoints_spec(
                        self.data@,
                        path@,
                    )[j],
                all_valid(out@),
            decreases n - i,
        {
            proof {
                assert(path@[i as int].valid());
                assert(path@[i as int + 1].valid());
            }
            out.push(path[i]);
            let mid = midpoint(path[i].position(), path[i + 1].position());
            let idx = self.nearest_index(mid);
            out.push(self.data[idx]);
            proof {
                assert((2 * i as int) % 2 == 0 && (2 * i as int) / 2 == i as int);
                assert((2 * i as int + 1) % 2 == 1 && (2 * i as int + 1) / 2 == i as int);
            }
            i += 1;
        }
        out.push(path[n - 1]);
        proof {
            assert((2 * (n - 1) as int) % 2 == 0);
            assert(out@ =~= Self::add_midpoints_spec(self.data@, path@));
        }
        out
    }
}

/// A sounding is always within any nonnegative radius of its own position,
/// so a radius query centred on a recorded point always includes that point.
pub proof fn lemma_neighbors_include_self(
    cloud: Seq<Bathymetry>,
    p: Bathymetry,
    i: int,
    radius_m: int,
)
    requires
        0 <= i < cloud.len(),
        cloud[i] == p,
        radius_m >= 0,
    ensures
        ThalwegGenerator::neighbors_spec(cloud, p.spec_position(), radius_m).contains(p),
    decreases cloud.len(),
{
    crate::geometry::lemma_sq_le(radius_m, radius_m);
    crate::geometry::lemma_mul_le(
        radius_m * radius_m,
        1,
        radius_m * radius_m,
        100_000_000_000_000,
    );
    assert(within_meters(p.spec_position(), p.spec_position(), radius_m)) by (nonlinear_arith)
        requires radius_m >= 0,
    ;
    if i == cloud.len() - 1 {
        assert(ThalwegGenerator::neighbors_spec(cloud, p.spec_position(), radius_m).last() == p);
    } else {
        lemma_neighbors_include_self(cloud.drop_last(), p, i, radius_m);
        let sub = ThalwegGenerator::neighbors_spec(cloud.drop_last(), p.spec_position(), radius_m);
        let k = choose|k: int| 0 <= k < sub.len() && sub[k] == p;
        assert(ThalwegGenerator::neighbors_spec(cloud, p.spec_position(), radius_m)[k] == p);
    }
}


impl ThalwegGenerator {
    /// The replacement index for a point at `p`: among cloud entries within
    /// `res` metres of `p`, the deepest one, ties broken toward the entry
    /// nearest `p`, further ties toward build order; -1 when none is in
    /// range. Only the first `k` entries are considered.
    pub open spec fn sink_best(cloud: Seq<Bathymetry>, res: int, p: Position, k: nat) -> int
        decreases k,
    {
        if k == 0 {
            -1
        } else {
            let b = Self::sink_best(cloud, res, p, (k - 1) as nat);
            let i = k - 1;
            if !within_meters(p, cloud[i].spec_position(), res) {
                b
            } else if b == -1 {
                i
            } else if cloud[i].depth_mm > cloud[b].depth_mm {
                i
            } else if cloud[i].depth_mm == cloud[b].depth_mm && sq_dist(
                cloud[i].spec_position(),
                p,
            ) < sq_dist(cloud[b].spec_position(), p) {
                i
            } else {
                b
            }
        }
    }

    pub proof fn lemma_sink_best_bounds(cloud: Seq<Bathymetry>, res: int, p: Position, k: nat)
        ensures
            -1 <= Self::sink_best(cloud, res, p, k) < k,
        decreases k,
    {
        if k > 0 {
            Self::lemma_sink_best_bounds(cloud, res, p, (k - 1) as nat);
        }
    }

    /// What one depth-optimisation pass puts in place of `p`: the chosen
    /// in-range replacement, or `p` itself when nothing is in range.
    pub open spec fn sink_point(cloud: Seq<Bathymetry>, res: int, p: Bathymetry) -> Bathymetry {
        let b = Self::sink_best(cloud, res, p.spec_position(), cloud.len());
        if b == -1 {
            p
        } else {
            cloud[b]
        }
    }

    /// One depth-optimisation pass over a whole path: every interior point
    /// is replaced independently, based on the path as it stood before the
    /// pass; both endpoints are preserved exactly.
    pub open spec fn sink_spec(cloud: Seq<Bathymetry>, res: int, path: Seq<Bathymetry>)
        -> Seq<Bathymetry> {
        Seq::new(
            path.len(),
            |i: int|
                if 0 < i < path.len() - 1 {
                    Self::sink_point(cloud, res, path[i])
                } else {
                    path[i]
                },
        )
    }

    fn sink_one(&self, p: Bathymetry) -> (r: Bathymetry)
        requires
            self.wf(),
            p.valid(),
        ensures
            r == Self::sink_point(self.data@, self.resolution as int, p),
            r.valid(),
    {
        let pos = p.position();
        let res_m = self.resolution as u64;
        let n = self.data.len();
        let mut best: Option<usize> = None;
        let mut k: usize = 0;
        while k < n
            invariant
                self.wf(),
                p.valid(),
                pos == p.spec_position(),
                res_m == self.resolution as u64,
                n == self.data@.len(),
                k <= n,
                best is None ==> Self::sink_best(
                    self.data@,
                    self.resolution as int,
                    pos,
                    k as nat,
                ) == -1,
                best matches Some(b) ==> b < n && b as int == Self::sink_best(
                    self.data@,
                    self.resolution as int,
                    pos,
                    k as nat,
                ),
            decreases n - k,
        {
            proof {
                assert(self.data@[k as int].valid());
            }
            if is_within(pos, self.data[k].position(), res_m) {
                match best {
                    None => {
                        best = Some(k);
                    },
                    Some(b) => {
                        proof {
                            assert(self.data@[b as int].valid());
                        }
                        let deeper = self.data[k].depth_mm > self.data[b].depth_mm;
                        let same_depth = self.data[k].depth_mm == self.data[b].depth_mm;
                        if deeper {
                            best = Some(k);
                        } else if same_depth {
                            let dk = sq_dist_i128(self.data[k].position(), pos);
                            let db = sq_dist_i128(self.data[b].position(), pos);
                            if dk < db {
                                best = Some(k);
                            }
                        }
                    },
                }
            }
            k += 1;
        }
        match best {
            None => p,
            Some(b) => {
                proof {
                    assert(self.data@[b as int].valid());
                }
                self.data[b]
            },
        }
    }

    /// Replace each interior point with the deepest recorded sounding within
    /// the resolution radius of it, ties broken toward the candidate closest
    /// to the original location; a point with no sounding in range, and both
    /// endpoints, are kept as they are. The pass reads only the input path.
    pub fn sink(&self, path: &Vec<Bathymetry>) -> (r: Vec<Bathymetry>)
        requires
            self.wf(),
            all_valid(path@),
        ensures
            r@ == Self::sink_spec(self.data@, self.resolution as int, path@),
            r@.len() == path@.len(),
            path@.len() > 0 ==> r@[0] == path@[0] && r@.last() == path@.last(),
            all_valid(r@),
    {
        let n = path.len();
        let mut out: Vec<Bathymetry> = Vec::new();
        let mut i: usize = 0;
        while i < n
            invariant
                self.wf(),
                all_valid(path@),
                n == path@.len(),
                i <= n,
                out@.len() == i,
                forall|j: int|
                    0 <= j < i ==> #[trigger] out@[j] == Self::sink_spec(
                        self.data@,
                        self.resolution as int,
                        path@,
                    )[j],
                all_valid(out@),
            decreases n - i,
        {
            proof {
                assert(path@[i as int].valid());
            }
            if i == 0 || i == n - 1 {
                out.push(path[i]);
            } else {
                out.push(self.sink_one(path[i]));
            }
            i += 1;
        }
        proof {
            assert(out@ =~= Self::sink_spec(self.data@, self.resolution as int, path@));
        }
        out
    }

    /// The interior points kept by one merge pass, scanning from `i`, given
    /// the most recently kept point `last`: a point within `thr` metres of
    /// `last` is dropped, any other is kept and becomes the new `last`.
    pub open spec fn shrink_step(path: Seq<Bathymetry>, thr: int, i: int, last: Bathymetry)
        -> Seq<Bathymetry>
        decreases path.len() - i,
    {
        if i < 1 || i > path.len() - 2 {
            Seq::empty()
        } else if within_meters(path[i].spec_position(), last.spec_position(), thr) {
            Self::shrink_step(path, thr, i + 1, last)
        } else {
            seq![path[i]] + Self::shrink_step(path, thr, i + 1, path[i])
        }
    }

    /// The merged path: the first point, the interior points that survive
    /// the merge scan, and the last point.
    pub open spec fn shrink_spec(path: Seq<Bathymetry>, thr: int) -> Seq<Bathymetry> {
        if path.len() <= 1 {
            path
        } else {
            seq![path[0]] + Self::shrink_step(path, thr, 1, path[0]) + seq![path.last()]
        }
    }

    proof fn lemma_shrink_step_len(path: Seq<Bathymetry>, thr: int, i: int, last: Bathymetry)
        requires
            1 <= i <= path.len() - 1,
        ensures
            Self::shrink_step(path, thr, i, last).len() <= path.len() - 1 - i,
        decreases path.len() - i,
    {
        if 1 <= i <= path.len() - 2 {
            if within_meters(path[i].spec_position(), last.spec_position(), thr) {
                Self::lemma_shrink_step_len(path, thr, i + 1, last);
            } else {
                Self::lemma_shrink_step_len(path, thr, i + 1, path[i]);
            }
        }
    }

    /// Merge runs of consecutive points that sit within half the resolution
    /// of the run's kept representative into that single point (the first of
    /// the run). Order and both endpoints are preserved; the result is never
    /// longer than the input.
    pub fn shrink(&self, path: &Vec<Bathymetry>) -> (r: Vec<Bathymetry>)
        requires
            self.wf(),
            all_valid(path@),
        ensures
            r@ == Self::shrink_spec(path@, (self.resolution / 2) as int),
            r@.len() <= path@.len(),
            path@.len() > 0 ==> r@[0] == path@[0] && r@.last() == path@.last(),
            all_valid(r@),
    {
        let ghost thr = (self.resolution / 2) as int;
        let n = path.len();
        let mut out: Vec<Bathymetry> = Vec::new();
        if n == 0 {
            proof {
                assert(out@ =~= Self::shrink_spec(path@, thr));
            }
            return out;
        }
        proof {
            assert(path@[0].valid());
        }
        out.push(path[0]);
        if n == 1 {
            proof {
                assert(out@ =~= Self::shrink_spec(path@, thr));
            }
            return out;
        }
        let thr_m = (self.resolution / 2) as u64;
        let mut i: usize = 1;
        while i < n - 1
            invariant
                self.wf(),
                all_valid(path@),
                n == path@.len(),
                2 <= n,
                thr == thr_m as int,
                thr_m <= RADIUS_M_MAX,
                1 <= i <= n - 1,
                out@.len() >= 1,
                out@.len() <= i,
                out@[0] == path@[0],
                out@.last().valid(),
                all_valid(out@),
                seq![path@[0]] + Self::shrink_step(path@, thr, 1, path@[0]) == out@
                    + Self::shrink_step(path@, thr, i as int, out@.last()),
            decreases n - i,
        {
            proof {
                assert(path@[i as int].valid());
            }
            let last = out[out.len() - 1];
            if is_within(path[i].position(), last.position(), thr_m) {
                proof {
                    assert(Self::shrink_step(path@, thr, i as int, last) == Self::shrink_step(
                        path@,
                        thr,
                        i as int + 1,
                        last,
                    ));
                }
            } else {
                out.push(path[i]);
                proof {
                    assert(Self::shrink_step(path@, thr, i as int, last) == seq![
                        path@[i as int],
                    ] + Self::shrink_step(path@, thr, i as int + 1, path@[i as int]));
                    assert(out@.last() == path@[i as int]);
                    assert(seq![path@[0]] + Self::shrink_step(path@, thr, 1, path@[0]) =~= out@
                        + Self::shrink_step(path@, thr, i as int + 1, out@.last()));
                }
            }
            i += 1;
        }
        proof {
            assert(Self::shrink_step(path@, thr, n - 1 as int, out@.last()) =~= Seq::<
                Bathymetry,
            >::empty());
            assert(out@ =~= seq![path@[0]] + Self::shrink_step(path@, thr, 1, path@[0]));
            Self::lemma_shrink_step_len(path@, thr, 1, path@[0]);
            assert(path@[n - 1 as int].valid());
        }
        out.push(path[n - 1]);
        proof {
            assert(out@ =~= Self::shrink_spec(path@, thr));
        }
        out
    }
}


/// The cross product of the vectors from `a` to `b` and from `a` to `p`,
/// in squared coordinate units: zero exactly when the three are collinear.
pub open spec fn line_cross(a: Position, b: Position, p: Position) -> int {
    (p.lat_e7 - a.lat_e7) * (b.lon_e7 - a.lon_e7) - (p.lon_e7 - a.lon_e7) * (b.lat_e7
        - a.lat_e7)
}

/// Whether `p` lies within `tol_units` coordinate units of perpendicular
/// distance from the line through `a` and `b`, by the squared comparison
/// cross^2 <= tol^2 * |ab|^2. Degenerate lines (`a == b`) count as near.
pub open spec fn near_line(a: Position, b: Position, p: Position, tol_units: int) -> bool {
    line_cross(a, b, p) * line_cross(a, b, p) <= tol_units * tol_units * sq_dist(a, b)
}

fn is_near_line(a: Position, b: Position, p: Position, tol_units: u64) -> (r: bool)
    requires
        position_valid(a),
        position_valid(b),
        position_valid(p),
        tol_units <= 10_000_000,
    ensures
        r == near_line(a, b, p, tol_units as int),
{
    let dx: i128 = (p.lat_e7 as i128) - (a.lat_e7 as i128);
    let dy: i128 = (p.lon_e7 as i128) - (a.lon_e7 as i128);
    let ex: i128 = (b.lat_e7 as i128) - (a.lat_e7 as i128);
    let ey: i128 = (b.lon_e7 as i128) - (a.lon_e7 as i128);
    proof {
        crate::geometry::lemma_abs_mul_le(
            dx as int,
            ey as int,
            1_800_000_000,
            3_600_000_000,
        );
        crate::geometry::lemma_abs_mul_le(
            dy as int,
            ex as int,
            3_600_000_000,
            1_800_000_000,
        );
    }
    let cross: i128 = dx * ey - dy * ex;
    proof {
        crate::geometry::lemma_sq_le(cross as int, 12_960_000_000_000_000_000);
    }
    let lhs: i128 = cross * cross;
    let d2: i128 = sq_dist_i128(a, b);
    proof {
        crate::geometry::lemma_sq_le(tol_units as int, 10_000_000);
        crate::geometry::lemma_sq_dist_bound(a, b);
        crate::geometry::lemma_mul_le(
            (tol_units as int) * (tol_units as int),
            d2 as int,
            100_000_000_000_000,
            16_200_000_000_000_000_000,
        );
    }
    let tol: i128 = tol_units as i128;
    lhs <= tol * tol * d2
}

impl ThalwegGenerator {
    /// The simplification tolerance in coordinate units: one tenth of the
    /// resolution, converted from metres.
    pub open spec fn tol_units_of(res: int) -> int {
        (res / 10) * 10_000_000 / 111_320
    }

    fn tol_units(&self) -> (r: u64)
        requires
            self.wf(),
        ensures
            r == Self::tol_units_of(self.resolution as int),
            r <= 10_000_000,
    {
        let tenth = (self.resolution / 10) as u64;
        proof {
            crate::geometry::lemma_mul_le(tenth as int, 10_000_000, 100_000, 10_000_000);
            vstd::arithmetic::div_mod::lemma_div_is_ordered(
                tenth as int * 10_000_000,
                1_000_000_000_000,
                111_320,
            );
            vstd::arithmetic::div_mod::lemma_div_pos_is_pos(
                tenth as int * 10_000_000,
                111_320,
            );
        }
        tenth * 10_000_000 / 111_320
    }

    /// The interior points kept by the simplification scan from `i`, given
    /// the most recently kept point `last`: a point within the tolerance of
    /// the line from `last` to its immediate successor is dropped.
    pub open spec fn simplify_step(path: Seq<Bathymetry>, tol: int, i: int, last: Bathymetry)
        -> Seq<Bathymetry>
        decreases path.len() - i,
    {
        if i < 1 || i > path.len() - 2 {
            Seq::empty()
        } else if near_line(
            last.spec_position(),
            path[i + 1].spec_position(),
            path[i].spec_position(),
            tol,
        ) {
            Self::simplify_step(path, tol, i + 1, last)
        } else {
            seq![path[i]] + Self::simplify_step(path, tol, i + 1, path[i])
        }
    }

    /// The simplified path: both endpoints, plus the interior points that
    /// the scan keeps.
    pub open spec fn simplify_spec(path: Seq<Bathymetry>, tol: int) -> Seq<Bathymetry> {
        if path.len() <= 1 {
            path
        } else {
            seq![path[0]] + Self::simplify_step(path, tol, 1, path[0]) + seq![path.last()]
        }
    }

    proof fn lemma_simplify_step_len(path: Seq<Bathymetry>, tol: int, i: int, last: Bathymetry)
        requires
            1 <= i <= path.len() - 1,
        ensures
            Self::simplify_step(path, tol, i, last).len() <= path.len() - 1 - i,
        decreases path.len() - i,
    {
        if 1 <= i <= path.len() - 2 {
            if near_line(
                last.spec_position(),
                path[i + 1].spec_position(),
                path[i].spec_position(),
                tol,
            ) {
                Self::lemma_simplify_step_len(path, tol, i + 1, last);
            } else {
                Self::lemma_simplify_step_len(path, tol, i + 1, path[i]);
            }
        }
    }

    /// Drop interior points that lie within a small perpendicular-distance
    /// tolerance (a tenth of the resolution) of the line from the last kept
    /// point to the following point. Both endpoints are always retained;
    /// the result is never longer than the input.
    pub fn simplify(&self, path: &Vec<Bathymetry>) -> (r: Vec<Bathymetry>)
        requires
            self.wf(),
            all_valid(path@),
        ensures
            r@ == Self::simplify_spec(path@, Self::tol_units_of(self.resolution as int)),
            r@.len() <= path@.len(),
            path@.len() > 0 ==> r@[0] == path@[0] && r@.last() == path@.last(),
            all_valid(r@),
    {
        let ghost tol = Self::tol_units_of(self.resolution as int);
        let n = path.len();
        let mut out: Vec<Bathymetry> = Vec::new();
        if n == 0 {
            proof {
                assert(out@ =~= Self::simplify_spec(path@, tol));
            }
            return out;
        }
        proof {
            assert(path@[0].valid());
        }
        out.push(path[0]);
        if n == 1 {
            proof {
                assert(out@ =~= Self::simplify_spec(path@, tol));
            }
            return out;
        }
        let tol_u = self.tol_units();
        let mut i: usize = 1;
        while i < n - 1
            invariant
                self.wf(),
                all_valid(path@),
                n == path@.len(),
                2 <= n,
                tol == tol_u as int,
                tol_u <= 10_000_000,
                1 <= i <= n - 1,
                out@.len() >= 1,
                out@.len() <= i,
                out@[0] == path@[0],
                out@.last().valid(),
                all_valid(out@),
                seq![path@[0]] + Self::simplify_step(path@, tol, 1, path@[0]) == out@
                    + Self::simplify_step(path@, tol, i as int, out@.last()),
            decreases n - i,
        {
            proof {
                assert(path@[i as int].valid());
                assert(path@[i as int + 1].valid());
            }
            let last = out[out.len() - 1];
            if is_near_line(last.position(), path[i + 1].position(), path[i].position(), tol_u) {
                proof {
                    assert(Self::simplify_step(path@, tol, i as int, last)
                        == Self::simplify_step(path@, tol, i as int + 1, last));
                }
            } else {
                out.push(path[i]);
                proof {
                    assert(Self::simplify_step(path@, tol, i as int, last) == seq![
                        path@[i as int],
                    ] + Self::simplify_step(path@, tol, i as int + 1, path@[i as int]));
                    assert(out@.last() == path@[i as int]);
                    assert(seq![path@[0]] + Self::simplify_step(path@, tol, 1, path@[0]) =~= out@
                        + Self::simplify_step(path@, tol, i as int + 1, out@.last()));
                }
            }
            i += 1;
        }
        proof {
            assert(Self::simplify_step(path@, tol, n - 1 as int, out@.last()) =~= Seq::<
                Bathymetry,
            >::empty());
            assert(out@ =~= seq![path@[0]] + Self::simplify_step(path@, tol, 1, path@[0]));
            Self::lemma_simplify_step_len(path@, tol, 1, path@[0]);
            assert(path@[n - 1 as int].valid());
        }
        out.push(path[n - 1]);
        proof {
            assert(out@ =~= Self::simplify_spec(path@, tol));
        }
        out
    }
}


/// The absolute difference of two integers.
pub open spec fn abs_diff(x: int, y: int) -> int {
    if x >= y {
        x - y
    } else {
        y - x
    }
}

impl ThalwegGenerator {
    /// The resolution expressed in coordinate units.
    pub open spec fn res_units_of(res: int) -> int {
        res * 10_000_000 / 111_320
    }

    /// The per-axis subdivision step used by density normalization: seven
    /// tenths of the resolution in coordinate units, so that a step on both
    /// axes at once still stays within about one resolution of distance.
    pub open spec fn cheb_step_of(res: int) -> int {
        7 * Self::res_units_of(res) / 10
    }

    fn cheb_step(&self) -> (r: u64)
        requires
            self.wf(),
        ensures
            r == Self::cheb_step_of(self.resolution as int),
            62 <= r <= 100_000_000,
    {
        let ru: u64 = (self.resolution as u64) * 10_000_000 / 111_320;
        proof {
            vstd::arithmetic::div_mod::lemma_div_is_ordered(
                10_000_000,
                self.resolution as int * 10_000_000,
                111_320,
            );
            vstd::arithmetic::div_mod::lemma_div_is_ordered(
                self.resolution as int * 10_000_000,
                10_000_000_000_000,
                111_320,
            );
        }
        let q: u64 = 7 * ru / 10;
        proof {
            vstd::arithmetic::div_mod::lemma_div_is_ordered(623, 7 * ru as int, 10);
            vstd::arithmetic::div_mod::lemma_div_is_ordered(7 * ru as int, 628_826_205, 10);
        }
        q
    }

    /// Linear interpolation along one axis, `j` of `m` steps from `a`
    /// toward `b`, rounded toward `a`.
    pub open spec fn axis_lerp(a: int, b: int, j: int, m: int) -> int {
        if b >= a {
            a + ((b - a) * j) / m
        } else {
            a - ((a - b) * j) / m
        }
    }

    /// The interpolated position `j` of `m` steps from `a` toward `b`.
    pub open spec fn lerp_pos(a: Position, b: Position, j: int, m: int) -> Position {
        Position {
            lat_e7: Self::axis_lerp(a.lat_e7 as int, b.lat_e7 as int, j, m) as i64,
            lon_e7: Self::axis_lerp(a.lon_e7 as int, b.lon_e7 as int, j, m) as i64,
        }
    }

    /// How many pieces the segment from `a` to `b` is cut into: enough that
    /// each axis advances at most `q` units per piece, and at least one.
    pub open spec fn seg_count(a: Position, b: Position, q: int) -> int {
        let m1 = (abs_diff(a.lat_e7 as int, b.lat_e7 as int) + q - 1) / q;
        let m2 = (abs_diff(a.lon_e7 as int, b.lon_e7 as int) + q - 1) / q;
        if m1 >= m2 && m1 >= 1 {
            m1
        } else if m2 >= 1 {
            m2
        } else {
            1
        }
    }

    /// The soundings inserted between `a` and `b`: the nearest recorded
    /// sounding to each interior interpolation point.
    pub open spec fn seg_points(cloud: Seq<Bathymetry>, a: Bathymetry, b: Bathymetry, q: int)
        -> Seq<Bathymetry> {
        let m = Self::seg_count(a.spec_position(), b.spec_position(), q);
        Seq::new(
            (m - 1) as nat,
            |j: int|
                cloud[Self::nearest_idx(
                    cloud,
                    Self::lerp_pos(a.spec_position(), b.spec_position(), j + 1, m),
                )],
        )
    }

    /// The densified tail of `path` from segment `i` on: for each remaining
    /// segment, its inserted soundings followed by its right endpoint.
    pub open spec fn populate_rec(
        cloud: Seq<Bathymetry>,
        path: Seq<Bathymetry>,
        q: int,
        i: int,
    ) -> Seq<Bathymetry>
        decreases path.len() - i,
    {
        if i < 0 || i > path.len() - 2 {
            Seq::empty()
        } else {
            Self::seg_points(cloud, path[i], path[i + 1], q) + seq![path[i + 1]]
                + Self::populate_rec(cloud, path, q, i + 1)
        }
    }

    /// The densified path: all input points in order, with interpolated
    /// nearest soundings inserted so that no ideal spacing exceeds the
    /// resolution.
    pub open spec fn populate_spec(cloud: Seq<Bathymetry>, path: Seq<Bathymetry>, q: int)
        -> Seq<Bathymetry> {
        if path.len() == 0 {
            Seq::empty()
        } else {
            seq![path[0]] + Self::populate_rec(cloud, path, q, 0)
        }
    }

    fn axis_lerp_exec(a: i64, b: i64, j: u64, m: u64) -> (r: i64)
        requires
            -1_800_000_000 <= a <= 1_800_000_000,
            -1_800_000_000 <= b <= 1_800_000_000,
            1 <= m,
            j <= m,
        ensures
            r == Self::axis_lerp(a as int, b as int, j as int, m as int),
            a <= b ==> a <= r <= b,
            b < a ==> b <= r <= a,
    {
        if b >= a {
            let diff: u128 = (b - a) as u128;
            proof {
                crate::geometry::lemma_mul_le(
                    diff as int,
                    j as int,
                    3_600_000_000,
                    0xFFFF_FFFF_FFFF_FFFF,
                );
            }
            let step: u128 = diff * (j as u128) / (m as u128);
            proof {
                crate::geometry::lemma_mul_le(diff as int, j as int, diff as int, m as int);
                vstd::arithmetic::div_mod::lemma_div_is_ordered(
                    diff as int * j as int,
                    diff as int * m as int,
                    m as int,
                );
                vstd::arithmetic::div_mod::lemma_div_multiples_vanish(diff as int, m as int);
                vstd::arithmetic::div_mod::lemma_div_pos_is_pos(diff as int * j as int, m as int);
            }
            a + (step as i64)
        } else {
            let diff: u128 = (a - b) as u128;
            proof {
                crate::geometry::lemma_mul_le(
                    diff as int,
                    j as int,
                    3_600_000_000,
                    0xFFFF_FFFF_FFFF_FFFF,
                );
            }
            let step: u128 = diff * (j as u128) / (m as u128);
            proof {
                crate::geometry::lemma_mul_le(diff as int, j as int, diff as int, m as int);
                vstd::arithmetic::div_mod::lemma_div_is_ordered(
                    diff as int * j as int,
                    diff as int * m as int,
                    m as int,
                );
                vstd::arithmetic::div_mod::lemma_div_multiples_vanish(diff as int, m as int);
                vstd::arithmetic::div_mod::lemma_div_pos_is_pos(diff as int * j as int, m as int);
            }
            a - (step as i64)
        }
    }

    fn lerp_exec(a: Position, b: Position, j: u64, m: u64) -> (r: Position)
        requires
            position_valid(a),
            position_valid(b),
            1 <= m,
            j <= m,
        ensures
            r == Self::lerp_pos(a, b, j as int, m as int),
            position_valid(r),
    {
        let lat = Self::axis_lerp_exec(a.lat_e7, b.lat_e7, j, m);
        let lon = Self::axis_lerp_exec(a.lon_e7, b.lon_e7, j, m);
        Position { lat_e7: lat, lon_e7: lon }
    }

    fn seg_count_exec(a: Position, b: Position, q: u64) -> (m: u64)
        requires
            position_valid(a),
            position_valid(b),
            1 <= q <= 100_000_000,
        ensures
            m == Self::seg_count(a, b, q as int),
            1 <= m,
    {
        let la: u64 = if a.lat_e7 >= b.lat_e7 {
            (a.lat_e7 - b.lat_e7) as u64
        } else {
            (b.lat_e7 - a.lat_e7) as u64
        };
        let lo: u64 = if a.lon_e7 >= b.lon_e7 {
            (a.lon_e7 - b.lon_e7) as u64
        } else {
            (b.lon_e7 - a.lon_e7) as u64
        };
        let m1: u64 = (la + q - 1) / q;
        let m2: u64 = (lo + q - 1) / q;
        proof {
            vstd::arithmetic::div_mod::lemma_div_pos_is_pos(la as int + q - 1, q as int);
            vstd::arithmetic::div_mod::lemma_div_pos_is_pos(lo as int + q - 1, q as int);
        }
        if m1 >= m2 && m1 >= 1 {
            m1
        } else if m2 >= 1 {
            m2
        } else {
            1
        }
    }

    /// Insert soundings so that no two consecutive output points are meant
    /// to be farther apart than the resolution: each segment is cut into
    /// even pieces and each interior cut point is snapped to the nearest
    /// recorded sounding. All input points are kept, in order.
    pub fn populate(&self, path: &Vec<Bathymetry>) -> (r: Vec<Bathymetry>)
        requires
            self.wf(),
            self.data@.len() > 0,
            all_valid(path@),
        ensures
            r@ == Self::populate_spec(
                self.data@,
                path@,
                Self::cheb_step_of(self.resolution as int),
            ),
            all_valid(r@),
    {
        let ghost q = Self::cheb_step_of(self.resolution as int);
        let n = path.len();
        let mut out: Vec<Bathymetry> = Vec::new();
        if n == 0 {
            proof {
                assert(out@ =~= Self::populate_spec(self.data@, path@, q));
            }
            return out;
        }
        proof {
            assert(path@[0].valid());
        }
        out.push(path[0]);
        let qe = self.cheb_step();
        let mut i: usize = 0;
        while i < n - 1
            invariant
                self.wf(),
                self.data@.len() > 0,
                all_valid(path@),
                n == path@.len(),
                1 <= n,
                q == qe as int,
                62 <= qe <= 100_000_000,
                i <= n - 1,
                all_valid(out@),
                out@ + Self::populate_rec(self.data@, path@, q, i as int) == Self::populate_spec(
                    self.data@,
                    path@,
                    q,
                ),
            decreases n - i,
        {
            proof {
                assert(path@[i as int].valid());
                assert(path@[i as int + 1].valid());
            }
            let a = path[i].position();
            let b = path[i + 1].position();
            let m = Self::seg_count_exec(a, b, qe);
            let ghost mids = Self::seg_points(self.data@, path@[i as int], path@[i as int + 1], q);
            let ghost base = out@;
            let mut j: u64 = 1;
            while j < m
                invariant
                    self.wf(),
                    self.data@.len() > 0,
                    position_valid(a),
                    position_valid(b),
                    1 <= m,
                    m == Self::seg_count(a, b, q),
                    1 <= j <= m,
                    mids == Self::seg_points(
                        self.data@,
                        path@[i as int],
                        path@[i as int + 1],
                        q,
                    ),
                    i < n - 1,
                    n == path@.len(),
                    all_valid(path@),
                    a == path@[i as int].spec_position(),
                    b == path@[i as int + 1].spec_position(),
                    all_valid(out@),
                    out@ == base + mids.take(j - 1),
                decreases m - j,
            {
                let pos = Self::lerp_exec(a, b, j, m);
                let idx = self.nearest_index(pos);
                out.push(self.data[idx]);
                proof {
                    assert(self.data@[idx as int].valid());
                    assert(mids[j - 1] == self.data@[idx as int]);
                    assert(out@ =~= base + mids.take(j as int));
                }
                j += 1;
            }
            proof {
                assert(mids.take(m - 1) =~= mids);
            }
            out.push(path[i + 1]);
            proof {
                assert(Self::populate_rec(self.data@, path@, q, i as int) == mids + seq![
                    path@[i as int + 1],
                ] + Self::populate_rec(self.data@, path@, q, i as int + 1));
                assert(out@ + Self::populate_rec(self.data@, path@, q, i as int + 1) =~= base
                    + Self::populate_rec(self.data@, path@, q, i as int));
            }
            i += 1;
        }
        proof {
            assert(Self::populate_rec(self.data@, path@, q, n - 1 as int) =~= Seq::<
                Bathymetry,
            >::empty());
            assert(out@ =~= Self::populate_spec(self.data@, path@, q));
        }
        out
    }
}


/// Cap on refinement iterations; past it the loop reports non-convergence
/// instead of risking oscillation between the two operators.
pub const IMPROVE_ITERATION_CAP: u64 = 256;

/// Structural equality of two paths.
fn path_eq(a: &Vec<Bathymetry>, b: &Vec<Bathymetry>) -> (r: bool)
    ensures
        r == (a@ == b@),
{
    let n = a.len();
    if n != b.len() {
        return false;
    }
    let mut i: usize = 0;
    while i < n
        invariant
            n == a@.len() == b@.len(),
            i <= n,
            forall|j: int| 0 <= j < i ==> a@[j] == b@[j],
        decreases n - i,
    {
        if a[i] != b[i] {
            return false;
        }
        i += 1;
    }
    proof {
        assert(a@ =~= b@);
    }
    true
}

impl ThalwegGenerator {
    /// The refinement loop as a function of its input path and remaining
    /// fuel: at a sink fixed point it yields the simplified path; otherwise
    /// it recurs on the shrunk result of the sink pass, and with the fuel
    /// spent it yields nothing (non-convergence).
    pub open spec fn refine_spec(
        cloud: Seq<Bathymetry>,
        res: int,
        path: Seq<Bathymetry>,
        fuel: nat,
    ) -> Option<Seq<Bathymetry>>
        decreases fuel,
    {
        let sunk = Self::sink_spec(cloud, res, path);
        if sunk == path {
            Some(Self::simplify_spec(path, Self::tol_units_of(res)))
        } else if fuel == 0 {
            None
        } else {
            Self::refine_spec(cloud, res, Self::shrink_spec(sunk, res / 2), (fuel - 1) as nat)
        }
    }
}

/// Drive `sink` and `shrink` from the midpoint-densified path to a
/// structural fixed point of `sink`, then `simplify` the result. An absent
/// result reports that the loop did not converge within its iteration cap.
pub fn improve(path: &Vec<Bathymetry>, generator: &ThalwegGenerator) -> (r: Option<
    Vec<Bathymetry>,
>)
    requires
        generator.wf(),
        generator.data@.len() > 0,
        all_valid(path@),
    ensures
        r is Some <==> ThalwegGenerator::refine_spec(
            generator.data@,
            generator.resolution as int,
            ThalwegGenerator::add_midpoints_spec(generator.data@, path@),
            IMPROVE_ITERATION_CAP as nat,
        ) is Some,
        r matches Some(v) ==> Some(v@) == ThalwegGenerator::refine_spec(
            generator.data@,
            generator.resolution as int,
            ThalwegGenerator::add_midpoints_spec(generator.data@, path@),
            IMPROVE_ITERATION_CAP as nat,
        ) && all_valid(v@),
{
    let mut current = generator.add_midpoints(path);
    let mut fuel: u64 = IMPROVE_ITERATION_CAP;
    loop
        invariant
            generator.wf(),
            generator.data@.len() > 0,
            all_valid(current@),
            fuel <= IMPROVE_ITERATION_CAP,
            ThalwegGenerator::refine_spec(
                generator.data@,
                generator.resolution as int,
                ThalwegGenerator::add_midpoints_spec(generator.data@, path@),
                IMPROVE_ITERATION_CAP as nat,
            ) == ThalwegGenerator::refine_spec(
                generator.data@,
                generator.resolution as int,
                current@,
                fuel as nat,
            ),
        decreases fuel,
    {
        let new_path = generator.sink(&current);
        if path_eq(&new_path, &current) {
            return Some(generator.simplify(&current));
        }
        if fuel == 0 {
            return None;
        }
        current = generator.shrink(&new_path);
        fuel = fuel - 1;
    }
}

/// Depth optimisation is idempotent at a fixed point: a path that one
/// `sink` pass leaves unchanged is left unchanged by any further pass.
pub proof fn lemma_sink_idempotent_at_fixed_point(
    cloud: Seq<Bathymetry>,
    res: int,
    path: Seq<Bathymetry>,
)
    requires
        ThalwegGenerator::sink_spec(cloud, res, path) == path,
    ensures
        ThalwegGenerator::sink_spec(
            cloud,
            res,
            ThalwegGenerator::sink_spec(cloud, res, path),
        ) == path,
{
}

proof fn lemma_div_step(x: int, j: int, m: int, q: int)
    requires
        0 <= x,
        1 <= m,
        0 <= j,
        j + 1 <= m,
        0 <= q,
        x <= m * q,
    ensures
        0 <= (x * (j + 1)) / m - (x * j) / m <= q,
        0 <= (x * j) / m <= x,
        0 <= (x * (j + 1)) / m <= x,
{
    let a = x * (j + 1);
    let b = x * j;
    assert(x * (j + 1) == x * j + x) by (nonlinear_arith);
    assert(0 <= x * j && x * j <= x * m && x * (j + 1) <= x * m) by (nonlinear_arith)
        requires
            0 <= x && 0 <= j && j + 1 <= m,
    ;
    vstd::arithmetic::div_mod::lemma_div_is_ordered(b, x * m, m);
    vstd::arithmetic::div_mod::lemma_div_is_ordered(a, x * m, m);
    vstd::arithmetic::div_mod::lemma_div_multiples_vanish(x, m);
    assert(x * m == m * x) by (nonlinear_arith);
    assert((x * m) / m == x);
    vstd::arithmetic::div_mod::lemma_div_pos_is_pos(b, m);
    vstd::arithmetic::div_mod::lemma_div_pos_is_pos(a, m);
    vstd::arithmetic::div_mod::lemma_fundamental_div_mod(a, m);
    vstd::arithmetic::div_mod::lemma_fundamental_div_mod(b, m);
    vstd::arithmetic::div_mod::lemma_mod_bound(a, m);
    vstd::arithmetic::div_mod::lemma_mod_bound(b, m);
    let da = a / m;
    let db = b / m;
    assert(m * (da - db) == x - a % m + b % m) by (nonlinear_arith)
        requires
            a == m * da + a % m && b == m * db + b % m && a == b + x,
    ;
    assert(0 <= da - db <= q) by (nonlinear_arith)
        requires
            m * (da - db) == x - a % m + b % m,
            0 <= a % m < m,
            0 <= b % m < m,
            0 <= x <= m * q,
            1 <= m,
            0 <= q,
    ;
}

proof fn lemma_axis_step(a: int, b: int, j: int, m: int, q: int)
    requires
        1 <= m,
        0 <= j,
        j + 1 <= m,
        0 <= q,
        abs_diff(a, b) <= m * q,
    ensures
        abs_diff(
            ThalwegGenerator::axis_lerp(a, b, j + 1, m),
            ThalwegGenerator::axis_lerp(a, b, j, m),
        ) <= q,
        b >= a ==> a <= ThalwegGenerator::axis_lerp(a, b, j, m) <= b && a
            <= ThalwegGenerator::axis_lerp(a, b, j + 1, m) <= b,
        b < a ==> b <= ThalwegGenerator::axis_lerp(a, b, j, m) <= a && b
            <= ThalwegGenerator::axis_lerp(a, b, j + 1, m) <= a,
{
    if b >= a {
        lemma_div_step(b - a, j, m, q);
    } else {
        lemma_div_step(a - b, j, m, q);
    }
}

proof fn lemma_seg_count_covers(a: Position, b: Position, q: int)
    requires
        1 <= q,
    ensures
        abs_diff(a.lat_e7 as int, b.lat_e7 as int) <= ThalwegGenerator::seg_count(a, b, q) * q,
        abs_diff(a.lon_e7 as int, b.lon_e7 as int) <= ThalwegGenerator::seg_count(a, b, q) * q,
        1 <= ThalwegGenerator::seg_count(a, b, q),
{
    let la = abs_diff(a.lat_e7 as int, b.lat_e7 as int);
    let lo = abs_diff(a.lon_e7 as int, b.lon_e7 as int);
    let m1 = (la + q - 1) / q;
    let m2 = (lo + q - 1) / q;
    let m = ThalwegGenerator::seg_count(a, b, q);
    vstd::arithmetic::div_mod::lemma_fundamental_div_mod(la + q - 1, q);
    vstd::arithmetic::div_mod::lemma_mod_bound(la + q - 1, q);
    vstd::arithmetic::div_mod::lemma_fundamental_div_mod(lo + q - 1, q);
    vstd::arithmetic::div_mod::lemma_mod_bound(lo + q - 1, q);
    assert(la <= m1 * q) by (nonlinear_arith)
        requires
            la + q - 1 == q * m1 + (la + q - 1) % q,
            0 <= (la + q - 1) % q < q,
    ;
    assert(lo <= m2 * q) by (nonlinear_arith)
        requires
            lo + q - 1 == q * m2 + (lo + q - 1) % q,
            0 <= (lo + q - 1) % q < q,
    ;
    vstd::arithmetic::div_mod::lemma_div_pos_is_pos(la + q - 1, q);
    vstd::arithmetic::div_mod::lemma_div_pos_is_pos(lo + q - 1, q);
    assert(m1 * q <= m * q && m2 * q <= m * q) by (nonlinear_arith)
        requires
            m1 <= m && m2 <= m && 1 <= q,
    ;
}

/// Density normalization spacing: consecutive ideal interpolation points of
/// any segment lie within one metre over the resolution of one another, so
/// inserted spacing meets the resolution up to that rounding slack. What is
/// pushed to the output is each ideal point snapped to the nearest recorded
/// sounding, which can stand farther away only as far as the cloud itself
/// is sparse.
pub proof fn lemma_populate_spacing(res: int, a: Position, b: Position, j: int)
    requires
        1 <= res <= RESOLUTION_MAX as int,
        position_valid(a),
        position_valid(b),
        0 <= j,
        j + 1 <= ThalwegGenerator::seg_count(a, b, ThalwegGenerator::cheb_step_of(res)),
    ensures
        within_meters(
            ThalwegGenerator::lerp_pos(
                a,
                b,
                j,
                ThalwegGenerator::seg_count(a, b, ThalwegGenerator::cheb_step_of(res)),
            ),
            ThalwegGenerator::lerp_pos(
                a,
                b,
                j + 1,
                ThalwegGenerator::seg_count(a, b, ThalwegGenerator::cheb_step_of(res)),
            ),
            res + 1,
        ),
{
    let u = ThalwegGenerator::res_units_of(res);
    let q = ThalwegGenerator::cheb_step_of(res);
    vstd::arithmetic::div_mod::lemma_fundamental_div_mod(res * 10_000_000, 111_320);
    vstd::arithmetic::div_mod::lemma_mod_bound(res * 10_000_000, 111_320);
    vstd::arithmetic::div_mod::lemma_fundamental_div_mod(7 * u, 10);
    vstd::arithmetic::div_mod::lemma_mod_bound(7 * u, 10);
    vstd::arithmetic::div_mod::lemma_div_pos_is_pos(res * 10_000_000, 111_320);
    vstd::arithmetic::div_mod::lemma_div_pos_is_pos(7 * u, 10);
    assert(0 <= 10 * q <= 7 * u) by (nonlinear_arith)
        requires
            7 * u == 10 * q + (7 * u) % 10 && 0 <= (7 * u) % 10 < 10 && u >= 0 && q >= 0,
    ;
    assert(u * 111_320 <= res * 10_000_000) by (nonlinear_arith)
        requires
            res * 10_000_000 == 111_320 * u + (res * 10_000_000) % 111_320,
            0 <= (res * 10_000_000) % 111_320,
    ;
    assert(89 <= u) by (nonlinear_arith)
        requires
            res * 10_000_000 == 111_320 * u + (res * 10_000_000) % 111_320,
            0 <= (res * 10_000_000) % 111_320 < 111_320,
            1 <= res,
    ;
    assert(1 <= q) by (nonlinear_arith)
        requires
            7 * u == 10 * q + (7 * u) % 10 && 0 <= (7 * u) % 10 < 10 && 89 <= u,
    ;
    let m = ThalwegGenerator::seg_count(a, b, q);
    lemma_seg_count_covers(a, b, q);
    lemma_axis_step(a.lat_e7 as int, b.lat_e7 as int, j, m, q);
    lemma_axis_step(a.lon_e7 as int, b.lon_e7 as int, j, m, q);
    let p1 = ThalwegGenerator::lerp_pos(a, b, j, m);
    let p2 = ThalwegGenerator::lerp_pos(a, b, j + 1, m);
    assert(p1.lat_e7 == ThalwegGenerator::axis_lerp(a.lat_e7 as int, b.lat_e7 as int, j, m));
    assert(p1.lon_e7 == ThalwegGenerator::axis_lerp(a.lon_e7 as int, b.lon_e7 as int, j, m));
    assert(p2.lat_e7 == ThalwegGenerator::axis_lerp(
        a.lat_e7 as int,
        b.lat_e7 as int,
        j + 1,
        m,
    ));
    assert(p2.lon_e7 == ThalwegGenerator::axis_lerp(
        a.lon_e7 as int,
        b.lon_e7 as int,
        j + 1,
        m,
    ));
    assert(abs_diff(p2.lat_e7 as int, p1.lat_e7 as int) <= q);
    assert(abs_diff(p2.lon_e7 as int, p1.lon_e7 as int) <= q);
    assert(sq_dist(p1, p2) <= 2 * (q * q)) by (nonlinear_arith)
        requires
            abs_diff(p2.lat_e7 as int, p1.lat_e7 as int) <= q,
            abs_diff(p2.lon_e7 as int, p1.lon_e7 as int) <= q,
            0 <= q,
    ;
    assert(sq_dist(p1, p2) >= 0) by (nonlinear_arith);
    assert(2 * (q * q) * (111_320 * 111_320) <= (res + 1) * (res + 1) * (10_000_000
        * 10_000_000)) by (nonlinear_arith)
        requires
            0 <= 10 * q <= 7 * u,
            0 <= u * 111_320 <= res * 10_000_000,
            1 <= res,
            0 <= q,
            0 <= u,
    ;
    assert(sq_dist(p1, p2) * (111_320 * 111_320) <= 2 * (q * q) * (111_320 * 111_320))
        by (nonlinear_arith)
        requires
            0 <= sq_dist(p1, p2) <= 2 * (q * q),
    ;
}


proof fn lemma_populate_rec_contains(
    cloud: Seq<Bathymetry>,
    path: Seq<Bathymetry>,
    q: int,
    i: int,
    j: int,
)
    requires
        0 <= i < j < path.len(),
    ensures
        ThalwegGenerator::populate_rec(cloud, path, q, i).contains(path[j]),
    decreases j - i,
{
    let mids = ThalwegGenerator::seg_points(cloud, path[i], path[i + 1], q);
    let rest = ThalwegGenerator::populate_rec(cloud, path, q, i + 1);
    let whole = ThalwegGenerator::populate_rec(cloud, path, q, i);
    assert(whole == mids + seq![path[i + 1]] + rest);
    if j == i + 1 {
        assert(whole[mids.len() as int] == path[i + 1]);
    } else {
        lemma_populate_rec_contains(cloud, path, q, i + 1, j);
        let k = choose|k: int| 0 <= k < rest.len() && rest[k] == path[j];
        assert(whole[mids.len() + 1 + k] == path[j]);
    }
}

/// Density normalization keeps every input point: each point of the path
/// appears in the densified result, with the first one leading it.
pub proof fn lemma_populate_includes_input(
    cloud: Seq<Bathymetry>,
    path: Seq<Bathymetry>,
    q: int,
    j: int,
)
    requires
        0 <= j < path.len(),
    ensures
        ThalwegGenerator::populate_spec(cloud, path, q).contains(path[j]),
        ThalwegGenerator::populate_spec(cloud, path, q)[0] == path[0],
{
    let whole = ThalwegGenerator::populate_spec(cloud, path, q);
    assert(whole[0] == path[0]);
    if j == 0 {
        assert(whole.contains(path[0])) by {
            assert(whole[0] == path[0]);
        }
    } else {
        lemma_populate_rec_contains(cloud, path, q, 0, j);
        let rest = ThalwegGenerator::populate_rec(cloud, path, q, 0);
        let k = choose|k: int| 0 <= k < rest.len() && rest[k] == path[j];
        assert(whole[1 + k] == path[j]);
    }
}


proof fn lemma_refine_endpoints(cloud: Seq<Bathymetry>, res: int, path: Seq<Bathymetry>, fuel: nat)
    requires
        path.len() > 0,
    ensures
        ThalwegGenerator::refine_spec(cloud, res, path, fuel) matches Some(v) ==> v.len() > 0
            && v[0] == path[0] && v.last() == path.last(),
    decreases fuel,
{
    let sunk = ThalwegGenerator::sink_spec(cloud, res, path);
    assert(sunk.len() == path.len());
    assert(sunk[0] == path[0]);
    assert(sunk.last() == path.last());
    if sunk == path {
        let tol = ThalwegGenerator::tol_units_of(res);
        let v = ThalwegGenerator::simplify_spec(path, tol);
        if path.len() > 1 {
            assert(v[0] == path[0]);
            assert(v.last() == path.last());
        }
    } else if fuel > 0 {
        let next = ThalwegGenerator::shrink_spec(sunk, res / 2);
        if sunk.len() > 1 {
            assert(next[0] == sunk[0]);
            assert(next.last() == sunk.last());
            assert(next.len() > 0);
        }
        lemma_refine_endpoints(cloud, res, next, (fuel - 1) as nat);
    }
}

/// The whole refinement pipeline preserves the caller's waypoints: whenever
/// it converges, the result still begins at the path's first point and ends
/// at its last, through midpoint densification, every depth-optimisation
/// and merge pass, and the final simplification.
pub proof fn lemma_improve_preserves_waypoints(
    cloud: Seq<Bathymetry>,
    res: int,
    path: Seq<Bathymetry>,
    fuel: nat,
)
    requires
        path.len() > 0,
    ensures
        ThalwegGenerator::refine_spec(
            cloud,
            res,
            ThalwegGenerator::add_midpoints_spec(cloud, path),
            fuel,
        ) matches Some(v) ==> v.len() > 0 && v[0] == path[0] && v.last() == path.last(),
{
    let dense = ThalwegGenerator::add_midpoints_spec(cloud, path);
    if path.len() >= 2 {
        assert(dense[0] == path[0]);
        assert(dense.last() == path[path.len() - 1]);
    }
    assert(dense.len() > 0);
    assert(dense[0] == path[0] && dense.last() == path.last());
    lemma_refine_endpoints(cloud, res, dense, fuel);
}

} // verus!
