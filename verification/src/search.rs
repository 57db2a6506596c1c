//! The weighted path search between two waypoints over the implicit graph
//! whose nodes are the recorded soundings and whose edges join soundings
//! within the resolution radius.

use vstd::prelude::*;

use crate::bathymetry::{all_valid, Bathymetry};
use crate::generator::ThalwegGenerator;
use crate::geometry::{is_within, isqrt_u128, sq_dist_i128, within_meters, METERS_PER_DEGREE};
use crate::reach::{adj, connected, lemma_connected_closed, lemma_connected_refl,
    lemma_connected_step};

verus! {

/// How many entries of a boolean sequence are set.
pub open spec fn count_true(s: Seq<bool>) -> nat
    decreases s.len(),
{
    if s.len() == 0 {
        0
    } else {
        count_true(s.drop_last()) + (if s.last() {
            1nat
        } else {
            0nat
        })
    }
}

proof fn lemma_count_true_le(s: Seq<bool>)
    ensures
        count_true(s) <= s.len(),
    decreases s.len(),
{
    if s.len() > 0 {
        lemma_count_true_le(s.drop_last());
    }
}

proof fn lemma_count_true_lt(s: Seq<bool>, k: int)
    requires
        0 <= k < s.len(),
        !s[k],
    ensures
        count_true(s) < s.len(),
    decreases s.len(),
{
    lemma_count_true_le(s.drop_last());
    if k < s.len() - 1 {
        lemma_count_true_lt(s.drop_last(), k);
    }
}

proof fn lemma_count_true_update(s: Seq<bool>, k: int)
    requires
        0 <= k < s.len(),
        !s[k],
    ensures
        count_true(s.update(k, true)) == count_true(s) + 1,
    decreases s.len(),
{
    let u = s.update(k, true);
    if k == s.len() - 1 {
        assert(u.drop_last() =~= s.drop_last());
        assert(u.last());
    } else {
        assert(u.drop_last() =~= s.drop_last().update(k, true));
        lemma_count_true_update(s.drop_last(), k);
        assert(u.last() == s.last());
    }
}

fn filled_bool(n: usize, v: bool) -> (r: Vec<bool>)
    ensures
        r@.len() == n,
        forall|i: int| 0 <= i < n ==> r@[i] == v,
{
    let mut out: Vec<bool> = Vec::new();
    let mut i: usize = 0;
    while i < n
        invariant
            i <= n,
            out@.len() == i,
            forall|j: int| 0 <= j < i ==> out@[j] == v,
        decreases n - i,
    {
        out.push(v);
        i += 1;
    }
    out
}

fn filled_usize(n: usize) -> (r: Vec<usize>)
    ensures
        r@.len() == n,
{
    let mut out: Vec<usize> = Vec::new();
    let mut i: usize = 0;
    while i < n
        invariant
            i <= n,
            out@.len() == i,
        decreases n - i,
    {
        out.push(0);
        i += 1;
    }
    out
}

fn filled_u64(n: usize) -> (r: Vec<u64>)
    ensures
        r@.len() == n,
{
    let mut out: Vec<u64> = Vec::new();
    let mut i: usize = 0;
    while i < n
        invariant
            i <= n,
            out@.len() == i,
        decreases n - i,
    {
        out.push(0);
        i += 1;
    }
    out
}

fn sat_add_u64(a: u64, b: u64) -> u64 {
    if a > u64::MAX - b {
        u64::MAX
    } else {
        a + b
    }
}

/// Pick an unsettled reached node; the one with the least tentative cost.
fn scan_best(reached: &Vec<bool>, visited: &Vec<bool>, dist: &Vec<u64>) -> (r: Option<usize>)
    requires
        reached@.len() == visited@.len() == dist@.len(),
    ensures
        r is None ==> forall|m: int|
            0 <= m < reached@.len() ==> !(reached@[m] && !visited@[m]),
        r matches Some(b) ==> b < reached@.len() && reached@[b as int] && !visited@[b as int],
{
    let n = reached.len();
    let mut best: Option<usize> = None;
    let mut k: usize = 0;
    while k < n
        invariant
            n == reached@.len() == visited@.len() == dist@.len(),
            k <= n,
            best is None ==> forall|m: int| 0 <= m < k ==> !(reached@[m] && !visited@[m]),
            best matches Some(b) ==> b < n && reached@[b as int] && !visited@[b as int],
        decreases n - k,
    {
        if reached[k] && !visited[k] {
            match best {
                None => {
                    best = Some(k);
                },
                Some(b) => {
                    if dist[k] < dist[b] {
                        best = Some(k);
                    }
                },
            }
        }
        k += 1;
    }
    best
}

impl ThalwegGenerator {
    /// The cost of traversing one edge into `to`: the planar distance, and
    /// with weighting enabled the distance scaled down as the destination
    /// deepens (halved at a kilometre of depth), so deeper routes cost less
    /// while zero depth leaves pure distance.
    fn edge_cost(&self, from: Bathymetry, to: Bathymetry) -> (r: u64)
        requires
            self.wf(),
            from.valid(),
            to.valid(),
    {
        let d2 = sq_dist_i128(from.position(), to.position());
        proof {
            crate::geometry::lemma_sq_dist_bound(from.spec_position(), to.spec_position());
            crate::geometry::lemma_mul_le(
                METERS_PER_DEGREE as int,
                METERS_PER_DEGREE as int,
                200_000,
                200_000,
            );
            crate::geometry::lemma_mul_le(
                d2 as int,
                (METERS_PER_DEGREE as int) * (METERS_PER_DEGREE as int),
                16_200_000_000_000_000_000,
                40_000_000_000,
            );
        }
        let m2: i128 = (METERS_PER_DEGREE as i128) * (METERS_PER_DEGREE as i128);
        let scaled: u128 = (d2 * m2) as u128;
        let d = isqrt_u128(scaled);
        proof {
            assert(d < 1_000_000_000_000_000_000) by (nonlinear_arith)
                requires
                    (d as int) * (d as int) <= 648_000_000_000_000_000_000_000_000_000int,
            ;
        }
        let du: u64 = d as u64;
        if self.weighted {
            let depth: u128 = to.depth_mm as u128;
            let num: u128 = (du as u128) * 1_000_000;
            let q: u128 = num / (1_000_000 + depth);
            proof {
                vstd::arithmetic::div_mod::lemma_div_is_ordered_by_denominator(
                    num as int,
                    1_000_000,
                    1_000_000 + depth as int,
                );
                vstd::arithmetic::div_mod::lemma_div_multiples_vanish(du as int, 1_000_000);
                vstd::arithmetic::div_mod::lemma_div_pos_is_pos(num as int, 1_000_000 + depth as int);
            }
            q as u64
        } else {
            du
        }
    }

    /// Search for a route from `source` to `sink` over the sounding graph:
    /// both are first snapped to the nearest recorded sounding, then a
    /// least-cost search explores the component reachable from the source.
    /// A path is returned exactly when the two snapped soundings are in the
    /// same connectivity component; it runs from the snapped source to the
    /// snapped sink, visits only recorded soundings, and every consecutive
    /// pair lies within the resolution radius. With no route, the search
    /// exhausts the reachable component and reports the absence. Every tie
    /// (snapping, and the choice among equal-cost frontier nodes) keeps the
    /// sounding earliest in build order, so identical inputs always yield
    /// the identical path.
    #[verifier::rlimit(60)]
    pub fn thalweg(&self, source: Bathymetry, sink: Bathymetry) -> (r: Option<Vec<Bathymetry>>)
        requires
            self.wf(),
            self.data@.len() > 0,
            source.valid(),
            sink.valid(),
        ensures
            r is Some <==> connected(
                self.data@,
                self.resolution as int,
                Self::nearest_idx(self.data@, source.spec_position()),
                Self::nearest_idx(self.data@, sink.spec_position()),
            ),
            r matches Some(p) ==> p@.len() >= 1 && p@[0] == self.data@[Self::nearest_idx(
                self.data@,
                source.spec_position(),
            )] && p@.last() == self.data@[Self::nearest_idx(self.data@, sink.spec_position())]
                && (forall|k: int| 0 <= k < p@.len() ==> self.data@.contains(#[trigger] p@[k]))
                && (forall|k: int|
                0 <= k < p@.len() - 1 ==> within_meters(
                    #[trigger] p@[k].spec_position(),
                    p@[k + 1].spec_position(),
                    self.resolution as int,
                )) && all_valid(p@),
    {
        let ghost cloud = self.data@;
        let ghost res = self.resolution as int;
        let n = self.data.len();
        let s = self.nearest_index(source.position());
        let t = self.nearest_index(sink.position());
        let res_m = self.resolution as u64;
        let mut visited = filled_bool(n, false);
        let mut reached = filled_bool(n, false);
        let mut dist = filled_u64(n);
        let mut prev = filled_usize(n);
        let mut order = filled_usize(n);
        let mut count: usize = 0;
        reached.set(s, true);
        proof {
            lemma_connected_refl(cloud, res, s as int);
            assert(count_true(visited@) == 0) by {
                lemma_count_true_le(visited@);
                if count_true(visited@) > 0 {
                    lemma_count_all_false(visited@);
                }
            }
        }
        loop
            invariant
                self.wf(),
                cloud == self.data@,
                res == self.resolution as int,
                res_m == self.resolution as u64,
                n == cloud.len(),
                0 < n,
                s < n,
                t < n,
                s == Self::nearest_idx(cloud, source.spec_position()),
                t == Self::nearest_idx(cloud, sink.spec_position()),
                visited@.len() == n,
                reached@.len() == n,
                dist@.len() == n,
                prev@.len() == n,
                order@.len() == n,
                reached@[s as int],
                !visited@[t as int],
                count == count_true(visited@),
                count <= n,
                forall|i: int| 0 <= i < n && #[trigger] visited@[i] ==> reached@[i],
                forall|i: int|
                    0 <= i < n && #[trigger] reached@[i] ==> connected(cloud, res, s as int, i),
                forall|i: int|
                    0 <= i < n && #[trigger] reached@[i] && i != s ==> prev@[i] < n
                        && visited@[prev@[i] as int] && adj(cloud, res, prev@[i] as int, i),
                forall|i: int|
                    0 <= i < n && #[trigger] visited@[i] && i != s ==> order@[prev@[i] as int]
                        < order@[i],
                forall|i: int| 0 <= i < n && #[trigger] visited@[i] ==> order@[i] < count,
                forall|i: int, j: int|
                    0 <= i < n && visited@[i] && #[trigger] adj(cloud, res, i, j) ==> reached@[j],
            decreases n - count,
        {
            let best = scan_best(&reached, &visited, &dist);
            match best {
                None => {
                    proof {
                        assert forall|i: int, j: int|
                            n > i >= 0 && reached@[i] && #[trigger] adj(cloud, res, i, j) implies reached@[j] by {
                            assert(visited@[i]);
                        }
                        if connected(cloud, res, s as int, t as int) {
                            lemma_connected_closed(cloud, res, reached@, s as int, t as int);
                            assert(visited@[t as int]);
                        }
                    }
                    return None;
                },
                Some(b) => {
                    proof {
                        lemma_count_true_lt(visited@, b as int);
                        lemma_count_true_update(visited@, b as int);
                    }
                    visited.set(b, true);
                    order.set(b, count);
                    count += 1;
                    if b == t {
                        // reconstruct the route by walking the predecessor
                        // chain back from the sink to the source
                        let mut chain: Vec<usize> = Vec::new();
                        let mut cur: usize = t;
                        chain.push(cur);
                        while cur != s
                            invariant
                                self.wf(),
                                cloud == self.data@,
                                res == self.resolution as int,
                                n == cloud.len(),
                                s < n,
                                t < n,
                                visited@.len() == n,
                                prev@.len() == n,
                                order@.len() == n,
                                cur < n,
                                visited@[cur as int],
                                chain@.len() >= 1,
                                chain@[0] == t,
                                chain@.last() == cur,
                                forall|w: int| 0 <= w < chain@.len() ==> #[trigger] chain@[w] < n,
                                forall|w: int|
                                    0 <= w < chain@.len() - 1 ==> adj(
                                        cloud,
                                        res,
                                        #[trigger] chain@[w + 1] as int,
                                        chain@[w] as int,
                                    ),
                                forall|i: int|
                                    0 <= i < n && #[trigger] visited@[i] ==> reached@[i],
                                forall|i: int|
                                    0 <= i < n && #[trigger] reached@[i] && i != s ==> prev@[i]
                                        < n && visited@[prev@[i] as int] && adj(
                                        cloud,
                                        res,
                                        prev@[i] as int,
                                        i,
                                    ),
                                forall|i: int|
                                    0 <= i < n && #[trigger] visited@[i] && i != s ==> order@[
                                        prev@[i] as int] < order@[i],
                            decreases order@[cur as int],
                        {
                            let nxt = prev[cur];
                            proof {
                                assert(reached@[cur as int]);
                                assert(adj(cloud, res, nxt as int, cur as int));
                                assert(order@[nxt as int] < order@[cur as int]);
                            }
                            cur = nxt;
                            chain.push(cur);
                        }
                        let mut out: Vec<Bathymetry> = Vec::new();
                        let len = chain.len();
                        let mut idx: usize = len;
                        while idx > 0
                            invariant
                                self.wf(),
                                cloud == self.data@,
                                res == self.resolution as int,
                                n == cloud.len(),
                                len == chain@.len(),
                                1 <= len,
                                idx <= len,
                                chain@[0] == t,
                                t < n,
                                chain@.last() == s,
                                forall|w: int| 0 <= w < chain@.len() ==> #[trigger] chain@[w] < n,
                                forall|w: int|
                                    0 <= w < chain@.len() - 1 ==> adj(
                                        cloud,
                                        res,
                                        #[trigger] chain@[w + 1] as int,
                                        chain@[w] as int,
                                    ),
                                out@.len() == len - idx,
                                forall|w: int|
                                    0 <= w < out@.len() ==> #[trigger] out@[w] == cloud[chain@[len
                                        - 1 - w] as int],
                            decreases idx,
                        {
                            idx -= 1;
                            out.push(self.data[chain[idx]]);
                        }
                        proof {
                            assert(out@[0] == cloud[s as int]);
                            assert(out@.last() == cloud[chain@[0] as int]);
                            assert forall|k: int| 0 <= k < out@.len() implies self.data@.contains(
                                #[trigger] out@[k],
                            ) by {
                                assert(out@[k] == cloud[chain@[len - 1 - k] as int]);
                            }
                            assert forall|k: int| 0 <= k < out@.len() - 1 implies within_meters(
                                #[trigger] out@[k].spec_position(),
                                out@[k + 1].spec_position(),
                                res,
                            ) by {
                                let w = len - 2 - k;
                                assert(adj(cloud, res, chain@[w + 1] as int, chain@[w] as int));
                                assert(out@[k] == cloud[chain@[w + 1] as int]);
                                assert(out@[k + 1] == cloud[chain@[w] as int]);
                            }
                            assert forall|k: int| 0 <= k < out@.len() implies #[trigger] out@[k].valid() by {
                                assert(out@[k] == cloud[chain@[len - 1 - k] as int]);
                                assert(cloud[chain@[len - 1 - k] as int].valid());
                            }
                        }
                        return Some(out);
                    }
                    // relax every neighbor of the settled node
                    let bd = self.data[b];
                    let mut k2: usize = 0;
                    while k2 < n
                        invariant
                            self.wf(),
                            cloud == self.data@,
                            res == self.resolution as int,
                            res_m == self.resolution as u64,
                            n == cloud.len(),
                            0 < n,
                            s < n,
                            t < n,
                            b < n,
                            k2 <= n,
                            bd == cloud[b as int],
                            visited@.len() == n,
                            reached@.len() == n,
                            dist@.len() == n,
                            prev@.len() == n,
                            order@.len() == n,
                            reached@[s as int],
                            !visited@[t as int],
                            visited@[b as int],
                            count == count_true(visited@),
                            count <= n,
                            forall|i: int| 0 <= i < n && #[trigger] visited@[i] ==> reached@[i],
                            forall|i: int|
                                0 <= i < n && #[trigger] reached@[i] ==> connected(
                                    cloud,
                                    res,
                                    s as int,
                                    i,
                                ),
                            forall|i: int|
                                0 <= i < n && #[trigger] reached@[i] && i != s ==> prev@[i] < n
                                    && visited@[prev@[i] as int] && adj(
                                    cloud,
                                    res,
                                    prev@[i] as int,
                                    i,
                                ),
                            forall|i: int|
                                0 <= i < n && #[trigger] visited@[i] && i != s ==> order@[prev@[i]
                                    as int] < order@[i],
                            forall|i: int| 0 <= i < n && #[trigger] visited@[i] ==> order@[i] < count,
                            forall|i: int, j: int|
                                0 <= i < n && visited@[i] && i != b && #[trigger] adj(
                                    cloud,
                                    res,
                                    i,
                                    j,
                                ) ==> reached@[j],
                            forall|j: int|
                                0 <= j < k2 && #[trigger] adj(cloud, res, b as int, j) ==> reached@[j],
                        decreases n - k2,
                    {
                        proof {
                            assert(cloud[k2 as int].valid());
                            assert(cloud[b as int].valid());
                        }
                        if is_within(bd.position(), self.data[k2].position(), res_m) {
                            let c = sat_add_u64(dist[b], self.edge_cost(bd, self.data[k2]));
                            if !reached[k2] {
                                reached.set(k2, true);
                                dist.set(k2, c);
                                prev.set(k2, b);
                                proof {
                                    lemma_connected_step(cloud, res, s as int, b as int, k2 as int);
                                }
                            } else if !visited[k2] && c < dist[k2] {
                                dist.set(k2, c);
                                prev.set(k2, b);
                            }
                        }
                        k2 += 1;
                    }
                },
            }
        }
    }
}

proof fn lemma_count_all_false(s: Seq<bool>)
    requires
        forall|i: int| 0 <= i < s.len() ==> !s[i],
    ensures
        count_true(s) == 0,
    decreases s.len(),
{
    if s.len() > 0 {
        lemma_count_all_false(s.drop_last());
    }
}


/// Snapping two recorded soundings to their nearest recorded soundings
/// preserves connectivity: the snapped indices are connected exactly when
/// the soundings' own indices are, so a route is absent exactly when the
/// sink waypoint is outside the source waypoint's component.
pub proof fn lemma_snap_preserves_connectivity(
    cloud: Seq<Bathymetry>,
    res: int,
    a: Bathymetry,
    b: Bathymetry,
    ia: int,
    ib: int,
)
    requires
        all_valid(cloud),
        res >= 0,
        0 <= ia < cloud.len(),
        0 <= ib < cloud.len(),
        cloud[ia] == a,
        cloud[ib] == b,
    ensures
        connected(
            cloud,
            res,
            ThalwegGenerator::nearest_idx(cloud, a.spec_position()),
            ThalwegGenerator::nearest_idx(cloud, b.spec_position()),
        ) <==> connected(cloud, res, ia, ib),
{
    let na = ThalwegGenerator::nearest_idx(cloud, a.spec_position());
    let nb = ThalwegGenerator::nearest_idx(cloud, b.spec_position());
    lemma_snap_zero_distance(cloud, res, a, ia);
    lemma_snap_zero_distance(cloud, res, b, ib);
    if connected(cloud, res, na, nb) {
        crate::reach::lemma_connected_refl(cloud, res, ia);
        crate::reach::lemma_connected_refl(cloud, res, nb);
        crate::reach::lemma_connected_step(cloud, res, ia, ia, na);
        crate::reach::lemma_connected_trans(cloud, res, ia, na, nb);
        crate::reach::lemma_connected_step(cloud, res, nb, nb, ib);
        crate::reach::lemma_connected_trans(cloud, res, ia, nb, ib);
    }
    if connected(cloud, res, ia, ib) {
        crate::reach::lemma_connected_refl(cloud, res, na);
        crate::reach::lemma_connected_refl(cloud, res, ib);
        crate::reach::lemma_connected_step(cloud, res, na, na, ia);
        crate::reach::lemma_connected_trans(cloud, res, na, ia, ib);
        crate::reach::lemma_connected_step(cloud, res, ib, ib, nb);
        crate::reach::lemma_connected_trans(cloud, res, na, ib, nb);
    }
}

proof fn lemma_snap_zero_distance(cloud: Seq<Bathymetry>, res: int, a: Bathymetry, ia: int)
    requires
        all_valid(cloud),
        res >= 0,
        0 <= ia < cloud.len(),
        cloud[ia] == a,
    ensures
        adj(cloud, res, ia, ThalwegGenerator::nearest_idx(cloud, a.spec_position())),
        adj(cloud, res, ThalwegGenerator::nearest_idx(cloud, a.spec_position()), ia),
{
    let na = ThalwegGenerator::nearest_idx(cloud, a.spec_position());
    ThalwegGenerator::lemma_nearest_idx_min(cloud, a.spec_position());
    assert(cloud[ia].valid());
    assert(cloud[na].valid());
    let pa = a.spec_position();
    let pn = cloud[na].spec_position();
    assert(crate::geometry::sq_dist(pa, pa) == 0) by (nonlinear_arith);
    crate::geometry::lemma_sq_dist_bound(pn, pa);
    assert(crate::geometry::sq_dist(pn, pa) <= 0);
    assert(pn.lat_e7 == pa.lat_e7 && pn.lon_e7 == pa.lon_e7) by (nonlinear_arith)
        requires
            (pn.lat_e7 - pa.lat_e7) * (pn.lat_e7 - pa.lat_e7) + (pn.lon_e7 - pa.lon_e7) * (
            pn.lon_e7 - pa.lon_e7) <= 0,
    ;
    assert(pn =~= pa);
    assert(crate::geometry::sq_dist(cloud[ia].spec_position(), pn) == 0) by (nonlinear_arith)
        requires
            cloud[ia].spec_position().lat_e7 == pn.lat_e7,
            cloud[ia].spec_position().lon_e7 == pn.lon_e7,
    ;
    assert(within_meters(cloud[ia].spec_position(), pn, res)) by (nonlinear_arith)
        requires
            crate::geometry::sq_dist(cloud[ia].spec_position(), pn) == 0,
            res >= 0,
    ;
    crate::reach::lemma_adj_sym(cloud, res, ia, na);
}

} // verus!
