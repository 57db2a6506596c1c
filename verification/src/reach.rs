//! Connectivity of the sounding cloud: two soundings are adjacent when they
//! lie within the resolution radius of one another, and connected when a
//! chain of adjacent soundings joins them.

use vstd::prelude::*;

use crate::bathymetry::Bathymetry;
use crate::geometry::within_meters;

verus! {

/// Adjacency: both indices in bounds, soundings within `res` metres.
pub open spec fn adj(cloud: Seq<Bathymetry>, res: int, i: int, j: int) -> bool {
    0 <= i < cloud.len() && 0 <= j < cloud.len() && within_meters(
        cloud[i].spec_position(),
        cloud[j].spec_position(),
        res,
    )
}

/// An index path witnessing connectivity: nonempty, from `s` to `t`, all
/// indices in bounds, consecutive indices adjacent.
pub open spec fn is_index_path(
    cloud: Seq<Bathymetry>,
    res: int,
    p: Seq<int>,
    s: int,
    t: int,
) -> bool {
    p.len() >= 1 && p[0] == s && p.last() == t && (forall|k: int|
        0 <= k < p.len() ==> 0 <= #[trigger] p[k] < cloud.len()) && (forall|k: int|
        0 <= k < p.len() - 1 ==> adj(cloud, res, #[trigger] p[k], p[k + 1]))
}

/// Whether `t` lies in the same connectivity component as `s`.
pub open spec fn connected(cloud: Seq<Bathymetry>, res: int, s: int, t: int) -> bool {
    exists|p: Seq<int>| is_index_path(cloud, res, p, s, t)
}

/// Every in-bounds index is connected to itself.
pub proof fn lemma_connected_refl(cloud: Seq<Bathymetry>, res: int, s: int)
    requires
        0 <= s < cloud.len(),
    ensures
        connected(cloud, res, s, s),
{
    let p = seq![s];
    assert(is_index_path(cloud, res, p, s, s));
}

/// Connectivity extends along one more adjacent edge.
pub proof fn lemma_connected_step(cloud: Seq<Bathymetry>, res: int, s: int, i: int, j: int)
    requires
        connected(cloud, res, s, i),
        adj(cloud, res, i, j),
    ensures
        connected(cloud, res, s, j),
{
    let p = choose|p: Seq<int>| is_index_path(cloud, res, p, s, i);
    let p2 = p.push(j);
    assert forall|k: int| 0 <= k < p2.len() - 1 implies adj(cloud, res, #[trigger] p2[k], p2[k + 1]) by {
        if k < p.len() - 1 {
            assert(p2[k] == p[k] && p2[k + 1] == p[k + 1]);
        } else {
            assert(p2[k] == p.last() && p2[k + 1] == j);
        }
    }
    assert(p2.last() == j);
    assert(is_index_path(cloud, res, p2, s, j));
}

/// Adjacency is symmetric.
pub proof fn lemma_adj_sym(cloud: Seq<Bathymetry>, res: int, i: int, j: int)
    requires
        adj(cloud, res, i, j),
    ensures
        adj(cloud, res, j, i),
{
    let a = cloud[i].spec_position();
    let b = cloud[j].spec_position();
    assert((a.lat_e7 - b.lat_e7) * (a.lat_e7 - b.lat_e7) == (b.lat_e7 - a.lat_e7) * (b.lat_e7
        - a.lat_e7)) by (nonlinear_arith);
    assert((a.lon_e7 - b.lon_e7) * (a.lon_e7 - b.lon_e7) == (b.lon_e7 - a.lon_e7) * (b.lon_e7
        - a.lon_e7)) by (nonlinear_arith);
}

/// Connectivity is transitive.
pub proof fn lemma_connected_trans(cloud: Seq<Bathymetry>, res: int, a: int, b: int, c: int)
    requires
        connected(cloud, res, a, b),
        connected(cloud, res, b, c),
    ensures
        connected(cloud, res, a, c),
{
    let p1 = choose|p: Seq<int>| is_index_path(cloud, res, p, a, b);
    let p2 = choose|p: Seq<int>| is_index_path(cloud, res, p, b, c);
    let q = p1 + p2.subrange(1, p2.len() as int);
    assert forall|k: int| 0 <= k < q.len() - 1 implies adj(cloud, res, #[trigger] q[k], q[k + 1]) by {
        if k < p1.len() - 1 {
            assert(q[k] == p1[k] && q[k + 1] == p1[k + 1]);
        } else if k == p1.len() - 1 {
            assert(q[k] == p1.last() && p1.last() == p2[0]);
            if p2.len() > 1 {
                assert(q[k + 1] == p2[1]);
                assert(adj(cloud, res, p2[0], p2[1]));
            }
        } else {
            assert(q[k] == p2[k - p1.len() + 1] && q[k + 1] == p2[k - p1.len() + 2]);
            assert(adj(cloud, res, p2[k - p1.len() + 1], p2[k - p1.len() + 2]));
        }
    }
    assert(q[0] == a);
    assert(q.last() == c);
    assert(is_index_path(cloud, res, q, a, c));
}

proof fn lemma_path_stays_closed(
    cloud: Seq<Bathymetry>,
    res: int,
    v: Seq<bool>,
    s: int,
    t: int,
    p: Seq<int>,
)
    requires
        v.len() == cloud.len(),
        0 <= s < cloud.len(),
        v[s],
        forall|i: int, j: int| v.len() > i >= 0 && v[i] && #[trigger] adj(cloud, res, i, j) ==> v[j],
        is_index_path(cloud, res, p, s, t),
    ensures
        0 <= t < cloud.len() && v[t],
    decreases p.len(),
{
    if p.len() == 1 {
        assert(t == s);
    } else {
        let p0 = p.drop_last();
        let mid = p[p.len() - 2];
        assert(is_index_path(cloud, res, p0, s, mid));
        lemma_path_stays_closed(cloud, res, v, s, mid, p0);
        assert(adj(cloud, res, mid, t));
    }
}

/// A set of indices that contains `s` and is closed under adjacency
/// contains everything connected to `s`.
pub proof fn lemma_connected_closed(
    cloud: Seq<Bathymetry>,
    res: int,
    v: Seq<bool>,
    s: int,
    t: int,
)
    requires
        v.len() == cloud.len(),
        0 <= s < cloud.len(),
        v[s],
        forall|i: int, j: int| v.len() > i >= 0 && v[i] && #[trigger] adj(cloud, res, i, j) ==> v[j],
        connected(cloud, res, s, t),
    ensures
        0 <= t < cloud.len() && v[t],
{
    let p = choose|p: Seq<int>| is_index_path(cloud, res, p, s, t);
    lemma_path_stays_closed(cloud, res, v, s, t, p);
}

} // verus!
