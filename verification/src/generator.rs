use vstd::prelude::*;
use crate::density::{COORD_LIMIT, weight_of};
use crate::sampler::{sample, gen_range_i64, clamp_spec};
use crate::{DOMAIN_LO, DOMAIN_HI, in_domain};

verus! {

/// One Gaussian cluster: the centers and spreads of the x and y
/// densities, in fixed-point hundredths.
#[derive(Clone, Copy, Debug, PartialEq, Eq, Structural)]
pub struct ClusterSpec {
    pub center_x: i64,
    pub center_y: i64,
    pub spread_x: i64,
    pub spread_y: i64,
}

/// A well-formed cluster: centers of bounded magnitude and positive,
/// bounded spreads, as the sampler requires.
pub open spec fn cluster_wf(c: ClusterSpec) -> bool {
    &&& -COORD_LIMIT <= c.center_x <= COORD_LIMIT
    &&& -COORD_LIMIT <= c.center_y <= COORD_LIMIT
    &&& 1 <= c.spread_x <= COORD_LIMIT
    &&& 1 <= c.spread_y <= COORD_LIMIT
}

/// One generated point: coordinates in fixed-point hundredths and the
/// index of the cluster it belongs to.
#[derive(Clone, Copy, Debug, PartialEq, Eq, Structural)]
pub struct Point {
    pub x: i64,
    pub y: i64,
    pub group: u32,
}

/// A well-formed point: both coordinates lie inside the sampling domain.
pub open spec fn point_wf(p: Point) -> bool {
    in_domain(p.x as int) && in_domain(p.y as int)
}

/// What the sampler guarantees of one drawn coordinate `v` against the
/// density with the given center and spread: either some threshold below
/// its acceptance weight admitted it, or it is the fallback, the domain
/// point nearest the center.
pub open spec fn drawn_from(v: int, center: int, spread: int) -> bool {
    weight_of(v, center, spread) >= 1
        || v == clamp_spec(center, DOMAIN_LO as int, DOMAIN_HI as int)
}

/// The label coupling the generator keeps: a point's coordinates were
/// drawn against the densities of exactly the cluster its stored group
/// label names.
pub open spec fn labeled_by(p: Point, c: ClusterSpec) -> bool {
    drawn_from(p.x as int, c.center_x as int, c.spread_x as int)
        && drawn_from(p.y as int, c.center_y as int, c.spread_y as int)
}

/// Generate one point labeled `group`, its x and y coordinates drawn
/// independently over the sampling domain from the given cluster's
/// densities.
pub fn generate_point(rng: &mut rand::rngs::ThreadRng, group: u32, cluster: &ClusterSpec) -> (p: Point)
    requires
        cluster_wf(*cluster),
    ensures
        point_wf(p),
        p.group == group,
        labeled_by(p, *cluster),
{
    let x = sample(rng, cluster.center_x, cluster.spread_x, DOMAIN_LO, DOMAIN_HI);
    let y = sample(rng, cluster.center_y, cluster.spread_y, DOMAIN_LO, DOMAIN_HI);
    Point { x, y, group }
}

/// Generate `count` points over the given cluster table. For each point
/// a cluster index is drawn uniformly at random; the point's coordinates
/// are drawn from that cluster's densities and its stored group label is
/// that same index, so the label always names the cluster whose
/// parameters placed the point.
pub fn generate(rng: &mut rand::rngs::ThreadRng, clusters: &Vec<ClusterSpec>, count: usize) -> (pts: Vec<Point>)
    requires
        1 <= clusters.len() <= 0xffff_ffff,
        forall|i: int| 0 <= i < clusters.len() ==> cluster_wf(#[trigger] clusters[i]),
    ensures
        pts.len() == count,
        forall|i: int| 0 <= i < pts.len()
            ==> point_wf(#[trigger] pts[i]) && (pts[i].group as int) < clusters.len()
                && labeled_by(pts[i], clusters[pts[i].group as int]),
{
    let mut pts: Vec<Point> = Vec::new();
    let mut made: usize = 0;
    while made < count
        invariant
            made <= count,
            pts.len() == made,
            1 <= clusters.len() <= 0xffff_ffff,
            forall|i: int| 0 <= i < clusters.len() ==> cluster_wf(#[trigger] clusters[i]),
            forall|i: int| 0 <= i < pts.len()
                ==> point_wf(#[trigger] pts[i]) && (pts[i].group as int) < clusters.len()
                    && labeled_by(pts[i], clusters[pts[i].group as int]),
        decreases count - made,
    {
        let g = gen_range_i64(rng, 0, clusters.len() as i64);
        let cluster = &clusters[g as usize];
        let p = generate_point(rng, g as u32, cluster);
        pts.push(p);
        made = made + 1;
    }
    pts
}

/// The default cluster table: five clusters of spread 10.00 on both
/// axes, spaced across the domain.
pub fn default_clusters() -> (cs: Vec<ClusterSpec>)
    ensures
        cs.len() == 5,
        forall|i: int| 0 <= i < cs.len() ==> cluster_wf(#[trigger] cs[i]),
        cs[0] == (ClusterSpec { center_x: 0, center_y: 0, spread_x: 1000, spread_y: 1000 }),
        cs[1] == (ClusterSpec { center_x: -10000i64, center_y: -10000i64, spread_x: 1000, spread_y: 1000 }),
        cs[2] == (ClusterSpec { center_x: 15000i64, center_y: -15000i64, spread_x: 1000, spread_y: 1000 }),
        cs[3] == (ClusterSpec { center_x: 5000, center_y: 10000, spread_x: 1000, spread_y: 1000 }),
        cs[4] == (ClusterSpec { center_x: -20000i64, center_y: 20000i64, spread_x: 1000, spread_y: 1000 }),
{
    let mut cs: Vec<ClusterSpec> = Vec::new();
    cs.push(ClusterSpec { center_x: 0, center_y: 0, spread_x: 1000, spread_y: 1000 });
    cs.push(ClusterSpec { center_x: -10000i64, center_y: -10000i64, spread_x: 1000, spread_y: 1000 });
    cs.push(ClusterSpec { center_x: 15000, center_y: -15000, spread_x: 1000, spread_y: 1000 });
    cs.push(ClusterSpec { center_x: 5000, center_y: 10000, spread_x: 1000, spread_y: 1000 });
    cs.push(ClusterSpec { center_x: -20000, center_y: 20000, spread_x: 1000, spread_y: 1000 });
    cs
}

} // verus!
