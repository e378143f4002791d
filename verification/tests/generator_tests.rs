use pointgen::generator::{generate, generate_point, default_clusters, ClusterSpec, Point};

#[test]
fn generate_returns_exactly_the_requested_count() {
    let mut rng = rand::thread_rng();
    let clusters = default_clusters();
    let points = generate(&mut rng, &clusters, 2000);
    assert_eq!(points.len(), 2000);
}

#[test]
fn generated_points_lie_in_domain_with_valid_groups() {
    let mut rng = rand::thread_rng();
    let clusters = default_clusters();
    let points = generate(&mut rng, &clusters, 2000);
    for p in &points {
        assert!(-30000 <= p.x && p.x < 30000);
        assert!(-30000 <= p.y && p.y < 30000);
        assert!((p.group as usize) < clusters.len());
    }
}

#[test]
fn point_label_names_its_cluster() {
    let mut rng = rand::thread_rng();
    let cluster = ClusterSpec { center_x: 15000, center_y: -15000, spread_x: 1000, spread_y: 1000 };
    let p = generate_point(&mut rng, 3, &cluster);
    assert_eq!(p.group, 3);
}

#[test]
fn default_table_holds_the_five_clusters() {
    let clusters = default_clusters();
    assert_eq!(clusters.len(), 5);
    assert_eq!(clusters[0], ClusterSpec { center_x: 0, center_y: 0, spread_x: 1000, spread_y: 1000 });
    assert_eq!(clusters[1], ClusterSpec { center_x: -10000, center_y: -10000, spread_x: 1000, spread_y: 1000 });
    assert_eq!(clusters[2], ClusterSpec { center_x: 15000, center_y: -15000, spread_x: 1000, spread_y: 1000 });
    assert_eq!(clusters[3], ClusterSpec { center_x: 5000, center_y: 10000, spread_x: 1000, spread_y: 1000 });
    assert_eq!(clusters[4], ClusterSpec { center_x: -20000, center_y: 20000, spread_x: 1000, spread_y: 1000 });
}

#[test]
fn single_cluster_scenario() {
    // one cluster at the origin with spread 10.00: every point carries
    // group 0 and lands within six spreads of the center
    let mut rng = rand::thread_rng();
    let mut clusters: Vec<ClusterSpec> = Vec::new();
    clusters.push(ClusterSpec { center_x: 0, center_y: 0, spread_x: 1000, spread_y: 1000 });
    let points = generate(&mut rng, &clusters, 100);
    assert_eq!(points.len(), 100);
    for p in &points {
        assert_eq!(p.group, 0);
        assert!(-6000 <= p.x && p.x <= 6000);
        assert!(-6000 <= p.y && p.y <= 6000);
        assert!(-30000 <= p.x && p.x < 30000);
        assert!(-30000 <= p.y && p.y < 30000);
    }
    let _ = Point { x: 0, y: 0, group: 0 };
}
