use pointnav::gc::Gc;
use pointnav::geom::{isqrt, Point3};
use pointnav::job::KDNavJob;
use pointnav::kdnavi::{KDNavI, NavError};
use pointnav::node::Node;
use pointnav::kdtree::Tree;

fn p(x: i64, y: i64, z: i64) -> Point3 {
    Point3 { x, y, z }
}

fn d2(a: Point3, b: Point3) -> i64 {
    let dx = a.x - b.x;
    let dy = a.y - b.y;
    let dz = a.z - b.z;
    dx * dx + dy * dy + dz * dz
}

/// A small deterministic pseudo-random coordinate stream.
struct Lcg(u64);

impl Lcg {
    fn next_coord(&mut self) -> i64 {
        self.0 = self.0.wrapping_mul(6364136223846793005).wrapping_add(1442695040888963407);
        ((self.0 >> 33) % 201) as i64 - 100
    }
}

#[test]
fn isqrt_exact_values() {
    assert_eq!(isqrt(0), 0);
    assert_eq!(isqrt(1), 1);
    assert_eq!(isqrt(3), 1);
    assert_eq!(isqrt(4), 2);
    assert_eq!(isqrt(10), 3);
    assert_eq!(isqrt(1_000_000), 1000);
    assert_eq!(isqrt(999_999), 999);
}

#[test]
fn nearest_self_match() {
    let pts = vec![p(0, 0, 0), p(10, 0, 0), p(3, 4, 0), p(-7, 2, 9), p(5, 5, 5)];
    let mut nav = KDNavI::new();
    nav.build(pts.clone());
    for (i, q) in pts.iter().enumerate() {
        let r = nav.nearest(*q);
        assert_eq!(r, i as i64);
    }
}

#[test]
fn nearest_coincident_points() {
    let pts = vec![p(1, 1, 1), p(1, 1, 1), p(9, 9, 9)];
    let mut nav = KDNavI::new();
    nav.build(pts.clone());
    let r = nav.nearest(p(1, 1, 1));
    assert!(r == 0 || r == 1);
    let r2 = nav.nearest(p(8, 9, 9));
    assert_eq!(r2, 2);
}

#[test]
fn nearest_empty_sentinel() {
    let nav = KDNavI::new();
    assert_eq!(nav.nearest(p(1, 2, 3)), -1);
}

#[test]
fn radius_search_matches_brute_force() {
    let mut lcg = Lcg(42);
    let mut pts: Vec<Point3> = Vec::new();
    for _ in 0..60 {
        pts.push(p(lcg.next_coord(), lcg.next_coord(), lcg.next_coord()));
    }
    let mut tree = Tree::new();
    tree.build(&pts);
    for r in [0i64, 25, 60, 110, 400] {
        let q = p(lcg.next_coord(), lcg.next_coord(), lcg.next_coord());
        let got = tree.radius_search(q, r);
        let mut expect: Vec<i64> = (0..pts.len() as i64)
            .filter(|&i| d2(pts[i as usize], q) <= r * r)
            .collect();
        let mut got_sorted = got.clone();
        got_sorted.sort();
        expect.sort();
        assert_eq!(got_sorted, expect, "same identifiers for radius {r}");
        for w in got.windows(2) {
            assert!(
                d2(pts[w[0] as usize], q) <= d2(pts[w[1] as usize], q),
                "ascending distance order"
            );
        }
    }
}

#[test]
fn radius_search_negative_and_empty() {
    let mut tree = Tree::new();
    assert!(tree.radius_search(p(0, 0, 0), 5).is_empty());
    tree.build(&vec![p(0, 0, 0), p(1, 0, 0)]);
    assert!(tree.radius_search(p(0, 0, 0), -1).is_empty());
    assert!(tree.radius_search(p(0, 0, 0), -1000).is_empty());
}

#[test]
fn radius_zero_finds_coincident() {
    let mut tree = Tree::new();
    tree.build(&vec![p(0, 0, 0), p(1, 0, 0), p(0, 0, 0)]);
    let mut got = tree.radius_search(p(0, 0, 0), 0);
    got.sort();
    assert_eq!(got, vec![0, 2]);
}

#[test]
fn neighbors_sorted_and_exact() {
    let pts = vec![p(0, 0, 0), p(1, 0, 0), p(5, 0, 0), p(2, 0, 0)];
    let mut nav = KDNavI::new();
    nav.build(pts);
    let v = nav.neighbors(0, 2).unwrap();
    assert_eq!(v, vec![0, 1, 3]);
}

#[test]
fn neighbors_cache_hit_ignores_radius() {
    let pts = vec![p(0, 0, 0), p(1, 0, 0), p(5, 0, 0)];
    let mut nav = KDNavI::new();
    nav.build(pts);
    let first = nav.neighbors(0, 2).unwrap();
    assert_eq!(first, vec![0, 1]);
    // Same identifier and radius: identical answer from the cache.
    let again = nav.neighbors(0, 2).unwrap();
    assert_eq!(again, first);
    // A wider radius for the same identifier still returns the cached
    // list: the answer was not recomputed.
    let wider = nav.neighbors(0, 100).unwrap();
    assert_eq!(wider, first);
    // A fresh identifier does use the asked radius.
    let other = nav.neighbors(2, 100).unwrap();
    assert_eq!(other, vec![2, 1, 0]);
}

#[test]
fn neighbors_invalid_id_is_error() {
    let mut nav = KDNavI::new();
    nav.build(vec![p(0, 0, 0)]);
    assert_eq!(nav.neighbors(1, 5).unwrap_err(), NavError::InvalidId);
    assert_eq!(nav.neighbors(-1, 5).unwrap_err(), NavError::InvalidId);
    let mut empty = KDNavI::new();
    assert_eq!(empty.neighbors(0, 5).unwrap_err(), NavError::InvalidId);
}

#[test]
fn path_two_point_chain() {
    let pts = vec![p(0, 0, 0), p(3, 0, 0)];
    let mut nav = KDNavI::new();
    nav.build(pts.clone());
    assert_eq!(nav.path(0, 1, 5).unwrap(), vec![0, 1]);
    // No feasible route within the hop limit.
    let mut nav2 = KDNavI::new();
    nav2.build(pts);
    assert_eq!(nav2.path(0, 1, 2).unwrap(), Vec::<i64>::new());
}

#[test]
fn path_three_point_scenario() {
    let pts = vec![p(0, 0, 0), p(2, 0, 0), p(4, 0, 0)];
    let mut nav = KDNavI::new();
    nav.build(pts.clone());
    // The direct hop of length 4 exceeds the limit of 3: go through the
    // middle point.
    assert_eq!(nav.path(0, 2, 3).unwrap(), vec![0, 1, 2]);
    // With the direct hop allowed the route costs no more than the
    // two-hop one; the search settles on the direct edge.
    let mut nav2 = KDNavI::new();
    nav2.build(pts);
    assert_eq!(nav2.path(0, 2, 5).unwrap(), vec![0, 2]);
}

#[test]
fn path_start_equals_end() {
    let mut nav = KDNavI::new();
    nav.build(vec![p(0, 0, 0), p(9, 9, 9)]);
    assert_eq!(nav.path(1, 1, 5).unwrap(), vec![1]);
}

#[test]
fn path_detour_is_shortest() {
    // A bent corridor: the route must take every intermediate hop.
    let pts = vec![p(0, 0, 0), p(2, 0, 0), p(4, 0, 0), p(4, 2, 0), p(4, 4, 0)];
    let mut nav = KDNavI::new();
    nav.build(pts);
    assert_eq!(nav.path(0, 4, 2).unwrap(), vec![0, 1, 2, 3, 4]);
}

#[test]
fn path_invalid_ids_are_errors() {
    let mut nav = KDNavI::new();
    nav.build(vec![p(0, 0, 0)]);
    assert_eq!(nav.path(0, 1, 5).unwrap_err(), NavError::InvalidId);
    assert_eq!(nav.path(-2, 0, 5).unwrap_err(), NavError::InvalidId);
    let mut empty = KDNavI::new();
    assert_eq!(empty.path(0, 0, 5).unwrap_err(), NavError::InvalidId);
}

#[test]
fn clear_behaves_like_fresh() {
    let pts = vec![p(0, 0, 0), p(1, 0, 0), p(2, 0, 0)];
    let mut nav = KDNavI::new();
    nav.build(pts);
    let _ = nav.neighbors(0, 5).unwrap();
    let _ = nav.path(0, 2, 5).unwrap();
    nav.clear();
    assert_eq!(nav.nearest(p(0, 0, 0)), -1);
    assert_eq!(nav.neighbors(0, 5).unwrap_err(), NavError::InvalidId);
    assert_eq!(nav.path(0, 0, 5).unwrap_err(), NavError::InvalidId);
    // A clear is idempotent and a rebuild works afterwards.
    nav.clear();
    nav.build(vec![p(7, 7, 7)]);
    assert_eq!(nav.nearest(p(7, 7, 7)), 0);
    assert_eq!(nav.neighbors(0, 1).unwrap(), vec![0]);
}

#[test]
fn build_replaces_points_and_cache() {
    let mut nav = KDNavI::new();
    nav.build(vec![p(0, 0, 0), p(10, 0, 0)]);
    assert_eq!(nav.neighbors(0, 1).unwrap(), vec![0]);
    // Rebuilding drops the cached list: the same identifier now answers
    // with the new radius against the new point set.
    nav.build(vec![p(0, 0, 0), p(1, 0, 0)]);
    assert_eq!(nav.neighbors(0, 1).unwrap(), vec![0, 1]);
}

#[test]
fn jobs_deliver_exactly_n_results() {
    let pts = vec![p(0, 0, 0), p(2, 0, 0), p(4, 0, 0), p(4, 2, 0)];
    let requests = [(0i64, 3i64, 3i64), (0, 2, 3), (3, 0, 3), (1, 1, 3), (0, 3, 1)];
    // What a synchronous call answers for each request, against a point
    // set held static throughout.
    let mut sync_results: Vec<Vec<i64>> = Vec::new();
    for (s, e, md) in requests {
        let mut nav = KDNavI::new();
        nav.build(pts.clone());
        sync_results.push(nav.path(s, e, md).unwrap());
    }
    // Polling: nothing arrives, every job stays outstanding.
    let mut jobs: Vec<KDNavJob> = (0..requests.len()).map(|_| KDNavJob::new()).collect();
    for job in jobs.iter_mut() {
        assert!(!job.step(None));
        assert!(!job.done);
    }
    // The worker finishes each request in turn; each poll retires the
    // job and delivers exactly its own result.
    let mut delivered = 0;
    for (job, expect) in jobs.iter_mut().zip(sync_results.iter()) {
        assert!(job.step(Some(expect.clone())));
        assert!(job.done);
        assert_eq!(&job.path, expect);
        delivered += 1;
    }
    assert_eq!(delivered, requests.len());
}

#[test]
fn job_delivery_overwrites() {
    let mut job = KDNavJob::new();
    assert_eq!(job.path, Vec::<i64>::new());
    job.deliver_path(vec![4, 5, 6]);
    assert!(job.done);
    assert_eq!(job.path, vec![4, 5, 6]);
}

#[test]
fn shared_handles_and_chain_nodes() {
    let g = Gc::new(41i64);
    let h = g.clone();
    assert_eq!(*g.get(), 41);
    assert_eq!(*h.get(), 41);
    let a = Node::id(7);
    let b = Node::new(8, 10, Some(a.clone()));
    let c = Node::new(9, 20, Some(b.clone()));
    assert_eq!(c.collect_ids(), vec![7, 8, 9]);
    assert_eq!(b.collect_ids(), vec![7, 8]);
    assert_eq!(a.collect_ids(), vec![7]);
    assert_eq!(c.cost_e(), 20);
    assert_eq!(c.head_id_e(), 9);
}

#[test]
fn tree_nearest_reports_distance() {
    let pts = vec![p(0, 0, 0), p(10, 0, 0)];
    let mut tree = Tree::new();
    tree.build(&pts);
    let e = tree.nearest(p(6, 0, 0)).unwrap();
    assert_eq!(e.index, 1);
    assert_eq!(e.distance, 16);
    assert_eq!(e.point, p(10, 0, 0));
    let empty = Tree::new();
    assert!(empty.nearest(p(0, 0, 0)).is_none());
}
