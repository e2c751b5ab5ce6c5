//! A k-d tree over integer 3-D points, using squared Euclidean distance.
//! Each node splits the remaining points along one coordinate axis; the
//! left subtree holds points at or below the node's coordinate on that
//! axis, the right subtree points at or above it.

use crate::geom::{
    axis_coord, dist2, dist2_e, in_bounds, lemma_axis_le_dist2, lemma_dist2_bound,
    lemma_plane_separates, lemma_sq_mono, lemma_sq_range, sq, Point3, D2_LIMIT, EDGE_LIMIT,
    MAX_POINTS,
};
use vstd::prelude::*;

verus! {

/// One tree node: a point, its identifier, and the splitting axis used at
/// its depth.
pub struct Node {
    pub point: Point3,
    pub id: i64,
    pub axis: usize,
    pub left: Option<Box<Node>>,
    pub right: Option<Box<Node>>,
}

/// One query result: a squared distance, the point, and its identifier.
#[derive(Clone, Copy, PartialEq, Eq, Structural, Debug)]
pub struct HeapEntry {
    pub distance: i64,
    pub point: Point3,
    pub index: i64,
}

/// A balanced spatial index over a static point set.
pub struct Tree {
    pub root: Option<Box<Node>>,
    pub size: usize,
}

/// The identifier-to-point mapping a subtree holds.
pub open spec fn tmap(t: Option<Box<Node>>) -> Map<i64, Point3>
    decreases t,
{
    match t {
        None => Map::empty(),
        Some(n) => tmap(n.left).union_prefer_right(tmap(n.right)).insert(n.id, n.point),
    }
}

/// Well-formed subtree: identifiers are unique across it, every stored
/// point is in bounds, and the splitting-plane invariant holds at each
/// node: left points lie at or below the node's coordinate along its
/// axis, right points at or above it.
pub open spec fn subtree_wf(t: Option<Box<Node>>) -> bool
    decreases t,
{
    match t {
        None => true,
        Some(n) => {
            &&& n.axis < 3
            &&& in_bounds(n.point)
            &&& subtree_wf(n.left)
            &&& subtree_wf(n.right)
            &&& !tmap(n.left).dom().contains(n.id)
            &&& !tmap(n.right).dom().contains(n.id)
            &&& tmap(n.left).dom().disjoint(tmap(n.right).dom())
            &&& forall|j: i64|
                tmap(n.left).dom().contains(j) ==> axis_coord(tmap(n.left)[j], n.axis as int)
                    <= axis_coord(n.point, n.axis as int)
            &&& forall|j: i64|
                tmap(n.right).dom().contains(j) ==> axis_coord(tmap(n.right)[j], n.axis as int)
                    >= axis_coord(n.point, n.axis as int)
        },
    }
}

/// Every point a well-formed subtree holds is in bounds.
pub proof fn lemma_wf_in_bounds(t: Option<Box<Node>>)
    requires
        subtree_wf(t),
    ensures
        forall|j: i64| #[trigger]
            tmap(t).dom().contains(j) ==> in_bounds(tmap(t)[j]),
    decreases t,
{
    match t {
        None => {},
        Some(n) => {
            lemma_wf_in_bounds(n.left);
            lemma_wf_in_bounds(n.right);
        },
    }
}

/// No two pairs carry the same identifier.
pub open spec fn distinct_ids(s: Seq<(Point3, i64)>) -> bool {
    forall|a: int, b: int| 0 <= a < b < s.len() ==> (#[trigger] s[a]).1 != (#[trigger] s[b]).1
}

pub open spec fn pair_key(x: (Point3, i64), ax: int) -> int {
    axis_coord(x.0, ax)
}

pub open spec fn sorted_by_axis(s: Seq<(Point3, i64)>, ax: int) -> bool {
    forall|i: int, j: int|
        0 <= i <= j < s.len() ==> pair_key(#[trigger] s[i], ax) <= pair_key(#[trigger] s[j], ax)
}

/// All points of the pair sequence are in bounds.
pub open spec fn pairs_in_bounds(s: Seq<(Point3, i64)>) -> bool {
    forall|k: int| 0 <= k < s.len() ==> in_bounds((#[trigger] s[k]).0)
}

/// No two entries carry the same identifier.
pub open spec fn distinct_index(s: Seq<HeapEntry>) -> bool {
    forall|a: int, b: int| 0 <= a < b < s.len() ==> (#[trigger] s[a]).index != (#[trigger] s[b]).index
}

pub open spec fn sorted_by_distance(s: Seq<HeapEntry>) -> bool {
    forall|i: int, j: int|
        0 <= i <= j < s.len() ==> (#[trigger] s[i]).distance <= (#[trigger] s[j]).distance
}

/// A sound query result entry: a real tree entry within the query bound.
pub open spec fn entry_ok(m: Map<i64, Point3>, t: Point3, r2: int, e: HeapEntry) -> bool {
    &&& m.dom().contains(e.index)
    &&& e.point == m[e.index]
    &&& e.distance as int == dist2(t, e.point)
    &&& e.distance as int <= r2
}

/// Swapping two positions keeps membership and identifier distinctness.
proof fn lemma_swap_entries(s: Seq<HeapEntry>, i: int, j: int)
    requires
        0 <= i < j < s.len(),
    ensures
        forall|x: HeapEntry| #[trigger] s.update(i, s[j]).update(j, s[i]).contains(x) <==> s.contains(x),
        distinct_index(s) ==> distinct_index(s.update(i, s[j]).update(j, s[i])),
{
    let s2 = s.update(i, s[j]).update(j, s[i]);
    assert forall|x: HeapEntry| #[trigger] s2.contains(x) implies s.contains(x) by {
        let k = choose|k: int| 0 <= k < s2.len() && s2[k] == x;
        if k == i {
            assert(s[j] == x);
        } else if k == j {
            assert(s[i] == x);
        } else {
            assert(s[k] == x);
        }
    }
    assert forall|x: HeapEntry| s.contains(x) implies #[trigger] s2.contains(x) by {
        let k = choose|k: int| 0 <= k < s.len() && s[k] == x;
        if k == i {
            assert(s2[j] == x);
        } else if k == j {
            assert(s2[i] == x);
        } else {
            assert(s2[k] == x);
        }
    }
    if distinct_index(s) {
        assert forall|a: int, b: int| 0 <= a < b < s2.len() implies (#[trigger] s2[a]).index != (
        #[trigger] s2[b]).index by {
            let a0 = if a == i {
                j
            } else if a == j {
                i
            } else {
                a
            };
            let b0 = if b == i {
                j
            } else if b == j {
                i
            } else {
                b
            };
            assert(s2[a] == s[a0] && s2[b] == s[b0] && a0 != b0);
            if a0 < b0 {
                assert(s[a0].index != s[b0].index);
            } else {
                assert(s[b0].index != s[a0].index);
            }
        }
    }
}

/// Insertion sort of query results by ascending squared distance. Keeps
/// exactly the same entries.
fn sort_entries(v: Vec<HeapEntry>) -> (r: Vec<HeapEntry>)
    requires
        distinct_index(v@),
    ensures
        r@.len() == v@.len(),
        forall|x: HeapEntry| #[trigger] r@.contains(x) <==> v@.contains(x),
        distinct_index(r@),
        sorted_by_distance(r@),
{
    let mut r = v;
    let n = r.len();
    let mut i: usize = 1;
    while i < n
        invariant
            n == r@.len(),
            1 <= i,
            n > 0 ==> i <= n,
            forall|x: HeapEntry| #[trigger] r@.contains(x) <==> v@.contains(x),
            distinct_index(r@),
            forall|a: int, b: int|
                0 <= a <= b < i && b < n ==> (#[trigger] r@[a]).distance <= (
                #[trigger] r@[b]).distance,
        decreases n - i,
    {
        let mut j: usize = i;
        while j > 0 && r[j - 1].distance > r[j].distance
            invariant
                n == r@.len(),
                0 <= j <= i < n,
                forall|x: HeapEntry| #[trigger] r@.contains(x) <==> v@.contains(x),
                distinct_index(r@),
                forall|a: int, b: int|
                    0 <= a <= b <= i as int && b != j ==> (#[trigger] r@[a]).distance <= (
                    #[trigger] r@[b]).distance,
                forall|b: int|
                    j < b <= i as int ==> r@[j as int].distance <= (#[trigger] r@[b]).distance,
            decreases j,
        {
            let ghost s_old = r@;
            let ta = r[j - 1];
            let tb = r[j];
            r.set(j - 1, tb);
            r.set(j, ta);
            proof {
                lemma_swap_entries(s_old, j - 1, j as int);
                assert(r@ =~= s_old.update(j - 1, s_old[j as int]).update(j as int, s_old[j - 1]));
            }
            j = j - 1;
        }
        proof {
            assert forall|a: int, b: int| 0 <= a <= b <= i as int implies (
            #[trigger] r@[a]).distance <= (#[trigger] r@[b]).distance by {
                if b == j as int && a < b {
                    assert(r@[j - 1].distance <= r@[j as int].distance);
                    assert(r@[a].distance <= r@[j - 1].distance);
                }
            }
        }
        i = i + 1;
    }
    r
}

/// Swapping two positions keeps membership, boundedness and identifier
/// distinctness.
proof fn lemma_swap_facts(s: Seq<(Point3, i64)>, i: int, j: int)
    requires
        0 <= i < j < s.len(),
    ensures
        forall|x: (Point3, i64)|
            #[trigger] s.update(i, s[j]).update(j, s[i]).contains(x) <==> s.contains(x),
        distinct_ids(s) ==> distinct_ids(s.update(i, s[j]).update(j, s[i])),
        pairs_in_bounds(s) ==> pairs_in_bounds(s.update(i, s[j]).update(j, s[i])),
{
    let s2 = s.update(i, s[j]).update(j, s[i]);
    assert forall|x: (Point3, i64)| #[trigger] s2.contains(x) implies s.contains(x) by {
        let k = choose|k: int| 0 <= k < s2.len() && s2[k] == x;
        if k == i {
            assert(s[j] == x);
        } else if k == j {
            assert(s[i] == x);
        } else {
            assert(s[k] == x);
        }
    }
    assert forall|x: (Point3, i64)| s.contains(x) implies #[trigger] s2.contains(x) by {
        let k = choose|k: int| 0 <= k < s.len() && s[k] == x;
        if k == i {
            assert(s2[j] == x);
        } else if k == j {
            assert(s2[i] == x);
        } else {
            assert(s2[k] == x);
        }
    }
    if distinct_ids(s) {
        assert forall|a: int, b: int| 0 <= a < b < s2.len() implies (#[trigger] s2[a]).1 != (
        #[trigger] s2[b]).1 by {
            let a0 = if a == i {
                j
            } else if a == j {
                i
            } else {
                a
            };
            let b0 = if b == i {
                j
            } else if b == j {
                i
            } else {
                b
            };
            assert(s2[a] == s[a0] && s2[b] == s[b0] && a0 != b0);
            if a0 < b0 {
                assert(s[a0].1 != s[b0].1);
            } else {
                assert(s[b0].1 != s[a0].1);
            }
        }
    }
}

/// The coordinate of `p` along axis `ax` (0 = x, 1 = y, otherwise z).
pub fn axis_val(p: &Point3, ax: usize) -> (c: i64)
    ensures
        c as int == axis_coord(*p, ax as int),
{
    if ax == 0 {
        p.x
    } else if ax == 1 {
        p.y
    } else {
        p.z
    }
}

/// Insertion sort of point/identifier pairs by their coordinate along one
/// axis. Keeps exactly the same pairs.
fn sort_pairs(v: Vec<(Point3, i64)>, ax: usize) -> (r: Vec<(Point3, i64)>)
    requires
        distinct_ids(v@),
        pairs_in_bounds(v@),
    ensures
        r@.len() == v@.len(),
        forall|x: (Point3, i64)| #[trigger] r@.contains(x) <==> v@.contains(x),
        distinct_ids(r@),
        pairs_in_bounds(r@),
        sorted_by_axis(r@, ax as int),
{
    let mut r = v;
    let n = r.len();
    let mut i: usize = 1;
    while i < n
        invariant
            n == r@.len(),
            1 <= i,
            n > 0 ==> i <= n,
            forall|x: (Point3, i64)| #[trigger] r@.contains(x) <==> v@.contains(x),
            distinct_ids(r@),
            pairs_in_bounds(r@),
            forall|a: int, b: int|
                0 <= a <= b < i && b < n ==> pair_key(#[trigger] r@[a], ax as int) <= pair_key(
                    #[trigger] r@[b],
                    ax as int,
                ),
        decreases n - i,
    {
        let mut j: usize = i;
        while j > 0 && axis_val(&r[j - 1].0, ax) > axis_val(&r[j].0, ax)
            invariant
                n == r@.len(),
                0 <= j <= i < n,
                forall|x: (Point3, i64)| #[trigger] r@.contains(x) <==> v@.contains(x),
                distinct_ids(r@),
                pairs_in_bounds(r@),
                forall|a: int, b: int|
                    0 <= a <= b <= i as int && b != j ==> pair_key(#[trigger] r@[a], ax as int)
                        <= pair_key(#[trigger] r@[b], ax as int),
                forall|b: int|
                    j < b <= i as int ==> pair_key(r@[j as int], ax as int) <= pair_key(
                        #[trigger] r@[b],
                        ax as int,
                    ),
            decreases j,
        {
            let ghost s_old = r@;
            let ta = r[j - 1];
            let tb = r[j];
            r.set(j - 1, tb);
            r.set(j, ta);
            proof {
                lemma_swap_facts(s_old, j - 1, j as int);
                assert(r@ =~= s_old.update(j - 1, s_old[j as int]).update(j as int, s_old[j - 1]));
            }
            j = j - 1;
        }
        proof {
            assert forall|a: int, b: int| 0 <= a <= b <= i as int implies pair_key(
                #[trigger] r@[a],
                ax as int,
            ) <= pair_key(#[trigger] r@[b], ax as int) by {
                if b == j as int && a < b {
                    assert(pair_key(r@[j - 1], ax as int) <= pair_key(r@[j as int], ax as int));
                    assert(pair_key(r@[a], ax as int) <= pair_key(r@[j - 1], ax as int));
                }
            }
        }
        i = i + 1;
    }
    r
}

impl Tree {
    /// The identifier-to-point mapping the whole tree holds.
    pub open spec fn entries(self) -> Map<i64, Point3> {
        tmap(self.root)
    }

    pub open spec fn wf(self) -> bool {
        subtree_wf(self.root)
    }

    pub fn new() -> (t: Self)
        ensures
            t.wf(),
            t.entries() == Map::<i64, Point3>::empty(),
            t.size == 0,
            t.root is None,
    {
        Tree { root: None, size: 0 }
    }

    /// Build a balanced tree over the whole point list; a point's
    /// identifier is its position in the list. Any prior tree is
    /// discarded. An empty input yields an empty tree.
    pub fn build(&mut self, points: &Vec<Point3>)
        requires
            points@.len() <= MAX_POINTS,
            forall|k: int| 0 <= k < points@.len() ==> in_bounds(#[trigger] points@[k]),
        ensures
            final(self).wf(),
            final(self).size == points@.len(),
            forall|k: int|
                0 <= k < points@.len() ==> final(self).entries().contains_pair(
                    k as i64,
                    #[trigger] points@[k],
                ),
            forall|j: i64|
                #[trigger] final(self).entries().dom().contains(j) ==> 0 <= j < points@.len(),
    {
        let mut pairs: Vec<(Point3, i64)> = Vec::new();
        let mut k: usize = 0;
        while k < points.len()
            invariant
                k <= points@.len(),
                points@.len() <= MAX_POINTS,
                pairs@.len() == k,
                forall|m: int| 0 <= m < k ==> #[trigger] pairs@[m] == (points@[m], m as i64),
                forall|m: int| 0 <= m < points@.len() ==> in_bounds(#[trigger] points@[m]),
            decreases points@.len() - k,
        {
            pairs.push((points[k], k as i64));
            k = k + 1;
        }
        self.root = Self::build_rec(pairs, 0);
        self.size = points.len();
        proof {
            assert forall|m: int| 0 <= m < points@.len() implies final(self).entries()
                .contains_pair(m as i64, #[trigger] points@[m]) by {
                assert(pairs@[m] == (points@[m], m as i64));
            }
            assert forall|j: i64| #[trigger]
                final(self).entries().dom().contains(j) implies 0 <= j < points@.len() by {
                let m = choose|m: int|
                    0 <= m < pairs@.len() && #[trigger] pairs@[m] == (final(self).entries()[j], j);
            }
        }
    }

    /// Recursive median split: sort the pairs along the axis for this
    /// depth, take the middle pair as the node, and build the halves with
    /// the next axis.
    fn build_rec(pairs: Vec<(Point3, i64)>, ax: usize) -> (t: Option<Box<Node>>)
        requires
            ax < 3,
            distinct_ids(pairs@),
            pairs_in_bounds(pairs@),
        ensures
            subtree_wf(t),
            forall|k: int|
                0 <= k < pairs@.len() ==> tmap(t).contains_pair(
                    (#[trigger] pairs@[k]).1,
                    pairs@[k].0,
                ),
            forall|j: i64|
                #[trigger] tmap(t).dom().contains(j) ==> exists|k: int|
                    0 <= k < pairs@.len() && #[trigger] pairs@[k] == (tmap(t)[j], j),
        decreases pairs@.len(),
    {
        if pairs.len() == 0 {
            return None;
        }
        let sorted = sort_pairs(pairs, ax);
        let ghost pv = pairs@;
        let mid = sorted.len() / 2;
        let (median_point, median_id) = sorted[mid];
        let mut left_pairs: Vec<(Point3, i64)> = Vec::new();
        let mut k: usize = 0;
        while k < mid
            invariant
                mid < sorted@.len(),
                k <= mid,
                left_pairs@ =~= sorted@.subrange(0, k as int),
            decreases mid - k,
        {
            left_pairs.push(sorted[k]);
            k = k + 1;
        }
        let mut right_pairs: Vec<(Point3, i64)> = Vec::new();
        let mut k2: usize = mid + 1;
        while k2 < sorted.len()
            invariant
                mid < sorted@.len(),
                mid + 1 <= k2 <= sorted@.len(),
                right_pairs@ =~= sorted@.subrange(mid + 1, k2 as int),
            decreases sorted@.len() - k2,
        {
            right_pairs.push(sorted[k2]);
            k2 = k2 + 1;
        }
        proof {
            assert(left_pairs@ =~= sorted@.subrange(0, mid as int));
            assert(right_pairs@ =~= sorted@.subrange(mid + 1, sorted@.len() as int));
            assert(distinct_ids(left_pairs@) && pairs_in_bounds(left_pairs@));
            assert(distinct_ids(right_pairs@) && pairs_in_bounds(right_pairs@));
        }
        let ghost lv = left_pairs@;
        let ghost rv = right_pairs@;
        let left = Self::build_rec(left_pairs, (ax + 1) % 3);
        let right = Self::build_rec(right_pairs, (ax + 1) % 3);
        let node = Node { point: median_point, id: median_id, axis: ax, left, right };
        proof {
            let sv = sorted@;
            let m = mid as int;
            assert forall|k: int| 0 <= k < m implies tmap(node.left).contains_pair(
                (#[trigger] sv[k]).1,
                sv[k].0,
            ) by {
                assert(lv[k] == sv[k]);
                assert(tmap(node.left).contains_pair(lv[k].1, lv[k].0));
            }
            assert forall|j: i64| #[trigger] tmap(node.left).dom().contains(j) implies exists|
                k: int,
            |
                0 <= k < m && #[trigger] sv[k] == (tmap(node.left)[j], j) by {
                let k = choose|k: int|
                    0 <= k < lv.len() && #[trigger] lv[k] == (tmap(node.left)[j], j);
                assert(sv[k] == lv[k]);
                assert(0 <= k < m && sv[k] == (tmap(node.left)[j], j));
            }
            assert forall|k: int| m < k < sv.len() implies tmap(node.right).contains_pair(
                (#[trigger] sv[k]).1,
                sv[k].0,
            ) by {
                assert(rv[k - m - 1] == sv[k]);
                assert(tmap(node.right).contains_pair(rv[k - m - 1].1, rv[k - m - 1].0));
            }
            assert forall|j: i64| #[trigger] tmap(node.right).dom().contains(j) implies exists|
                k: int,
            |
                m < k < sv.len() && #[trigger] sv[k] == (tmap(node.right)[j], j) by {
                let k = choose|k: int|
                    0 <= k < rv.len() && #[trigger] rv[k] == (tmap(node.right)[j], j);
                assert(sv[k + m + 1] == rv[k]);
                assert(m < k + m + 1 < sv.len() && sv[k + m + 1] == (tmap(node.right)[j], j));
            }
            Self::lemma_build_node(
                pv,
                sorted@,
                mid as int,
                tmap(node.left),
                tmap(node.right),
                ax as int,
            );
        }
        Some(Box::new(node))
    }

    /// The splitting-plane facts and the contents bookkeeping for one
    /// freshly built node.
    proof fn lemma_build_node(
        pv: Seq<(Point3, i64)>,
        sv: Seq<(Point3, i64)>,
        mid: int,
        lm: Map<i64, Point3>,
        rm: Map<i64, Point3>,
        ax: int,
    )
        requires
            0 <= mid < sv.len(),
            distinct_ids(sv),
            sorted_by_axis(sv, ax),
            forall|x: (Point3, i64)| #[trigger] sv.contains(x) <==> pv.contains(x),
            forall|k: int|
                0 <= k < mid ==> lm.contains_pair((#[trigger] sv[k]).1, sv[k].0),
            forall|j: i64|
                #[trigger] lm.dom().contains(j) ==> exists|k: int|
                    0 <= k < mid && #[trigger] sv[k] == (lm[j], j),
            forall|k: int|
                mid < k < sv.len() ==> rm.contains_pair((#[trigger] sv[k]).1, sv[k].0),
            forall|j: i64|
                #[trigger] rm.dom().contains(j) ==> exists|k: int|
                    mid < k < sv.len() && #[trigger] sv[k] == (rm[j], j),
        ensures
            !lm.dom().contains(sv[mid].1),
            !rm.dom().contains(sv[mid].1),
            lm.dom().disjoint(rm.dom()),
            forall|j: i64|
                #[trigger] lm.dom().contains(j) ==> axis_coord(lm[j], ax) <= axis_coord(
                    sv[mid].0,
                    ax,
                ),
            forall|j: i64|
                #[trigger] rm.dom().contains(j) ==> axis_coord(rm[j], ax) >= axis_coord(
                    sv[mid].0,
                    ax,
                ),
            forall|k: int|
                0 <= k < pv.len() ==> lm.union_prefer_right(rm).insert(
                    sv[mid].1,
                    sv[mid].0,
                ).contains_pair((#[trigger] pv[k]).1, pv[k].0),
            forall|j: i64|
                #[trigger] lm.union_prefer_right(rm).insert(sv[mid].1, sv[mid].0).dom().contains(
                    j,
                ) ==> exists|k: int|
                    0 <= k < pv.len() && #[trigger] pv[k] == (
                    lm.union_prefer_right(rm).insert(sv[mid].1, sv[mid].0)[j],
                    j,
                    ),
    {
        let m = lm.union_prefer_right(rm).insert(sv[mid].1, sv[mid].0);
        assert(!lm.dom().contains(sv[mid].1)) by {
            if lm.dom().contains(sv[mid].1) {
                let k = choose|k: int| 0 <= k < mid && #[trigger] sv[k] == (lm[sv[mid].1], sv[mid].1);
                assert(sv[k].1 == sv[mid].1);
            }
        }
        assert(!rm.dom().contains(sv[mid].1)) by {
            if rm.dom().contains(sv[mid].1) {
                let k = choose|k: int|
                    mid < k < sv.len() && #[trigger] sv[k] == (rm[sv[mid].1], sv[mid].1);
                assert(sv[mid].1 != sv[k].1);
            }
        }
        assert forall|j: i64| lm.dom().contains(j) implies !rm.dom().contains(j) by {
            if rm.dom().contains(j) {
                let k1 = choose|k: int| 0 <= k < mid && #[trigger] sv[k] == (lm[j], j);
                let k2 = choose|k: int| mid < k < sv.len() && #[trigger] sv[k] == (rm[j], j);
                assert(sv[k1].1 != sv[k2].1);
            }
        }
        assert(lm.dom().disjoint(rm.dom()));
        assert forall|j: i64| #[trigger] lm.dom().contains(j) implies axis_coord(lm[j], ax)
            <= axis_coord(sv[mid].0, ax) by {
            let k = choose|k: int| 0 <= k < mid && #[trigger] sv[k] == (lm[j], j);
            assert(pair_key(sv[k], ax) <= pair_key(sv[mid], ax));
        }
        assert forall|j: i64| #[trigger] rm.dom().contains(j) implies axis_coord(rm[j], ax)
            >= axis_coord(sv[mid].0, ax) by {
            let k = choose|k: int| mid < k < sv.len() && #[trigger] sv[k] == (rm[j], j);
            assert(pair_key(sv[mid], ax) <= pair_key(sv[k], ax));
        }
        assert forall|k: int| 0 <= k < pv.len() implies m.contains_pair(
            (#[trigger] pv[k]).1,
            pv[k].0,
        ) by {
            assert(pv.contains(pv[k]));
            assert(sv.contains(pv[k]));
            let k2 = choose|k2: int| 0 <= k2 < sv.len() && #[trigger] sv[k2] == pv[k];
            if k2 == mid {
                assert(m.contains_pair(pv[k].1, pv[k].0));
            } else if k2 < mid {
                assert(lm.contains_pair(sv[k2].1, sv[k2].0));
                assert(pv[k].1 != sv[mid].1);
                if rm.dom().contains(pv[k].1) {
                    let k3 = choose|k3: int|
                        mid < k3 < sv.len() && #[trigger] sv[k3] == (rm[pv[k].1], pv[k].1);
                    assert(sv[k2].1 != sv[k3].1);
                }
                assert(m.contains_pair(pv[k].1, pv[k].0));
            } else {
                assert(rm.contains_pair(sv[k2].1, sv[k2].0));
                assert(pv[k].1 != sv[mid].1);
                assert(m.contains_pair(pv[k].1, pv[k].0));
            }
        }
        assert forall|j: i64| #[trigger] m.dom().contains(j) implies exists|k: int|
            0 <= k < pv.len() && #[trigger] pv[k] == (m[j], j) by {
            if j == sv[mid].1 {
                assert(sv.contains(sv[mid]));
                assert(pv.contains(sv[mid]));
                let k = choose|k: int| 0 <= k < pv.len() && #[trigger] pv[k] == sv[mid];
                assert(pv[k] == (m[j], j));
            } else if rm.dom().contains(j) {
                let k2 = choose|k: int| mid < k < sv.len() && #[trigger] sv[k] == (rm[j], j);
                assert(sv.contains(sv[k2]));
                assert(pv.contains(sv[k2]));
                let k = choose|k: int| 0 <= k < pv.len() && #[trigger] pv[k] == sv[k2];
                assert(pv[k] == (m[j], j));
            } else {
                assert(lm.dom().contains(j));
                let k2 = choose|k: int| 0 <= k < mid && #[trigger] sv[k] == (lm[j], j);
                assert(sv.contains(sv[k2]));
                assert(pv.contains(sv[k2]));
                let k = choose|k: int| 0 <= k < pv.len() && #[trigger] pv[k] == sv[k2];
                assert(pv[k] == (m[j], j));
            }
        }
    }

    /// The closest indexed point to `target` and its squared distance, or
    /// `None` on an empty tree. Among points at equal distance, which one
    /// is returned depends on traversal order.
    pub fn nearest(&self, target: Point3) -> (r: Option<HeapEntry>)
        requires
            self.wf(),
            in_bounds(target),
        ensures
            r is None <==> self.root is None,
            r is None ==> self.entries() == Map::<i64, Point3>::empty(),
            r matches Some(e) ==> {
                &&& self.entries().dom().contains(e.index)
                &&& self.entries()[e.index] == e.point
                &&& e.distance as int == dist2(target, e.point)
                &&& forall|j: i64|
                    #[trigger] self.entries().dom().contains(j) ==> e.distance as int <= dist2(
                        target,
                        self.entries()[j],
                    )
            },
    {
        if self.root.is_none() {
            return None;
        }
        let mut best = HeapEntry {
            distance: i64::MAX,
            point: Point3 { x: 0, y: 0, z: 0 },
            index: -1,
        };
        Self::nearest_rec(&self.root, &target, &mut best);
        proof {
            let n = self.root->Some_0;
            assert(self.entries().dom().contains(n.id));
            lemma_wf_in_bounds(self.root);
            lemma_dist2_bound(target, self.entries()[n.id]);
            assert(best.distance < i64::MAX);
        }
        Some(best)
    }

    fn nearest_rec(node: &Option<Box<Node>>, target: &Point3, best: &mut HeapEntry)
        requires
            subtree_wf(*node),
            in_bounds(*target),
        ensures
            final(best).distance <= old(best).distance,
            forall|j: i64|
                #[trigger] tmap(*node).dom().contains(j) ==> final(best).distance as int <= dist2(
                    *target,
                    tmap(*node)[j],
                ),
            final(best).distance < old(best).distance ==> tmap(*node).dom().contains(
                final(best).index,
            ) && tmap(*node)[final(best).index] == final(best).point && final(best).distance as int
                == dist2(*target, final(best).point),
            final(best).distance == old(best).distance ==> *final(best) == *old(best),
        decreases *node,
    {
        let n = match node {
            None => {
                return ;
            },
            Some(n) => n,
        };
        let d2 = dist2_e(target, &n.point);
        if d2 < best.distance {
            best.distance = d2;
            best.point = n.point;
            best.index = n.id;
        }
        let ghost b1 = *best;
        let delta = axis_val(target, n.axis) - axis_val(&n.point, n.axis);
        let (near, far) = if delta < 0 {
            (&n.left, &n.right)
        } else {
            (&n.right, &n.left)
        };
        Self::nearest_rec(near, target, best);
        let ghost b2 = *best;
        proof {
            lemma_sq_range(delta as int, 2_000_000);
            assert(sq(2_000_000) == 4_000_000_000_000int) by (nonlinear_arith);
        }
        if delta * delta < best.distance {
            Self::nearest_rec(far, target, best);
        } else {
            proof {
                assert forall|j: i64| #[trigger] tmap(*far).dom().contains(j) implies (*best).distance as int <= dist2(*target, tmap(*far)[j]) by {
                    let ax = n.axis as int;
                    let p = tmap(*far)[j];
                    lemma_plane_separates(
                        axis_coord(*target, ax),
                        axis_coord(n.point, ax),
                        axis_coord(p, ax),
                    );
                    lemma_axis_le_dist2(*target, p, ax);
                }
            }
        }
        proof {
            assert forall|j: i64| #[trigger] tmap(*node).dom().contains(j) implies (*best).distance as int <= dist2(*target, tmap(*node)[j]) by {
                if j == n.id && !tmap(n.left).dom().contains(j) && !tmap(n.right).dom().contains(
                    j,
                ) {
                    assert(tmap(*node)[j] == n.point);
                    assert(b1.distance <= d2);
                } else if tmap(*far).dom().contains(j) {
                    assert(tmap(*node)[j] == tmap(*far)[j]);
                } else {
                    assert(tmap(*near).dom().contains(j));
                    assert(tmap(*node)[j] == tmap(*near)[j]);
                    assert(b2.distance as int <= dist2(*target, tmap(*near)[j]));
                }
            }
            if (*best).distance < old(best).distance {
                if (*best).distance < b2.distance {
                    assert(tmap(*node).dom().contains((*best).index));
                    assert(tmap(*node)[(*best).index] == (*best).point);
                } else if b2.distance < b1.distance {
                    assert(tmap(*node).dom().contains((*best).index));
                    assert(tmap(*node)[(*best).index] == (*best).point);
                } else {
                    assert(b1.index == n.id && b1.point == n.point);
                    assert(tmap(*node).dom().contains((*best).index));
                    assert(tmap(*node)[(*best).index] == (*best).point);
                }
            }
        }
    }

    /// All indexed points within Euclidean distance `r` of `target`
    /// (inclusive), as identifiers ordered by ascending distance. A
    /// negative radius or an empty tree yields an empty result.
    pub fn radius_search(&self, target: Point3, r: i64) -> (res: Vec<i64>)
        requires
            self.wf(),
            in_bounds(target),
        ensures
            r < 0 ==> res@.len() == 0,
            r >= 0 ==> forall|j: i64|
                #[trigger] res@.contains(j) <==> self.entries().dom().contains(j) && dist2(
                    target,
                    self.entries()[j],
                ) <= sq(r as int),
            forall|k: int|
                0 <= k < res@.len() ==> self.entries().dom().contains(#[trigger] res@[k]),
            forall|a: int, b: int|
                0 <= a <= b < res@.len() ==> dist2(target, self.entries()[res@[a]]) <= dist2(
                    target,
                    self.entries()[res@[b]],
                ),
            forall|a: int, b: int| 0 <= a < b < res@.len() ==> res@[a] != res@[b],
    {
        if r < 0 {
            return Vec::new();
        }
        let r2: i64 = if r >= EDGE_LIMIT {
            D2_LIMIT
        } else {
            proof {
                lemma_sq_range(r as int, EDGE_LIMIT as int);
                assert(sq(EDGE_LIMIT as int) <= 13_000_000_000_000int) by (nonlinear_arith);
            }
            r * r
        };
        proof {
            lemma_wf_in_bounds(self.root);
            assert forall|j: i64| #[trigger] self.entries().dom().contains(j) implies (dist2(
                target,
                self.entries()[j],
            ) <= r2 as int <==> dist2(target, self.entries()[j]) <= sq(r as int)) by {
                lemma_dist2_bound(target, self.entries()[j]);
                if r >= EDGE_LIMIT {
                    lemma_sq_mono(EDGE_LIMIT as int, r as int);
                    assert(sq(EDGE_LIMIT as int) > D2_LIMIT as int) by (nonlinear_arith);
                }
            }
        }
        let mut out: Vec<HeapEntry> = Vec::new();
        Self::radius_search_rec(&self.root, &target, r2, &mut out);
        proof {
            assert forall|k1: int, k2: int| 0 <= k1 < k2 < out@.len() implies (
            #[trigger] out@[k1]).index != (#[trigger] out@[k2]).index by {}
        }
        let sorted = sort_entries(out);
        let ghost ov = out@;
        let mut res: Vec<i64> = Vec::new();
        let mut k: usize = 0;
        while k < sorted.len()
            invariant
                k <= sorted@.len(),
                res@.len() == k,
                forall|m: int| 0 <= m < k ==> #[trigger] res@[m] == sorted@[m].index,
            decreases sorted@.len() - k,
        {
            res.push(sorted[k].index);
            k = k + 1;
        }
        proof {
            let ent = self.entries();
            assert forall|m: int| 0 <= m < sorted@.len() implies entry_ok(
                ent,
                target,
                r2 as int,
                #[trigger] sorted@[m],
            ) by {
                assert(sorted@.contains(sorted@[m]));
                assert(ov.contains(sorted@[m]));
                let k0 = choose|k0: int| 0 <= k0 < ov.len() && ov[k0] == sorted@[m];
            }
            assert forall|j: i64| #[trigger] res@.contains(j) implies ent.dom().contains(j)
                && dist2(target, ent[j]) <= sq(r as int) by {
                let m = choose|m: int| 0 <= m < res@.len() && res@[m] == j;
                assert(entry_ok(ent, target, r2 as int, sorted@[m]));
            }
            assert forall|j: i64|
                ent.dom().contains(j) && dist2(target, ent[j]) <= sq(
                    r as int,
                ) implies #[trigger] res@.contains(j) by {
                let k0 = choose|k0: int| 0 <= k0 < ov.len() && (#[trigger] ov[k0]).index == j;
                assert(ov.contains(ov[k0]));
                assert(sorted@.contains(ov[k0]));
                let m = choose|m: int| 0 <= m < sorted@.len() && sorted@[m] == ov[k0];
                assert(res@[m] == j);
            }
            assert forall|a: int, b: int| 0 <= a <= b < res@.len() implies dist2(
                target,
                ent[res@[a]],
            ) <= dist2(target, ent[res@[b]]) by {
                assert(entry_ok(ent, target, r2 as int, sorted@[a]));
                assert(entry_ok(ent, target, r2 as int, sorted@[b]));
                assert(sorted@[a].distance <= sorted@[b].distance);
            }
        }
        res
    }

    fn radius_search_rec(node: &Option<Box<Node>>, target: &Point3, r2: i64, out: &mut Vec<
        HeapEntry,
    >)
        requires
            subtree_wf(*node),
            in_bounds(*target),
            r2 >= 0,
        ensures
            final(out)@.len() >= old(out)@.len(),
            forall|k: int| 0 <= k < old(out)@.len() ==> #[trigger] final(out)@[k] == old(out)@[k],
            forall|k: int|
                old(out)@.len() <= k < final(out)@.len() ==> entry_ok(
                    tmap(*node),
                    *target,
                    r2 as int,
                    #[trigger] final(out)@[k],
                ),
            forall|j: i64|
                #[trigger] tmap(*node).dom().contains(j) && dist2(*target, tmap(*node)[j])
                    <= r2 as int ==> exists|k: int|
                    old(out)@.len() <= k < final(out)@.len() && (#[trigger] final(out)@[k]).index
                        == j,
            forall|k1: int, k2: int|
                old(out)@.len() <= k1 < k2 < final(out)@.len() ==> (
                #[trigger] final(out)@[k1]).index != (#[trigger] final(out)@[k2]).index,
        decreases *node,
    {
        let n = match node {
            None => {
                return ;
            },
            Some(n) => n,
        };
        let ghost v0 = out@;
        let d2 = dist2_e(target, &n.point);
        if d2 <= r2 {
            let e = HeapEntry { distance: d2, point: n.point, index: n.id };
            out.push(e);
        }
        let ghost v1 = out@;
        let delta = axis_val(target, n.axis) - axis_val(&n.point, n.axis);
        let (near, far) = if delta < 0 {
            (&n.left, &n.right)
        } else {
            (&n.right, &n.left)
        };
        Self::radius_search_rec(near, target, r2, out);
        let ghost v2 = out@;
        proof {
            lemma_sq_range(delta as int, 2_000_000);
            assert(sq(2_000_000) == 4_000_000_000_000int) by (nonlinear_arith);
        }
        if delta * delta <= r2 {
            Self::radius_search_rec(far, target, r2, out);
        } else {
            proof {
                assert forall|j: i64| #[trigger] tmap(*far).dom().contains(j) implies dist2(
                    *target,
                    tmap(*far)[j],
                ) > r2 as int by {
                    let ax = n.axis as int;
                    let p = tmap(*far)[j];
                    lemma_plane_separates(
                        axis_coord(*target, ax),
                        axis_coord(n.point, ax),
                        axis_coord(p, ax),
                    );
                    lemma_axis_le_dist2(*target, p, ax);
                }
            }
        }
        proof {
            let nm = tmap(*node);
            let fm = tmap(*far);
            let rm = tmap(*near);
            assert forall|k: int| v0.len() <= k < out@.len() implies entry_ok(
                nm,
                *target,
                r2 as int,
                #[trigger] out@[k],
            ) by {
                if k < v1.len() {
                    assert(out@[k] == v1[k]);
                    assert(nm[n.id] == n.point);
                } else if k < v2.len() {
                    assert(out@[k] == v2[k]);
                    assert(entry_ok(rm, *target, r2 as int, v2[k]));
                    assert(!rm.dom().contains(n.id));
                    assert(nm.dom().contains(v2[k].index) && nm[v2[k].index] == rm[v2[k].index]);
                } else {
                    assert(entry_ok(fm, *target, r2 as int, out@[k]));
                    assert(!fm.dom().contains(n.id));
                    assert(nm.dom().contains(out@[k].index) && nm[out@[k].index]
                        == fm[out@[k].index]);
                }
            }
            assert forall|j: i64|
                #[trigger] nm.dom().contains(j) && dist2(*target, nm[j])
                    <= r2 as int implies exists|k: int|
                v0.len() <= k < out@.len() && (#[trigger] out@[k]).index == j by {
                if j == n.id && !tmap(n.left).dom().contains(j) && !tmap(n.right).dom().contains(
                    j,
                ) {
                    assert(nm[j] == n.point);
                    assert(v1[v0.len() as int].index == j);
                    assert(out@[v0.len() as int].index == j);
                } else if fm.dom().contains(j) {
                    assert(nm[j] == fm[j]);
                    let k = choose|k: int|
                        v2.len() <= k < out@.len() && (#[trigger] out@[k]).index
                            == j;
                    assert(v0.len() <= k < out@.len());
                } else {
                    assert(rm.dom().contains(j));
                    assert(nm[j] == rm[j]);
                    let k = choose|k: int|
                        v1.len() <= k < v2.len() && (#[trigger] v2[k]).index == j;
                    assert(out@[k] == v2[k]);
                    assert(v0.len() <= k < out@.len());
                }
            }
            assert forall|k1: int, k2: int|
                v0.len() <= k1 < k2 < out@.len() implies (#[trigger] out@[k1]).index != (#[trigger] out@[k2]).index by {
                if k1 < v1.len() {
                    assert(out@[k1].index == n.id);
                    if k2 < v2.len() {
                        assert(entry_ok(rm, *target, r2 as int, out@[k2]));
                    } else {
                        assert(entry_ok(fm, *target, r2 as int, out@[k2]));
                    }
                } else if k1 < v2.len() {
                    assert(entry_ok(rm, *target, r2 as int, out@[k1]));
                    if k2 < v2.len() {
                    } else {
                        assert(entry_ok(fm, *target, r2 as int, out@[k2]));
                        assert(rm.dom().disjoint(fm.dom()));
                    }
                }
            }
        }
    }
}

} // verus!
