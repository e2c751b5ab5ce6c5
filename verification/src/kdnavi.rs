//! The navigation graph engine: owns the point set, the spatial index and
//! the adjacency cache; answers nearest-point, radius and shortest-path
//! queries over the implicit proximity graph whose edges join points
//! within a caller-given radius of one another.

use crate::geom::{
    dist2, dist2_e, in_bounds, isqrt, lemma_dist2_zero, lemma_mul_le, sq, Point3, EDGE_LIMIT,
    MAX_POINTS,
};
use crate::kdtree::Tree;
use crate::node::Node;
use crate::pq::{pq_contents, pq_is_empty, pq_new, pq_pop, pq_push};
use vstd::prelude::*;

verus! {

/// Why a query was rejected.
#[derive(Clone, Copy, PartialEq, Eq, Structural, Debug)]
pub enum NavError {
    /// A point identifier lies outside the current point set.
    InvalidId,
}

/// The engine: point set, spatial index, and the adjacency cache. The
/// cache is keyed by identifier only, not by radius: a `neighbors` call
/// for an identifier that was already queried returns the list computed
/// for the first radius asked.
pub struct KDNavI {
    pub points: Vec<Point3>,
    pub tree: Tree,
    pub neighbor_cache: Vec<Option<Vec<i64>>>,
}

/// The chain of identifiers a best-known path node stands for.
pub open spec fn chain_of(o: Option<Node>) -> Seq<i64> {
    match o {
        Some(nd) => nd.ids(),
        None => Seq::empty(),
    }
}

/// The accumulated cost a best-known path node records.
pub open spec fn cost_of(o: Option<Node>) -> int {
    match o {
        Some(nd) => nd.cost() as int,
        None => 0,
    }
}

/// How many entries of a flag sequence are set.
pub open spec fn count_true(s: Seq<bool>) -> int
    decreases s.len(),
{
    if s.len() == 0 {
        0
    } else {
        count_true(s.drop_last()) + if s.last() {
            1int
        } else {
            0int
        }
    }
}

proof fn lemma_count_true_le(s: Seq<bool>)
    ensures
        0 <= count_true(s) <= s.len(),
    decreases s.len(),
{
    if s.len() > 0 {
        lemma_count_true_le(s.drop_last());
    }
}

proof fn lemma_count_true_update(s: Seq<bool>, i: int)
    requires
        0 <= i < s.len(),
        !s[i],
    ensures
        count_true(s.update(i, true)) == count_true(s) + 1,
    decreases s.len(),
{
    if i == s.len() - 1 {
        assert(s.update(i, true).drop_last() =~= s.drop_last());
    } else {
        assert(s.update(i, true).drop_last() =~= s.drop_last().update(i, true));
        lemma_count_true_update(s.drop_last(), i);
    }
}

proof fn lemma_count_true_lt(s: Seq<bool>, i: int)
    requires
        0 <= i < s.len(),
        !s[i],
    ensures
        count_true(s) < s.len(),
    decreases s.len(),
{
    if i == s.len() - 1 {
        lemma_count_true_le(s.drop_last());
    } else {
        lemma_count_true_lt(s.drop_last(), i);
    }
}

/// An edge of the implicit proximity graph, as the engine in state `s`
/// answers it: where a neighbor list is cached for `a` the edge relation
/// follows the cached list, otherwise the points' true distance within
/// `md` decides.
pub open spec fn edge_ok(s: KDNavI, md: i64, a: i64, b: i64) -> bool {
    &&& 0 <= a < s.points@.len()
    &&& 0 <= b < s.points@.len()
    &&& match s.cache_at(a as int) {
        Some(c) => c.contains(b),
        None => md >= 0 && dist2(s.points@[a as int], s.points@[b as int]) <= sq(md as int),
    }
}

/// A walk from `start` to `end` along edges of the proximity graph.
pub open spec fn path_ok(s: KDNavI, md: i64, p: Seq<i64>, start: i64, end: i64) -> bool {
    &&& p.len() >= 1
    &&& p[0] == start
    &&& p[p.len() - 1] == end
    &&& forall|i: int| 0 <= i < p.len() ==> 0 <= #[trigger] p[i] < s.points@.len()
    &&& forall|i: int| 0 <= i < p.len() - 1 ==> edge_ok(s, md, #[trigger] p[i], p[i + 1])
}

pub open spec fn has_path(s: KDNavI, md: i64, start: i64, end: i64) -> bool {
    exists|p: Seq<i64>| path_ok(s, md, p, start, end)
}

/// A neighbor list that holds exactly the endpoints of edges out of `a`.
pub open spec fn adj_list_ok(s: KDNavI, md: i64, a: i64, c: Seq<i64>) -> bool {
    forall|b: i64| #[trigger] c.contains(b) <==> edge_ok(s, md, a, b)
}

/// A set of identifiers closed under outgoing edges and holding `start`
/// swallows every walk that leaves `start`: its last step is closed too.
proof fn lemma_closed_no_path(
    s: KDNavI,
    md: i64,
    closedv: Seq<bool>,
    p: Seq<i64>,
    start: i64,
    end: i64,
)
    requires
        closedv.len() == s.points@.len(),
        path_ok(s, md, p, start, end),
        closedv[start as int],
        forall|a: i64, b: i64|
            0 <= a < s.points@.len() && closedv[a as int] && #[trigger] edge_ok(s, md, a, b)
                ==> closedv[b as int],
    ensures
        closedv[end as int],
    decreases p.len(),
{
    if p.len() == 1 {
        assert(start == end);
    } else {
        assert(edge_ok(s, md, p[0], p[1]));
        assert(closedv[p[1] as int]);
        let p2 = p.subrange(1, p.len() as int);
        assert(path_ok(s, md, p2, p[1], end)) by {
            assert(p2[p2.len() - 1] == p[p.len() - 1]);
            assert forall|i: int| 0 <= i < p2.len() - 1 implies edge_ok(
                s,
                md,
                #[trigger] p2[i],
                p2[i + 1],
            ) by {
                assert(p2[i] == p[i + 1] && p2[i + 1] == p[i + 2]);
                assert(edge_ok(s, md, p[i + 1], p[i + 2]));
            }
        }
        lemma_closed_no_path(s, md, closedv, p2, p[1], end);
    }
}

/// Everything the search keeps true from one frontier step to the next:
/// the engine only gains cache entries consistent with the starting
/// state's edges; queued identifiers are open and carry a best-known
/// chain from `start`; closed identifiers have every outgoing edge led
/// back into the closed set or the frontier; `end` is never closed
/// inside the loop; costs stay bounded, one edge bound per closed step.
pub open spec fn search_inv(
    s0: KDNavI,
    s: KDNavI,
    md: i64,
    start: i64,
    end: i64,
    qm: Map<i64, i64>,
    bestv: Seq<Option<Node>>,
    closedv: Seq<bool>,
    cc: int,
) -> bool {
    let n = s0.points@.len() as int;
    &&& s.wf()
    &&& s.points@ == s0.points@
    &&& s.tree == s0.tree
    &&& bestv.len() == n
    &&& closedv.len() == n
    &&& cc == count_true(closedv)
    &&& 0 <= cc <= n
    &&& 0 <= start < n
    &&& 0 <= end < n
    &&& forall|a: int|
        0 <= a < n && (#[trigger] s0.cache_at(a)) is Some ==> s.cache_at(a) == s0.cache_at(a)
    &&& forall|a: int|
        0 <= a < n && s0.cache_at(a) is None && (#[trigger] s.cache_at(a)) is Some
            ==> adj_list_ok(s0, md, a as i64, s.cache_at(a)->Some_0)
    &&& forall|b: i64|
        #[trigger] qm.dom().contains(b) ==> 0 <= b < n && !closedv[b as int] && bestv[b as int]
            is Some
    &&& forall|b: i64|
        0 <= b < n && (#[trigger] bestv[b as int]) is Some && !closedv[b as int]
            ==> qm.dom().contains(b)
    &&& forall|b: i64|
        0 <= b < n && (#[trigger] bestv[b as int]) is Some ==> path_ok(
            s0,
            md,
            chain_of(bestv[b as int]),
            start,
            b,
        )
    &&& forall|b: i64|
        #[trigger] qm.dom().contains(b) ==> 0 <= cost_of(bestv[b as int]) <= cc * (
        EDGE_LIMIT as int)
    &&& !closedv[end as int]
    &&& closedv[start as int] || qm.dom().contains(start)
    &&& (cc == 0 ==> (forall|b: i64| #[trigger] qm.dom().contains(b) ==> b == start) && chain_of(
        bestv[start as int],
    ) == seq![start])
    &&& (cc > 0 ==> closedv[start as int])
}

/// Every edge out of a closed identifier leads back into the closed set
/// or onto the frontier.
pub open spec fn closure_ok(s0: KDNavI, md: i64, qm: Map<i64, i64>, closedv: Seq<bool>) -> bool {
    forall|a: i64, b: i64|
        0 <= a < closedv.len() && closedv[a as int] && #[trigger] edge_ok(s0, md, a, b)
            ==> closedv[b as int] || qm.dom().contains(b)
}

/// As `closure_ok`, except for the one identifier whose neighbors are
/// being expanded right now.
pub open spec fn closure_ok_except(
    s0: KDNavI,
    md: i64,
    qm: Map<i64, i64>,
    closedv: Seq<bool>,
    ex: i64,
) -> bool {
    forall|a: i64, b: i64|
        0 <= a < closedv.len() && closedv[a as int] && a != ex && #[trigger] edge_ok(s0, md, a, b)
            ==> closedv[b as int] || qm.dom().contains(b)
}

impl KDNavI {
    /// The cached neighbor list for an identifier, if one is stored.
    pub open spec fn cache_at(self, a: int) -> Option<Seq<i64>> {
        match self.neighbor_cache@[a] {
            Some(v) => Some(v@),
            None => None,
        }
    }

    pub open spec fn n(self) -> int {
        self.points@.len() as int
    }

    /// Internal consistency: the index mirrors the point list exactly, and
    /// every cached list names valid identifiers.
    pub open spec fn wf(self) -> bool {
        &&& self.points@.len() <= MAX_POINTS
        &&& forall|k: int| 0 <= k < self.points@.len() ==> in_bounds(#[trigger] self.points@[k])
        &&& self.tree.wf()
        &&& self.tree.size == self.points@.len()
        &&& forall|k: int|
            0 <= k < self.points@.len() ==> self.tree.entries().contains_pair(
                k as i64,
                #[trigger] self.points@[k],
            )
        &&& forall|j: i64|
            #[trigger] self.tree.entries().dom().contains(j) ==> 0 <= j < self.points@.len()
        &&& self.neighbor_cache@.len() == self.points@.len()
        &&& forall|a: int, k: int|
            0 <= a < self.neighbor_cache@.len() && (#[trigger] self.cache_at(a)) is Some && 0 <= k
                < self.cache_at(a)->Some_0.len() ==> 0 <= #[trigger] self.cache_at(a)->Some_0[k]
                < self.points@.len()
    }

    /// Nothing built: no points, no cache entries, an empty index.
    pub open spec fn is_fresh(self) -> bool {
        &&& self.points@.len() == 0
        &&& self.neighbor_cache@.len() == 0
        &&& self.tree.root is None
        &&& self.tree.size == 0
    }

    pub fn new() -> (s: Self)
        ensures
            s.wf(),
            s.is_fresh(),
    {
        KDNavI { points: Vec::new(), tree: Tree::new(), neighbor_cache: Vec::new() }
    }

    /// Empty everything: afterwards the engine is indistinguishable from a
    /// freshly constructed one.
    pub fn clear(&mut self)
        ensures
            final(self).wf(),
            final(self).is_fresh(),
    {
        self.points = Vec::new();
        self.tree = Tree::new();
        self.neighbor_cache = Vec::new();
    }

    /// Replace the point set, rebuild the index, and drop every cache
    /// entry: identifiers of an earlier build do not survive.
    pub fn build(&mut self, points: Vec<Point3>)
        requires
            points@.len() <= MAX_POINTS,
            forall|k: int| 0 <= k < points@.len() ==> in_bounds(#[trigger] points@[k]),
        ensures
            final(self).wf(),
            final(self).points@ == points@,
            forall|a: int| 0 <= a < points@.len() ==> final(self).cache_at(a) is None,
    {
        self.points = points;
        self.tree.build(&self.points);
        let mut cache: Vec<Option<Vec<i64>>> = Vec::new();
        let mut k: usize = 0;
        while k < self.points.len()
            invariant
                k <= self.points@.len(),
                cache@.len() == k,
                forall|a: int| 0 <= a < k ==> #[trigger] cache@[a] is None,
            decreases self.points@.len() - k,
        {
            cache.push(None);
            k = k + 1;
        }
        self.neighbor_cache = cache;
    }

    /// The identifier of the closest indexed point, or `-1` on an empty
    /// engine (a documented sentinel, not an error). Among points at equal
    /// distance, which identifier comes back depends on traversal order.
    pub fn nearest(&self, v: Point3) -> (r: i64)
        requires
            self.wf(),
            in_bounds(v),
        ensures
            r == -1 <==> self.points@.len() == 0,
            r != -1 ==> 0 <= r < self.points@.len() && forall|k: int|
                0 <= k < self.points@.len() ==> dist2(v, self.points@[r as int]) <= dist2(
                    v,
                    #[trigger] self.points@[k],
                ),
    {
        match self.tree.nearest(v) {
            Some(e) => {
                proof {
                    assert(self.tree.entries().dom().contains(e.index));
                    assert(self.tree.entries().contains_pair(
                        e.index,
                        self.points@[e.index as int],
                    ));
                    assert forall|k: int| 0 <= k < self.points@.len() implies dist2(
                        v,
                        self.points@[e.index as int],
                    ) <= dist2(v, #[trigger] self.points@[k]) by {
                        assert(self.tree.entries().contains_pair(k as i64, self.points@[k]));
                        assert(self.tree.entries().dom().contains(k as i64));
                    }
                }
                e.index
            },
            None => {
                proof {
                    if self.points@.len() > 0 {
                        assert(self.tree.entries().contains_pair(0, self.points@[0]));
                        assert(self.tree.entries().dom().contains(0));
                    }
                }
                -1
            },
        }
    }

    /// The neighbor list of `id` within `maxdist`, from the cache when one
    /// is stored for `id` (whatever radius it was computed for), otherwise
    /// computed by a radius query and stored. The fresh list holds exactly
    /// the identifiers within `maxdist` of the point, nearest first.
    pub fn neighbors(&mut self, id: i64, maxdist: i64) -> (r: Result<Vec<i64>, NavError>)
        requires
            old(self).wf(),
        ensures
            final(self).wf(),
            final(self).points@ == old(self).points@,
            final(self).tree == old(self).tree,
            r is Ok <==> 0 <= id < old(self).points@.len(),
            r is Err ==> *final(self) == *old(self),
            r matches Ok(v) ==> match old(self).cache_at(id as int) {
                Some(c) => v@ == c && *final(self) == *old(self),
                None => {
                    &&& forall|b: i64|
                        #[trigger] v@.contains(b) <==> 0 <= b < old(self).points@.len() && maxdist
                            >= 0 && dist2(
                            old(self).points@[id as int],
                            old(self).points@[b as int],
                        ) <= sq(maxdist as int)
                    &&& forall|a: int, b: int|
                        0 <= a <= b < v@.len() ==> dist2(
                            old(self).points@[id as int],
                            old(self).points@[v@[a] as int],
                        ) <= dist2(old(self).points@[id as int], old(self).points@[v@[b] as int])
                    &&& forall|a: int, b: int| 0 <= a < b < v@.len() ==> v@[a] != v@[b]
                    &&& final(self).cache_at(id as int) == Some(v@)
                    &&& forall|a: int|
                        0 <= a < old(self).neighbor_cache@.len() && a != id
                            ==> final(self).cache_at(a) == old(self).cache_at(a)
                },
            },
    {
        if id < 0 || id >= self.points.len() as i64 {
            return Err(NavError::InvalidId);
        }
        let idx = id as usize;
        let cached = self.neighbor_cache[idx].is_some();
        if cached {
            let c = match &self.neighbor_cache[idx] {
                Some(c) => c.clone(),
                None => Vec::new(),
            };
            return Ok(c);
        }
        let point = self.points[idx];
        let results = self.tree.radius_search(point, maxdist);
        proof {
            assert forall|b: i64| #[trigger] results@.contains(b) implies 0 <= b
                < self.points@.len() by {
                if maxdist >= 0 {
                } else {
                    assert(results@.len() == 0);
                }
            }
            assert forall|b: i64|
                #[trigger] results@.contains(b) <==> (0 <= b < self.points@.len() && maxdist >= 0
                    && dist2(self.points@[id as int], self.points@[b as int]) <= sq(
                    maxdist as int,
                )) by {
                if maxdist >= 0 {
                    if results@.contains(b) {
                        assert(self.tree.entries().dom().contains(b));
                        assert(self.tree.entries().contains_pair(b, self.points@[b as int]));
                    }
                    if 0 <= b < self.points@.len() && dist2(
                        self.points@[id as int],
                        self.points@[b as int],
                    ) <= sq(maxdist as int) {
                        assert(self.tree.entries().contains_pair(b, self.points@[b as int]));
                        assert(self.tree.entries().dom().contains(b));
                    }
                } else {
                    assert(results@.len() == 0);
                    if results@.contains(b) {
                        let m = choose|m: int| 0 <= m < results@.len() && results@[m] == b;
                    }
                }
            }
            assert forall|a: int, b: int| 0 <= a <= b < results@.len() implies dist2(
                self.points@[id as int],
                self.points@[results@[a] as int],
            ) <= dist2(self.points@[id as int], self.points@[results@[b] as int]) by {
                assert(self.tree.entries().dom().contains(results@[a]));
                assert(self.tree.entries().dom().contains(results@[b]));
                assert(self.tree.entries().contains_pair(
                    results@[a],
                    self.points@[results@[a] as int],
                ));
                assert(self.tree.entries().contains_pair(
                    results@[b],
                    self.points@[results@[b] as int],
                ));
            }
        }
        let out = results.clone();
        self.neighbor_cache.set(idx, Some(results));
        proof {
            assert(out@ == results@);
            assert(self.cache_at(id as int) == Some(out@));
            assert forall|a: int, k: int|
                0 <= a < self.neighbor_cache@.len() && (#[trigger] self.cache_at(a)) is Some && 0
                    <= k < self.cache_at(a)->Some_0.len() implies 0 <= #[trigger] self.cache_at(
                a,
            )->Some_0[k] < self.points@.len() by {
                if a == id as int {
                    assert(self.cache_at(a)->Some_0 == out@);
                    assert(out@.contains(out@[k]));
                } else {
                    assert(self.cache_at(a) == old(self).cache_at(a));
                }
            }
        }
        Ok(out)
    }

    /// Lowest-cost route from `start` to `end` over the proximity graph
    /// whose edges join points within `maxdist` (costs are rounded-down
    /// Euclidean distances), found by a best-first search with the
    /// straight-line distance to `end` as its guide. A non-empty result
    /// walks edge by edge from `start` to `end`; an empty result means no
    /// walk exists at all. Asking for a route from a point to itself
    /// yields that single point.
    #[verifier::rlimit(100)]
    pub fn path(&mut self, start: i64, end: i64, maxdist: i64) -> (r: Result<Vec<i64>, NavError>)
        requires
            old(self).wf(),
        ensures
            final(self).wf(),
            final(self).points@ == old(self).points@,
            r is Ok <==> (0 <= start < old(self).points@.len() && 0 <= end < old(
                self,
            ).points@.len()),
            r is Err ==> *final(self) == *old(self),
            forall|a: int|
                0 <= a < old(self).points@.len() && (#[trigger] old(self).cache_at(a)) is Some
                    ==> final(self).cache_at(a) == old(self).cache_at(a),
            r matches Ok(p) ==> {
                &&& p@.len() > 0 ==> path_ok(*old(self), maxdist, p@, start, end)
                &&& p@.len() == 0 ==> !has_path(*old(self), maxdist, start, end)
                &&& start == end ==> p@ == seq![start]
            },
    {
        let n = self.points.len();
        if start < 0 || start >= n as i64 || end < 0 || end >= n as i64 {
            return Err(NavError::InvalidId);
        }
        let sidx = start as usize;
        let mut open = pq_new();
        let mut best: Vec<Option<Node>> = Vec::new();
        let mut closed: Vec<bool> = Vec::new();
        let mut k: usize = 0;
        while k < n
            invariant
                k <= n,
                best@.len() == k,
                closed@.len() == k,
                forall|a: int| 0 <= a < k ==> (#[trigger] best@[a]) is None,
                forall|a: int| 0 <= a < k ==> !(#[trigger] closed@[a]),
            decreases n - k,
        {
            best.push(None);
            closed.push(false);
            k = k + 1;
        }
        let mut closed_count: usize = 0;
        proof {
            lemma_count_all_false(closed@);
        }
        let snode = Node::new(start, 0, None);
        best.set(sidx, Some(snode));
        let hd = dist2_e(&self.points[sidx], &self.points[end as usize]);
        let h0 = isqrt(hd);
        pq_push(&mut open, start, 0 - h0);
        proof {
            assert(chain_of(best@[start as int]) == seq![start]);
            assert(path_ok(*old(self), maxdist, seq![start], start, start));
            assert(search_inv(
                *old(self),
                *self,
                maxdist,
                start,
                end,
                pq_contents(open),
                best@,
                closed@,
                closed_count as int,
            ));
            assert(closure_ok(*old(self), maxdist, pq_contents(open), closed@));
        }
        while !pq_is_empty(&open)
            invariant
                old(self).wf(),
                n == old(self).points@.len(),
                search_inv(
                    *old(self),
                    *self,
                    maxdist,
                    start,
                    end,
                    pq_contents(open),
                    best@,
                    closed@,
                    closed_count as int,
                ),
                closure_ok(*old(self), maxdist, pq_contents(open), closed@),
            decreases n - closed_count,
        {
            let ghost qm0 = pq_contents(open);
            let popped = pq_pop(&mut open);
            let (cur_id, _pri) = match popped {
                Some(pair) => pair,
                None => {
                    proof {
                        assert(false);
                    }
                    (0i64, 0i64)
                },
            };
            proof {
                assert(qm0.dom().contains(cur_id));
            }
            let cidx = cur_id as usize;
            let cur = match &best[cidx] {
                Some(nd) => nd.clone(),
                None => {
                    proof {
                        assert(false);
                    }
                    Node::id(0)
                },
            };
            let ghost closed_before = closed@;
            closed.set(cidx, true);
            proof {
                lemma_count_true_lt(closed_before, cidx as int);
                lemma_count_true_update(closed_before, cidx as int);
            }
            closed_count = closed_count + 1;
            proof {
                assert(path_ok(*old(self), maxdist, cur.ids(), start, cur_id));
                if count_true(closed_before) == 0 {
                    assert(cur_id == start);
                }
                assert(closed@[start as int]);
                assert forall|a: i64, b: i64|
                    0 <= a < closed@.len() && closed@[a as int] && a != cur_id
                        && #[trigger] edge_ok(*old(self), maxdist, a, b) implies closed@[b as int]
                    || pq_contents(open).dom().contains(b) by {
                    assert(closed_before[a as int]);
                    assert(closed_before[b as int] || qm0.dom().contains(b));
                }
                assert(closure_ok_except(
                    *old(self),
                    maxdist,
                    pq_contents(open),
                    closed@,
                    cur_id,
                ));
            }
            if cur_id == end {
                let out = cur.collect_ids();
                proof {
                    if start == end {
                        assert(count_true(closed_before) == 0) by {
                            if count_true(closed_before) > 0 {
                                assert(closed_before[start as int]);
                            }
                        }
                        assert(cur.ids() == seq![start]);
                    }
                }
                return Ok(out);
            }
            let ghost pre = *self;
            let nres = self.neighbors(cur_id, maxdist);
            let nbrs = match nres {
                Ok(v) => v,
                Err(_) => {
                    proof {
                        assert(false);
                    }
                    Vec::new()
                },
            };
            proof {
                let s0 = *old(self);
                match pre.cache_at(cur_id as int) {
                    Some(c) => {
                        assert(nbrs@ == c);
                        if s0.cache_at(cur_id as int) is Some {
                            assert(pre.cache_at(cur_id as int) == s0.cache_at(cur_id as int));
                            assert forall|b: i64| #[trigger]
                                nbrs@.contains(b) implies edge_ok(s0, maxdist, cur_id, b) by {
                                let m = choose|m: int| 0 <= m < c.len() && c[m] == b;
                                assert(0 <= pre.cache_at(cur_id as int)->Some_0[m]
                                    < pre.points@.len());
                            }
                            assert(adj_list_ok(s0, maxdist, cur_id, nbrs@));
                        } else {
                            assert(adj_list_ok(s0, maxdist, cur_id, nbrs@));
                        }
                    },
                    None => {
                        assert(s0.cache_at(cur_id as int) is None);
                        assert(adj_list_ok(s0, maxdist, cur_id, nbrs@));
                    },
                }
            }
            let cur_g = cur.cost_e();
            proof {
                lemma_mul_le(count_true(closed_before), EDGE_LIMIT as int, closed_count as int);
                assert(search_inv(
                    *old(self),
                    *self,
                    maxdist,
                    start,
                    end,
                    pq_contents(open),
                    best@,
                    closed@,
                    closed_count as int,
                ));
            }
            let mut ki: usize = 0;
            while ki < nbrs.len()
                invariant
                    old(self).wf(),
                    n == old(self).points@.len(),
                    search_inv(
                        *old(self),
                        *self,
                        maxdist,
                        start,
                        end,
                        pq_contents(open),
                        best@,
                        closed@,
                        closed_count as int,
                    ),
                    closure_ok_except(
                        *old(self),
                        maxdist,
                        pq_contents(open),
                        closed@,
                        cur_id,
                    ),
                    ki <= nbrs@.len(),
                    cidx == cur_id as usize,
                    adj_list_ok(*old(self), maxdist, cur_id, nbrs@),
                    forall|m: int|
                        0 <= m < ki ==> closed@[(#[trigger] nbrs@[m]) as int] || pq_contents(
                            open,
                        ).dom().contains(nbrs@[m]),
                    0 <= cur_id < n as i64,
                    closed@[cur_id as int],
                    cur_id != end,
                    path_ok(*old(self), maxdist, cur.ids(), start, cur_id),
                    cur.ids().last() == cur_id,
                    1 <= closed_count <= n,
                    0 <= cur_g,
                    cur_g as int <= (closed_count as int - 1) * (EDGE_LIMIT as int),
                decreases nbrs@.len() - ki,
            {
                let nb = nbrs[ki];
                proof {
                    assert(nbrs@.contains(nb));
                    assert(edge_ok(*old(self), maxdist, cur_id, nb));
                }
                let nidx = nb as usize;
                proof {
                    assert(0 <= nb < n as i64);
                    assert(cidx as int == cur_id as int);
                    assert(nidx as int == nb as int);
                    assert(in_bounds(self.points@[cidx as int]));
                    assert(in_bounds(self.points@[nidx as int]));
                    assert(in_bounds(self.points@[end as int]));
                }
                if !closed[nidx] {
                    let w = isqrt(dist2_e(&self.points[cidx], &self.points[nidx]));
                    proof {
                        lemma_mul_le(closed_count as int - 1, EDGE_LIMIT as int, 1_000_000);
                        assert(1_000_000int * (EDGE_LIMIT as int) == 3_464_102_000_000int)
                            by (nonlinear_arith);
                    }
                    let g2 = cur_g + w;
                    let skip = match &best[nidx] {
                        Some(bn) => bn.cost_e() <= g2,
                        None => false,
                    };
                    if !skip {
                        let hnb = isqrt(dist2_e(&self.points[nidx], &self.points[end as usize]));
                        let f = g2 + hnb;
                        let nnode = Node::new(nb, g2, Some(cur.clone()));
                        proof {
                            cur.lemma_ids_shape();
                            assert(nnode.ids() == cur.ids().push(nb));
                            lemma_path_extend(
                                *old(self),
                                maxdist,
                                cur.ids(),
                                start,
                                cur_id,
                                nb,
                            );
                        }
                        best.set(nidx, Some(nnode));
                        pq_push(&mut open, nb, 0 - f);
                        proof {
                            assert((closed_count as int - 1) * (EDGE_LIMIT as int) + (
                            EDGE_LIMIT as int) == (closed_count as int) * (EDGE_LIMIT as int))
                                by (nonlinear_arith);
                            assert(cost_of(best@[nb as int]) == g2 as int);
                            assert(search_inv(
                                *old(self),
                                *self,
                                maxdist,
                                start,
                                end,
                                pq_contents(open),
                                best@,
                                closed@,
                                closed_count as int,
                            ));
                        }
                    } else {
                        proof {
                            assert(best@[nb as int] is Some && !closed@[nb as int]);
                            assert(pq_contents(open).dom().contains(nb));
                        }
                    }
                }
                ki = ki + 1;
            }
            proof {
                assert forall|b: i64| #[trigger]
                    edge_ok(*old(self), maxdist, cur_id, b) implies closed@[b as int]
                    || pq_contents(open).dom().contains(b) by {
                    assert(nbrs@.contains(b));
                    let m = choose|m: int| 0 <= m < nbrs@.len() && nbrs@[m] == b;
                }
                assert forall|a: i64, b: i64|
                    0 <= a < closed@.len() && closed@[a as int] && #[trigger] edge_ok(
                        *old(self),
                        maxdist,
                        a,
                        b,
                    ) implies closed@[b as int] || pq_contents(open).dom().contains(b) by {
                    if a != cur_id {
                        assert(closure_ok_except(
                            *old(self),
                            maxdist,
                            pq_contents(open),
                            closed@,
                            cur_id,
                        ));
                    }
                }
                assert(closure_ok(*old(self), maxdist, pq_contents(open), closed@));
            }
        }
        proof {
            let s0 = *old(self);
            assert(closed@[start as int]);
            assert(start != end);
            assert forall|a: i64, b: i64|
                0 <= a < s0.points@.len() && closed@[a as int] && #[trigger] edge_ok(
                    s0,
                    maxdist,
                    a,
                    b,
                ) implies closed@[b as int] by {
                assert(closed@[b as int] || pq_contents(open).dom().contains(b));
            }
            assert(!has_path(s0, maxdist, start, end)) by {
                if has_path(s0, maxdist, start, end) {
                    let p = choose|p: Seq<i64>| path_ok(s0, maxdist, p, start, end);
                    lemma_closed_no_path(s0, maxdist, closed@, p, start, end);
                    assert(closed@[end as int]);
                }
            }
        }
        Ok(Vec::new())
    }
}

/// A walk extends by one edge out of its last step.
proof fn lemma_path_extend(s: KDNavI, md: i64, p: Seq<i64>, start: i64, a: i64, b: i64)
    requires
        path_ok(s, md, p, start, a),
        edge_ok(s, md, a, b),
    ensures
        path_ok(s, md, p.push(b), start, b),
{
    let p2 = p.push(b);
    assert(p2[p2.len() - 1] == b);
    assert(p2[0] == start);
    assert forall|i: int| 0 <= i < p2.len() - 1 implies edge_ok(s, md, #[trigger] p2[i], p2[i + 1]) by {
        if i < p.len() - 1 {
            assert(p2[i] == p[i] && p2[i + 1] == p[i + 1]);
            assert(edge_ok(s, md, p[i], p[i + 1]));
        } else {
            assert(p2[i] == p[p.len() - 1] && p2[i + 1] == b);
        }
    }
}

/// A sequence of cleared flags has no set entry.
proof fn lemma_count_all_false(s: Seq<bool>)
    requires
        forall|a: int| 0 <= a < s.len() ==> !(#[trigger] s[a]),
    ensures
        count_true(s) == 0,
    decreases s.len(),
{
    if s.len() > 0 {
        lemma_count_all_false(s.drop_last());
    }
}

/// Law: a cleared or freshly constructed engine holds no points, so every
/// identifier is invalid and no route exists between any two of them:
/// every query behaves as on a never-built engine.
pub proof fn lemma_fresh_rejects(s: KDNavI, md: i64, a: i64, b: i64)
    requires
        s.is_fresh(),
    ensures
        !(0 <= a < s.points@.len()),
        !has_path(s, md, a, b),
{
    if has_path(s, md, a, b) {
        let p = choose|p: Seq<i64>| path_ok(s, md, p, a, b);
        assert(0 <= p[0] < s.points@.len());
    }
}

/// Law: after building a point set, the nearest query for a point of the
/// set can only answer with a coincident point — its squared distance is
/// zero, so the answer is the point itself or a duplicate of it.
pub proof fn lemma_nearest_self(points: Seq<Point3>, j: int, r: i64)
    requires
        0 <= j < points.len(),
        0 <= r < points.len(),
        forall|k: int|
            0 <= k < points.len() ==> dist2(points[j], points[r as int]) <= dist2(
                points[j],
                #[trigger] points[k],
            ),
    ensures
        points[r as int] == points[j],
{
    assert(dist2(points[j], points[j]) == 0);
    assert(dist2(points[j], points[r as int]) <= 0);
    crate::geom::lemma_dist2_nonneg(points[j], points[r as int]);
    lemma_dist2_zero(points[j], points[r as int]);
}

} // verus!
