//! A path node: one step of a path-in-progress. It records a point
//! identifier, the accumulated cost from the start of the search, and a
//! shared link to its predecessor (`None` at the start node). Nodes are
//! immutable once made, so the frontier and the final path may share them.

use crate::gc::Gc;
use vstd::prelude::*;

verus! {

pub struct InnerNode {
    pub id: i64,
    pub g: i64,
    pub up: Option<Node>,
}

/// Shared-ownership handle to one step of a path chain.
pub struct Node {
    pub inner: Gc<InnerNode>,
}

impl Node {
    /// The identifiers along the chain, from its first step up to this one.
    pub open spec fn ids(self) -> Seq<i64>
        decreases self,
    {
        match self.inner.value().up {
            None => seq![self.inner.value().id],
            Some(u) => u.ids().push(self.inner.value().id),
        }
    }

    /// The identifier of this step.
    pub open spec fn head_id(self) -> i64 {
        self.inner.value().id
    }

    /// The accumulated cost recorded at this step.
    pub open spec fn cost(self) -> i64 {
        self.inner.value().g
    }

    pub proof fn lemma_ids_shape(self)
        ensures
            self.ids().len() >= 1,
            self.ids().last() == self.head_id(),
        decreases self,
    {
    }

    pub fn new(id: i64, g: i64, up: Option<Node>) -> (n: Node)
        ensures
            n.head_id() == id,
            n.cost() == g,
            up is None ==> n.ids() == seq![id],
            up matches Some(u) ==> n.ids() == u.ids().push(id),
    {
        Node { inner: Gc::new(InnerNode { id, g, up }) }
    }

    /// A fresh chain of one step: cost zero, no predecessor.
    pub fn id(id: i64) -> (n: Node)
        ensures
            n.head_id() == id,
            n.cost() == 0,
            n.ids() == seq![id],
    {
        Node::new(id, 0, None)
    }

    /// The accumulated cost of this step, read from the shared record.
    pub fn cost_e(&self) -> (g: i64)
        ensures
            g == self.cost(),
    {
        self.inner.get().g
    }

    /// The identifier of this step, read from the shared record.
    pub fn head_id_e(&self) -> (id: i64)
        ensures
            id == self.head_id(),
    {
        self.inner.get().id
    }

    /// Walk the chain back to its first step and return the identifiers in
    /// chain order.
    pub fn collect_ids(&self) -> (out: Vec<i64>)
        ensures
            out@ == self.ids(),
    {
        let mut r: Vec<i64> = Vec::new();
        let mut cur: Node = self.clone();
        r.push(cur.inner.get().id);
        proof {
            cur.lemma_ids_shape();
            assert(self.ids() =~= cur.ids().drop_last() + r@.reverse());
        }
        loop
            invariant
                cur.ids().len() >= 1,
                self.ids() =~= cur.ids().drop_last() + r@.reverse(),
            ensures
                self.ids() =~= r@.reverse(),
            decreases cur.ids().len(),
        {
            let step = cur.inner.get();
            match &step.up {
                Some(u) => {
                    let up = u.clone();
                    r.push(up.inner.get().id);
                    proof {
                        up.lemma_ids_shape();
                        assert(cur.ids() == up.ids().push(cur.head_id()));
                        assert(self.ids() =~= up.ids().drop_last() + r@.reverse());
                    }
                    cur = up;
                },
                None => {
                    proof {
                        assert(cur.ids() == seq![cur.head_id()]);
                    }
                    break;
                },
            }
        }
        proof {
            assert(self.ids() =~= r@.reverse());
        }
        let mut out: Vec<i64> = Vec::new();
        let mut i: usize = r.len();
        while i > 0
            invariant
                i <= r@.len(),
                out@ == r@.subrange(i as int, r@.len() as int).reverse(),
            decreases i,
        {
            i = i - 1;
            let v = r[i];
            out.push(v);
            proof {
                assert(out@ =~= r@.subrange(i as int, r@.len() as int).reverse());
            }
        }
        proof {
            assert(r@.subrange(0, r@.len() as int) =~= r@);
            assert(out@ =~= self.ids());
        }
        out
    }
}

impl Clone for Node {
    fn clone(&self) -> (r: Self)
        ensures
            r == *self,
    {
        Node { inner: self.inner.clone() }
    }
}

} // verus!
