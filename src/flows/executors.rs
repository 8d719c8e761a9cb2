//! Executors: they run a flow from a seed node by updating nodes and
//! propagating the values they push.
use std::rc::Rc;
use vstd::prelude::*;

use crate::flows::{lemma_remove_to_set, Direction, Flow, GraphView, InputState, NodePortAlias};
use crate::nodes::{Node, NodeId, NodeInvocationEnv};
use crate::{RcErr, RcRes};

verus! {

/// The index of `x` in `v`, if it occurs.
fn index_of(v: &Vec<NodeId>, x: NodeId) -> (r: Option<usize>)
    ensures
        r matches Some(k) ==> k < v@.len() && v@[k as int] == x,
        r is None ==> !v@.contains(x),
{
    let mut k: usize = 0;
    while k < v.len()
        invariant
            k <= v@.len(),
            forall|j: int| 0 <= j < k ==> v@[j] != x,
        decreases v@.len() - k,
    {
        if v[k] == x {
            return Some(k);
        }
        k = k + 1;
    }
    None
}

/// Runs a flow from a seed node.
pub trait Executor<T, N = Box<dyn Node<T>>> {
    /// Updates `n`, then every node that receives data, until no node is owed
    /// an update. The graph itself is left as it was; latched values change.
    fn invoke(&mut self, flow: &mut Flow<T, N>, n: NodeId) -> (r: RcRes<()>)
        requires
            old(flow).wf(),
        ensures
            final(flow).wf(),
            final(flow)@.graph == old(flow)@.graph,
    ;
}

/// Propagates data from a seed node in topological order, and makes progress
/// across cycles by recomputing the order for the nodes still owed an update.
///
/// It records, for the last invocation, the nodes updated in each pass.
pub struct TopoWithLoops {
    passes: Ghost<Seq<Seq<NodeId>>>,
    log: Ghost<Seq<(NodeId, Seq<usize>)>>,
}

impl TopoWithLoops {
    pub fn new() -> (r: Self)
        ensures
            r.passes() == Seq::<Seq<NodeId>>::empty(),
            r.updates() == Seq::<(NodeId, Seq<usize>)>::empty(),
    {
        Self { passes: Ghost(Seq::empty()), log: Ghost(Seq::empty()) }
    }

    /// The nodes updated during the last invocation, pass by pass, in order.
    pub closed spec fn passes(&self) -> Seq<Seq<NodeId>> {
        self.passes@
    }

    /// Every update of the last invocation, in order: the node, and the
    /// outputs it pushed to.
    pub closed spec fn updates(&self) -> Seq<(NodeId, Seq<usize>)> {
        self.log@
    }
}

/// The nodes of the updates in `log`, in order.
pub open spec fn updated_nodes(log: Seq<(NodeId, Seq<usize>)>) -> Seq<NodeId> {
    log.map_values(|e: (NodeId, Seq<usize>)| e.0)
}

/// The nodes that push number `k` of update `u` in `log` schedules.
pub open spec fn push_targets(g: GraphView, log: Seq<(NodeId, Seq<usize>)>, u: int, k: int) -> Set<NodeId> {
    g.port_targets((log[u].0, Direction::Out, log[u].1[k]), true)
}

/// Some push among the first `v` updates of `log` schedules `y`.
pub open spec fn scheduled_before(g: GraphView, log: Seq<(NodeId, Seq<usize>)>, v: int, y: NodeId) -> bool {
    exists|u: int, k: int| 0 <= u < v && 0 <= k < log[u].1.len() && #[trigger] push_targets(g, log, u, k).contains(y)
}

/// A set of queued nodes, handed out in the order of a separately supplied
/// mask.
///
/// The mask is consumed as it is scanned: `dequeue` returns the first node of
/// the remaining mask that is queued and drops the mask up to it. A node
/// queued again behind that point waits for the next mask.
pub struct OrderedMaskedQueue {
    mask: Vec<NodeId>,
    pos: usize,
    queued: Vec<NodeId>,
}

impl OrderedMaskedQueue {
    pub closed spec fn wf(&self) -> bool {
        &&& self.pos <= self.mask@.len()
        &&& self.queued@.no_duplicates()
    }

    /// The nodes that owe an update.
    pub closed spec fn pending(&self) -> Set<NodeId> {
        self.queued@.to_set()
    }

    /// The part of the mask not scanned yet.
    pub closed spec fn order(&self) -> Seq<NodeId> {
        self.mask@.skip(self.pos as int)
    }

    pub fn new() -> (r: Self)
        ensures
            r.wf(),
            r.pending() == Set::<NodeId>::empty(),
            r.order() == Seq::<NodeId>::empty(),
    {
        let r = Self { mask: Vec::new(), pos: 0, queued: Vec::new() };
        assert(r.pending() =~= Set::<NodeId>::empty());
        assert(r.order() =~= Seq::<NodeId>::empty());
        r
    }

    /// Queues `n`; queuing a queued node changes nothing.
    pub fn enqueue(&mut self, n: NodeId)
        requires
            old(self).wf(),
        ensures
            final(self).wf(),
            final(self).pending() == old(self).pending().insert(n),
            final(self).order() == old(self).order(),
    {
        let mut k: usize = 0;
        while k < self.queued.len()
            invariant
                k <= self.queued@.len(),
                self.queued@ == old(self).queued@,
                self.mask@ == old(self).mask@,
                self.pos == old(self).pos,
                self.wf(),
                forall|j: int| 0 <= j < k ==> self.queued@[j] != n,
            decreases self.queued@.len() - k,
        {
            if self.queued[k] == n {
                proof {
                    assert(self.queued@.to_set().contains(n));
                    assert(self.pending() =~= old(self).pending().insert(n));
                }
                return;
            }
            k = k + 1;
        }
        self.queued.push(n);
        proof {
            assert forall|x: NodeId| #[trigger] self.queued@.contains(x) <==> old(self).queued@.contains(x) || x == n by {
                if old(self).queued@.contains(x) {
                    let j = choose|j: int| 0 <= j < old(self).queued@.len() && old(self).queued@[j] == x;
                    assert(self.queued@[j] == x);
                }
                if x == n {
                    assert(self.queued@[old(self).queued@.len() as int] == x);
                }
            }
            assert(self.pending() =~= old(self).pending().insert(n));
        }
    }

    /// Hands out the first node of the remaining mask that is queued, removes
    /// it from the queue and drops the mask up to and including it. When no
    /// node of the remaining mask is queued, the mask is used up and nothing
    /// is returned.
    pub fn dequeue(&mut self) -> (r: Option<NodeId>)
        requires
            old(self).wf(),
        ensures
            final(self).wf(),
            r matches Some(x) ==> exists|k: int|
                0 <= k < old(self).order().len() && old(self).order()[k] == x
                    && old(self).pending().contains(x)
                    && (forall|j: int| 0 <= j < k ==> !old(self).pending().contains(#[trigger] old(self).order()[j]))
                    && final(self).order() == old(self).order().skip(k + 1)
                    && final(self).pending() == old(self).pending().remove(x),
            r is None ==> (forall|j: int| 0 <= j < old(self).order().len() ==> !old(self).pending().contains(
                #[trigger] old(self).order()[j],
            )) && final(self).order() == Seq::<NodeId>::empty() && final(self).pending() == old(self).pending(),
    {
        let ghost start = self.pos as int;
        while self.pos < self.mask.len()
            invariant
                start <= self.pos <= self.mask@.len(),
                start == old(self).pos,
                self.mask@ == old(self).mask@,
                self.queued@ == old(self).queued@,
                self.queued@.no_duplicates(),
                forall|j: int| start <= j < self.pos ==> !self.queued@.contains(#[trigger] self.mask@[j]),
            decreases self.mask@.len() - self.pos,
        {
            let x = self.mask[self.pos];
            match index_of(&self.queued, x) {
                Some(k) => {
                    let ghost before = *self;
                    let ghost at = self.pos as int;
                    self.queued.remove(k);
                    self.pos = self.pos + 1;
                    proof {
                        let kk = at - start;
                        lemma_remove_to_set(before.queued@, k as int);
                        assert(old(self).order()[kk] == x);
                        assert(old(self).pending().contains(x)) by {
                            assert(old(self).queued@[k as int] == x);
                        }
                        assert forall|j: int| 0 <= j < kk implies !old(self).pending().contains(#[trigger] old(self).order()[j]) by {
                            assert(old(self).order()[j] == self.mask@[start + j]);
                        }
                        assert(self.order() =~= old(self).order().skip(kk + 1));
                    }
                    return Some(x);
                },
                None => {},
            }
            self.pos = self.pos + 1;
        }
        proof {
            assert forall|j: int| 0 <= j < old(self).order().len() implies !old(self).pending().contains(
                #[trigger] old(self).order()[j]) by {
                assert(old(self).order()[j] == self.mask@[start + j]);
            }
            assert(self.order() =~= Seq::<NodeId>::empty());
        }
        None
    }

    pub fn is_empty(&self) -> (r: bool)
        requires
            self.wf(),
        ensures
            r == (self.pending() == Set::<NodeId>::empty()),
    {
        proof {
            if self.queued@.len() > 0 {
                assert(self.pending().contains(self.queued@[0]));
            } else {
                assert(self.pending() =~= Set::<NodeId>::empty());
            }
        }
        self.queued.len() == 0
    }

    /// Replaces the mask; the queued nodes stay.
    pub fn set_mask(&mut self, allowed: Vec<NodeId>)
        requires
            old(self).wf(),
        ensures
            final(self).wf(),
            final(self).order() == allowed@,
            final(self).pending() == old(self).pending(),
    {
        self.mask = allowed;
        self.pos = 0;
        proof {
            assert(self.order() =~= allowed@);
        }
    }

    /// The queued nodes, each once.
    pub fn queued(&self) -> (r: &Vec<NodeId>)
        requires
            self.wf(),
        ensures
            r@.no_duplicates(),
            r@.to_set() == self.pending(),
    {
        &self.queued
    }
}


/// `p` is a non-empty walk along node-level edges.
pub open spec fn is_path(g: GraphView, p: Seq<NodeId>) -> bool {
    &&& p.len() >= 1
    &&& forall|k: int| 0 <= k < p.len() - 1 ==> #[trigger] g.node_succ(p[k]).contains(p[k + 1])
}

/// There is a walk from `a` to `b`; every node reaches itself.
pub open spec fn reaches(g: GraphView, a: NodeId, b: NodeId) -> bool {
    exists|p: Seq<NodeId>| #[trigger] is_path(g, p) && p[0] == a && p.last() == b
}

/// The nodes some root reaches.
pub open spec fn reachable_from(g: GraphView, roots: Set<NodeId>) -> Set<NodeId> {
    Set::new(|x: NodeId| exists|s: NodeId| roots.contains(s) && #[trigger] reaches(g, s, x))
}

/// No edge closes a cycle: the node graph is acyclic.
pub open spec fn is_dag(g: GraphView) -> bool {
    forall|a: NodeId, b: NodeId| #[trigger] g.node_succ(a).contains(b) ==> !reaches(g, b, a)
}

/// `order` lists each node once, and every edge between two of its nodes
/// either goes forward in it or closes a cycle.
pub open spec fn is_topological_up_to_cycles(g: GraphView, order: Seq<NodeId>) -> bool {
    &&& order.no_duplicates()
    &&& forall|j: int, k: int|
        0 <= j < order.len() && 0 <= k < order.len() && #[trigger] g.node_succ(order[j]).contains(
            #[trigger] order[k],
        ) ==> j < k || reaches(g, order[k], order[j])
}

pub proof fn lemma_reaches_refl(g: GraphView, a: NodeId)
    ensures
        reaches(g, a, a),
{
    let p = seq![a];
    assert(is_path(g, p));
}

pub proof fn lemma_reaches_step(g: GraphView, a: NodeId, b: NodeId, c: NodeId)
    requires
        reaches(g, a, b),
        g.node_succ(b).contains(c),
    ensures
        reaches(g, a, c),
{
    let p = choose|p: Seq<NodeId>| #[trigger] is_path(g, p) && p[0] == a && p.last() == b;
    let q = p.push(c);
    assert forall|k: int| 0 <= k < q.len() - 1 implies #[trigger] g.node_succ(q[k]).contains(q[k + 1]) by {
        if k < p.len() - 1 {
            assert(g.node_succ(p[k]).contains(p[k + 1]));
        }
    }
    assert(is_path(g, q));
}

proof fn lemma_path_suffix(g: GraphView, p: Seq<NodeId>, k: int)
    requires
        is_path(g, p),
        0 <= k < p.len(),
    ensures
        reaches(g, p[k], p.last()),
{
    let q = p.subrange(k, p.len() as int);
    assert forall|m: int| 0 <= m < q.len() - 1 implies #[trigger] g.node_succ(q[m]).contains(q[m + 1]) by {
        assert(g.node_succ(p[k + m]).contains(p[k + m + 1]));
    }
    assert(is_path(g, q));
}

/// A set closed under successors holds everything its members reach.
proof fn lemma_closed_holds_reached(g: GraphView, s: Set<NodeId>, a: NodeId, b: NodeId)
    requires
        s.contains(a),
        forall|x: NodeId, y: NodeId| s.contains(x) && #[trigger] g.node_succ(x).contains(y) ==> s.contains(y),
        reaches(g, a, b),
    ensures
        s.contains(b),
{
    let p = choose|p: Seq<NodeId>| #[trigger] is_path(g, p) && p[0] == a && p.last() == b;
    lemma_closed_holds_path(g, s, p, p.len() - 1);
}

proof fn lemma_closed_holds_path(g: GraphView, s: Set<NodeId>, p: Seq<NodeId>, k: int)
    requires
        is_path(g, p),
        s.contains(p[0]),
        forall|x: NodeId, y: NodeId| s.contains(x) && #[trigger] g.node_succ(x).contains(y) ==> s.contains(y),
        0 <= k < p.len(),
    ensures
        s.contains(p[k]),
    decreases k,
{
    if k > 0 {
        let k1 = k - 1;
        lemma_closed_holds_path(g, s, p, k1);
        assert(g.node_succ(p[k1]).contains(p[k1 + 1]));
    }
}

/// Whatever a node reaches is a node.
proof fn lemma_reached_is_node(g: GraphView, a: NodeId, b: NodeId)
    requires
        g.inv(),
        g.has_node(a),
        reaches(g, a, b),
    ensures
        g.has_node(b),
{
    let p = choose|p: Seq<NodeId>| #[trigger] is_path(g, p) && p[0] == a && p.last() == b;
    if p.len() > 1 {
        let k = p.len() - 2;
        assert(g.node_succ(p[k]).contains(p[k + 1]));
        lemma_succ_is_node(g, p[k], b);
    }
}

/// Every node that some node links to is a node of the graph.
proof fn lemma_succ_is_node(g: GraphView, a: NodeId, b: NodeId)
    requires
        g.inv(),
        g.node_succ(a).contains(b),
    ensures
        g.has_node(b),
{
    let (o, i) = choose|o: NodePortAlias, i: NodePortAlias| o.0 == a && i.0 == b && #[trigger] g.has_edge(o, i);
}

spec fn marked(s: Seq<bool>, x: NodeId) -> bool {
    (x.0 as int) < s.len() && s[x.0 as int]
}

/// The number of nodes neither finished nor on the stack.
spec fn free_count(done: Seq<bool>, curr: Seq<bool>) -> nat
    decreases done.len(),
{
    if done.len() == 0 {
        0
    } else {
        free_count(done.drop_last(), curr.drop_last()) + if !done.last() && !curr.last() {
            1nat
        } else {
            0nat
        }
    }
}

proof fn lemma_free_count_mono(d1: Seq<bool>, c1: Seq<bool>, d2: Seq<bool>, c2: Seq<bool>)
    requires
        d1.len() == c1.len() == d2.len() == c2.len(),
        forall|k: int| 0 <= k < d1.len() && !d2[k] && !c2[k] ==> !d1[k] && !c1[k],
    ensures
        free_count(d2, c2) <= free_count(d1, c1),
        (exists|k: int| 0 <= k < d1.len() && !d1[k] && !c1[k] && (d2[k] || c2[k])) ==> free_count(d2, c2)
            < free_count(d1, c1),
    decreases d1.len(),
{
    if d1.len() > 0 {
        let n = d1.len() - 1;
        lemma_free_count_mono(d1.drop_last(), c1.drop_last(), d2.drop_last(), c2.drop_last());
        if exists|k: int| 0 <= k < d1.len() && !d1[k] && !c1[k] && (d2[k] || c2[k]) {
            let k = choose|k: int| 0 <= k < d1.len() && !d1[k] && !c1[k] && (d2[k] || c2[k]);
            if k < n {
                assert(!d1.drop_last()[k] && !c1.drop_last()[k] && (d2.drop_last()[k] || c2.drop_last()[k]));
            }
        }
    }
}

/// The state of the depth-first search: `done` nodes are finished and listed
/// in `res` in post-order, the `path` nodes are on the stack (marked in
/// `curr`), and every node met so far is reached from a root.
spec fn dfs_inv(
    g: GraphView,
    roots: Set<NodeId>,
    done: Seq<bool>,
    curr: Seq<bool>,
    res: Seq<NodeId>,
    path: Seq<NodeId>,
) -> bool {
    &&& done.len() == g.next_id
    &&& curr.len() == g.next_id
    &&& res.no_duplicates()
    &&& forall|k: int| 0 <= k < res.len() ==> marked(done, #[trigger] res[k])
    &&& forall|x: NodeId| #[trigger] marked(done, x) ==> res.contains(x) && g.has_node(x)
    &&& forall|x: NodeId| !(#[trigger] marked(done, x) && marked(curr, x))
    &&& forall|x: NodeId| #[trigger] marked(curr, x) <==> path.contains(x)
    &&& path.no_duplicates()
    &&& path.len() > 0 ==> is_path(g, path)
    &&& forall|k: int| 0 <= k < path.len() ==> g.has_node(#[trigger] path[k])
    &&& forall|x: NodeId, y: NodeId|
        #[trigger] marked(done, x) && #[trigger] g.node_succ(x).contains(y) ==> marked(done, y) || marked(curr, y)
    &&& forall|j: int, y: NodeId|
        0 <= j < res.len() && #[trigger] g.node_succ(res[j]).contains(y) ==> (exists|m: int|
            0 <= m < j && #[trigger] res[m] == y) || reaches(g, y, res[j])
    &&& forall|x: NodeId| #[trigger] marked(done, x) || marked(curr, x) ==> reachable_from(g, roots).contains(x)
}

/// A node met by the search is reached from a root.
proof fn lemma_dfs_sound(
    g: GraphView,
    roots: Set<NodeId>,
    done: Seq<bool>,
    curr: Seq<bool>,
    res: Seq<NodeId>,
    path: Seq<NodeId>,
    x: NodeId,
)
    requires
        dfs_inv(g, roots, done, curr, res, path),
    ensures
        marked(done, x) || marked(curr, x) ==> reachable_from(g, roots).contains(x),
{
}

/// Visits `n` depth first: afterwards `n` is finished unless it was on the
/// stack already (a back edge), and every node it reaches is finished or on
/// the stack.
fn visit<T, N>(
    n: NodeId,
    done: &mut Vec<bool>,
    curr: &mut Vec<bool>,
    res: &mut Vec<NodeId>,
    Ghost(path): Ghost<Seq<NodeId>>,
    Ghost(roots): Ghost<Set<NodeId>>,
    flow: &Flow<T, N>,
)
    requires
        flow.wf(),
        dfs_inv(flow@.graph, roots, old(done)@, old(curr)@, old(res)@, path),
        flow@.graph.has_node(n),
        reachable_from(flow@.graph, roots).contains(n),
        path.len() > 0 ==> flow@.graph.node_succ(path.last()).contains(n),
    ensures
        dfs_inv(flow@.graph, roots, final(done)@, final(curr)@, final(res)@, path),
        final(curr)@ == old(curr)@,
        final(res)@.take(old(res)@.len() as int) == old(res)@,
        old(res)@.len() <= final(res)@.len(),
        forall|x: NodeId| #[trigger] marked(old(done)@, x) ==> marked(final(done)@, x),
        marked(final(done)@, n) || marked(old(curr)@, n),
        !marked(old(done)@, n) && !marked(old(curr)@, n) ==> final(res)@.len() > 0 && final(res)@.last() == n,
        free_count(final(done)@, final(curr)@) <= free_count(old(done)@, old(curr)@),
    decreases free_count(old(done)@, old(curr)@),
{
    let ghost g = flow@.graph;
    proof {
        flow.lemma_wf_inv();
    }
    if done[n.0] || curr[n.0] {
        return;
    }
    curr.set(n.0, true);
    let ghost path2 = path.push(n);
    proof {
        assert forall|x: NodeId| #[trigger] marked(curr@, x) <==> path2.contains(x) by {
            if x.0 == n.0 {
                assert(x == n);
                assert(path2[path.len() as int] == n);
            } else {
                assert(marked(curr@, x) == marked(old(curr)@, x));
                if path.contains(x) {
                    let k = choose|k: int| 0 <= k < path.len() && path[k] == x;
                    assert(path2[k] == x);
                }
                if path2.contains(x) {
                    let k = choose|k: int| 0 <= k < path2.len() && path2[k] == x;
                    assert(path[k] == x);
                }
            }
        }
        assert(!marked(old(curr)@, n));
        assert(!path.contains(n));
        assert forall|k: int| 0 <= k < path2.len() - 1 implies #[trigger] g.node_succ(path2[k]).contains(path2[k + 1]) by {
            if k < path.len() - 1 {
                assert(g.node_succ(path[k]).contains(path[k + 1]));
            }
        }
        assert(is_path(g, path2));
        assert(path2.no_duplicates()) by {
            assert forall|a: int, b: int| 0 <= a < path2.len() && 0 <= b < path2.len() && a != b implies path2[a] != path2[b] by {
                if a < path.len() && b < path.len() {
                    assert(path[a] != path[b]);
                } else if a < path.len() {
                    assert(path.contains(path[a]));
                } else if b < path.len() {
                    assert(path.contains(path[b]));
                }
            }
        }
        assert forall|k: int| 0 <= k < path2.len() implies g.has_node(#[trigger] path2[k]) by {
            if k < path.len() {
                assert(path2[k] == path[k]);
            }
        }
        assert forall|x: NodeId| #[trigger] marked(old(curr)@, x) implies marked(curr@, x) by {
            if x.0 == n.0 {
                assert(x == n);
            }
        }
        assert forall|x: NodeId| !(#[trigger] marked(done@, x) && marked(curr@, x)) by {
            if x.0 == n.0 {
                assert(x == n);
            } else {
                assert(marked(curr@, x) == marked(old(curr)@, x));
            }
        }
        assert forall|x: NodeId| #[trigger] marked(done@, x) || marked(curr@, x) implies reachable_from(g, roots).contains(x) by {
            if x.0 == n.0 {
                assert(x == n);
            } else {
                assert(marked(curr@, x) == marked(old(curr)@, x));
                assert(done@ == old(done)@);
                assert(marked(done@, x) == marked(old(done)@, x));
                lemma_dfs_sound(g, roots, old(done)@, old(curr)@, old(res)@, path, x);
            }
        }
        assert forall|x: NodeId, y: NodeId|
            #[trigger] marked(done@, x) && #[trigger] g.node_succ(x).contains(y) implies marked(done@, y) || marked(curr@, y) by {
            if marked(old(curr)@, y) {
                assert(marked(curr@, y));
            }
        }
        assert(dfs_inv(g, roots, done@, curr@, res@, path2));
        lemma_free_count_mono(old(done)@, old(curr)@, done@, curr@);
    }
    let succs = match flow.succ_nodes(n) {
        Ok(v) => v,
        Err(_) => {
            proof {
                assert(false);
            }
            return;
        },
    };
    let mut j: usize = 0;
    while j < succs.len()
        invariant
            flow.wf(),
            g == flow@.graph,
            g.inv(),
            g.has_node(n),
            reachable_from(g, roots).contains(n),
            path2 == path.push(n),
            is_path(g, path2),
            !path.contains(n),
            dfs_inv(g, roots, done@, curr@, res@, path2),
            curr@ == old(curr)@.update(n.0 as int, true),
            (n.0 as int) < old(curr)@.len(),
            !marked(done@, n),
            !marked(old(done)@, n) && !marked(old(curr)@, n),
            res@.take(old(res)@.len() as int) == old(res)@,
            old(res)@.len() <= res@.len(),
            forall|x: NodeId| #[trigger] marked(old(done)@, x) ==> marked(done@, x),
            free_count(done@, curr@) < free_count(old(done)@, old(curr)@),
            succs@.to_set() == g.node_succ(n),
            j <= succs@.len(),
            forall|m: int| 0 <= m < j ==> marked(done@, #[trigger] succs@[m]) || marked(curr@, succs@[m]),
        decreases succs@.len() - j,
    {
        let y = succs[j];
        proof {
            assert(succs@.to_set().contains(y));
            lemma_succ_is_node(g, n, y);
            let s = choose|s: NodeId| roots.contains(s) && #[trigger] reaches(g, s, n);
            lemma_reaches_step(g, s, n, y);
            assert(reachable_from(g, roots).contains(y));
        }
        let ghost done_before = done@;
        let ghost res_before = res@;
        visit(y, done, curr, res, Ghost(path2), Ghost(roots), flow);
        proof {
            assert(res@.take(old(res)@.len() as int) =~= res@.take(res_before.len() as int).take(old(res)@.len() as int));
            assert forall|m: int| 0 <= m < j + 1 implies marked(done@, #[trigger] succs@[m]) || marked(curr@, succs@[m]) by {
                if m < j {
                    if marked(done_before, succs@[m]) {
                        assert(marked(done@, succs@[m]));
                    }
                }
            }
            assert(marked(curr@, n));
            assert(!marked(done@, n));
        }
        j = j + 1;
    }
    let ghost done1 = done@;
    let ghost curr1 = curr@;
    let ghost res1 = res@;
    curr.set(n.0, false);
    done.set(n.0, true);
    res.push(n);
    proof {
        assert(curr@ =~= old(curr)@);
        let d = done@;
        let c = curr@;
        let r = res@;
        assert forall|x: NodeId| #[trigger] marked(d, x) <==> marked(done1, x) || x == n by {
            if x.0 == n.0 {
                assert(x == n);
            }
        }
        assert forall|x: NodeId| #[trigger] marked(c, x) <==> marked(curr1, x) && x != n by {
            if x.0 == n.0 {
                assert(x == n);
            }
        }
        assert(!res1.contains(n));
        assert forall|k: int| 0 <= k < r.len() implies marked(d, #[trigger] r[k]) by {
            if k < res1.len() {
                assert(r[k] == res1[k]);
                assert(marked(done1, res1[k]));
            }
        }
        assert forall|x: NodeId| #[trigger] marked(d, x) implies r.contains(x) && g.has_node(x) by {
            if x == n {
                assert(r[res1.len() as int] == n);
            } else {
                assert(marked(done1, x));
                let k = choose|k: int| 0 <= k < res1.len() && res1[k] == x;
                assert(r[k] == x);
            }
        }
        assert forall|x: NodeId, y: NodeId|
            #[trigger] marked(d, x) && #[trigger] g.node_succ(x).contains(y) implies marked(d, y) || marked(c, y) by {
            if x == n {
                assert(succs@.to_set().contains(y));
                let m = choose|m: int| 0 <= m < succs@.len() && succs@[m] == y;
                assert(marked(done1, succs@[m]) || marked(curr1, succs@[m]));
            } else {
                assert(marked(done1, x));
            }
        }
        assert forall|jj: int, y: NodeId|
            0 <= jj < r.len() && #[trigger] g.node_succ(r[jj]).contains(y) implies (exists|m: int|
                0 <= m < jj && #[trigger] r[m] == y) || reaches(g, y, r[jj]) by {
            if jj < res1.len() {
                assert(r[jj] == res1[jj]);
                if exists|m: int| 0 <= m < jj && #[trigger] res1[m] == y {
                    let m = choose|m: int| 0 <= m < jj && #[trigger] res1[m] == y;
                    assert(r[m] == y);
                }
            } else {
                assert(r[jj] == n);
                assert(succs@.to_set().contains(y));
                let m = choose|m: int| 0 <= m < succs@.len() && succs@[m] == y;
                if marked(done1, y) {
                    let k = choose|k: int| 0 <= k < res1.len() && res1[k] == y;
                    assert(r[k] == y);
                } else {
                    assert(marked(curr1, y));
                    assert(path2.contains(y));
                    let k = choose|k: int| 0 <= k < path2.len() && path2[k] == y;
                    lemma_path_suffix(g, path2, k);
                }
            }
        }
        assert forall|x: NodeId| #[trigger] marked(d, x) || marked(c, x) implies reachable_from(g, roots).contains(x) by {
            if x != n {
                assert(marked(done1, x) || marked(curr1, x));
            }
        }
        assert(r.take(old(res)@.len() as int) =~= res1.take(old(res)@.len() as int));
        assert forall|k: int| 0 <= k < d.len() && !d[k] && !c[k] implies !old(done)@[k] && !old(curr)@[k] by {
            let x = NodeId(k as usize);
            assert(x.0 as int == k);
            assert(!marked(d, x));
            assert(!marked(done1, x));
            if old(done)@[k] {
                assert(marked(old(done)@, x));
            }
        }
        lemma_free_count_mono(old(done)@, old(curr)@, d, c);
    }
}

impl TopoWithLoops {
    /// The nodes that the nodes of `roots` reach, in an order in which every
    /// edge goes forward, except edges that close a cycle. Fails with
    /// `NodeNotFound` if a root is not in the flow.
    pub fn topo<T, N>(&self, roots: &Vec<NodeId>, flow: &Flow<T, N>) -> (r: RcRes<Vec<NodeId>>)
        requires
            flow.wf(),
        ensures
            (exists|k: int| 0 <= k < roots@.len() && !flow@.graph.has_node(#[trigger] roots@[k])) ==> r
                == Err::<Vec<NodeId>, RcErr>(RcErr::NodeNotFound),
            (forall|k: int| 0 <= k < roots@.len() ==> flow@.graph.has_node(#[trigger] roots@[k])) ==> (r matches Ok(
                order,
            ) && is_topological_up_to_cycles(flow@.graph, order@) && forall|x: NodeId| #[trigger] order@.contains(x)
                <==> reachable_from(flow@.graph, roots@.to_set()).contains(x)),
            roots@.len() == 1 && flow@.graph.has_node(roots@[0]) ==> (r matches Ok(order) && order@.len() > 0
                && order@[0] == roots@[0]),
    {
        let ghost g = flow@.graph;
        let ghost rs = roots@.to_set();
        proof {
            flow.lemma_wf_inv();
        }
        let mut k: usize = 0;
        while k < roots.len()
            invariant
                k <= roots@.len(),
                forall|m: int| 0 <= m < k ==> g.has_node(#[trigger] roots@[m]),
                g == flow@.graph,
                flow.wf(),
            decreases roots@.len() - k,
        {
            if !flow.has_node(roots[k]) {
                return Err(RcErr::NodeNotFound);
            }
            k = k + 1;
        }
        let bound = flow.id_bound();
        let mut done: Vec<bool> = Vec::new();
        let mut curr: Vec<bool> = Vec::new();
        let mut i: usize = 0;
        while i < bound
            invariant
                flow.wf(),
                g == flow@.graph,
                g.inv(),
                bound == g.next_id,
                i <= bound,
                done@.len() == i,
                curr@.len() == i,
                forall|m: int| 0 <= m < i ==> !(#[trigger] done@[m]),
                forall|m: int| 0 <= m < i ==> !(#[trigger] curr@[m]),
            decreases bound - i,
        {
            done.push(false);
            curr.push(false);
            i = i + 1;
        }
        let mut res: Vec<NodeId> = Vec::new();
        proof {
            assert(res@.len() == 0);
            assert forall|x: NodeId| !#[trigger] marked(done@, x) by {
                if (x.0 as int) < done@.len() {
                    assert(!done@[x.0 as int]);
                }
            }
            assert forall|x: NodeId| !#[trigger] marked(curr@, x) by {
                if (x.0 as int) < curr@.len() {
                    assert(!curr@[x.0 as int]);
                }
            }
            assert(dfs_inv(g, rs, done@, curr@, res@, Seq::empty()));
            assert forall|x: NodeId| !#[trigger] marked(done@, x) && !marked(curr@, x) by {
                assert(!marked(curr@, x));
            }
        }
        let mut k: usize = 0;
        while k < roots.len()
            invariant
                flow.wf(),
                g == flow@.graph,
                g.inv(),
                rs == roots@.to_set(),
                k <= roots@.len(),
                forall|m: int| 0 <= m < roots@.len() ==> g.has_node(#[trigger] roots@[m]),
                dfs_inv(g, rs, done@, curr@, res@, Seq::empty()),
                forall|m: int| 0 <= m < k ==> marked(done@, #[trigger] roots@[m]),
                k == 0 ==> forall|x: NodeId| !#[trigger] marked(done@, x) && !marked(curr@, x),
                roots@.len() == 1 && k == 1 ==> res@.len() > 0 && res@.last() == roots@[0],
            decreases roots@.len() - k,
        {
            let s = roots[k];
            proof {
                assert(rs.contains(s));
                lemma_reaches_refl(g, s);
                assert(reachable_from(g, rs).contains(s));
            }
            let ghost done_before = done@;
            proof {
                if k == 0 {
                    assert(!marked(done@, s) && !marked(curr@, s));
                }
            }
            visit(s, &mut done, &mut curr, &mut res, Ghost(Seq::empty()), Ghost(rs), flow);
            proof {
                assert forall|m: int| 0 <= m < k + 1 implies marked(done@, #[trigger] roots@[m]) by {
                    if m < k {
                        assert(marked(done_before, roots@[m]));
                    }
                }
            }
            k = k + 1;
        }
        // reverse the post-order
        let mut order: Vec<NodeId> = Vec::new();
        let mut m: usize = res.len();
        while m > 0
            invariant
                m <= res@.len(),
                order@.len() == res@.len() - m,
                forall|j: int| 0 <= j < order@.len() ==> #[trigger] order@[j] == res@[res@.len() - 1 - j],
            decreases m,
        {
            m = m - 1;
            order.push(res[m]);
        }
        proof {
            let l = res@.len() as int;
            if roots@.len() == 1 {
                assert(order@[0] == res@[l - 1]);
            }
            let ds = Set::new(|x: NodeId| marked(done@, x));
            assert forall|x: NodeId| #[trigger] order@.contains(x) <==> res@.contains(x) by {
                if order@.contains(x) {
                    let j = choose|j: int| 0 <= j < order@.len() && order@[j] == x;
                    assert(res@[l - 1 - j] == x);
                }
                if res@.contains(x) {
                    let j = choose|j: int| 0 <= j < l && res@[j] == x;
                    assert(order@[l - 1 - j] == x);
                }
            }
            assert forall|x: NodeId| #[trigger] order@.contains(x) <==> reachable_from(g, rs).contains(x) by {
                if reachable_from(g, rs).contains(x) {
                    let s = choose|s: NodeId| rs.contains(s) && #[trigger] reaches(g, s, x);
                    let km = choose|km: int| 0 <= km < roots@.len() && roots@[km] == s;
                    assert(marked(done@, roots@[km]));
                    assert forall|a: NodeId, b: NodeId| ds.contains(a) && #[trigger] g.node_succ(a).contains(b)
                        implies ds.contains(b) by {
                        assert(marked(done@, a));
                        assert(!Seq::<NodeId>::empty().contains(b));
                    }
                    lemma_closed_holds_reached(g, ds, s, x);
                }
                if res@.contains(x) {
                    let j = choose|j: int| 0 <= j < l && res@[j] == x;
                    assert(marked(done@, res@[j]));
                }
            }
            assert(order@.no_duplicates()) by {
                assert forall|a: int, b: int| 0 <= a < order@.len() && 0 <= b < order@.len() && a != b implies order@[a]
                    != order@[b] by {
                    assert(res@[l - 1 - a] != res@[l - 1 - b]);
                }
            }
            assert forall|j: int, k: int|
                0 <= j < order@.len() && 0 <= k < order@.len() && #[trigger] g.node_succ(order@[j]).contains(
                    #[trigger] order@[k],
                ) implies j < k || reaches(g, order@[k], order@[j]) by {
                let jr = l - 1 - j;
                let y = order@[k];
                assert(g.node_succ(res@[jr]).contains(y));
                if exists|mm: int| 0 <= mm < jr && #[trigger] res@[mm] == y {
                    let mm = choose|mm: int| 0 <= mm < jr && #[trigger] res@[mm] == y;
                    assert(res@[l - 1 - k] == y);
                    assert(mm == l - 1 - k);
                }
            }
        }
        Ok(order)
    }
}


/// `order` lists each node once and every edge between two of its nodes goes forward.
pub open spec fn is_topological(g: GraphView, order: Seq<NodeId>) -> bool {
    &&& order.no_duplicates()
    &&& forall|j: int, k: int|
        0 <= j < order.len() && 0 <= k < order.len() && #[trigger] g.node_succ(order[j]).contains(#[trigger] order[k])
            ==> j < k
}

/// The log of updates is consistent with scheduling: it starts with the
/// seed, and every later update was scheduled by an earlier push.
pub open spec fn log_ok(g: GraphView, n: NodeId, log: Seq<(NodeId, Seq<usize>)>) -> bool {
    &&& log.len() > 0 ==> log[0].0 == n
    &&& forall|v: int| 0 < v < log.len() ==> scheduled_before(g, log, v, #[trigger] log[v].0)
}

/// The queued nodes are the seed before any update, or were scheduled by a
/// push; every node a push scheduled was updated later or is still queued.
#[verifier::opaque]
spec fn pending_ok(g: GraphView, n: NodeId, log: Seq<(NodeId, Seq<usize>)>, pending: Set<NodeId>) -> bool {
    &&& forall|y: NodeId| #[trigger] pending.contains(y) ==> (log.len() == 0 && y == n)
        || scheduled_before(g, log, log.len() as int, y)
    &&& forall|u: int, k: int, y: NodeId|
        0 <= u < log.len() && 0 <= k < log[u].1.len() && #[trigger] push_targets(g, log, u, k).contains(y)
            ==> (exists|v: int| u < v < log.len() && #[trigger] log[v].0 == y) || pending.contains(y)
}

/// Output `o` is one that some update of `log` pushed to.
pub open spec fn pushed_at(log: Seq<(NodeId, Seq<usize>)>, o: NodePortAlias) -> bool {
    exists|u: int, k: int| 0 <= u < log.len() && 0 <= k < log[u].1.len() && o == (log[u].0, Direction::Out, #[trigger] log[u].1[k])
}

/// Every output recorded as pushed to in `log` is an output of `g`.
pub open spec fn pushes_valid(g: GraphView, log: Seq<(NodeId, Seq<usize>)>) -> bool {
    forall|u: int, k: int| 0 <= u < log.len() && 0 <= k < log[u].1.len() ==> g.has_output(
        (log[u].0, Direction::Out, #[trigger] log[u].1[k]),
    )
}

/// From `before` to `after`, latched values changed only at outputs pushed to in `log`.
pub open spec fn changed_only_at_pushes<T>(
    before: Map<NodePortAlias, Option<Rc<T>>>,
    after: Map<NodePortAlias, Option<Rc<T>>>,
    log: Seq<(NodeId, Seq<usize>)>,
) -> bool {
    forall|o: NodePortAlias| #[trigger] before.contains_key(o) && after[o] != before[o] ==> pushed_at(log, o)
}

/// Every output pushed to in `log` holds a value.
pub open spec fn pushes_latched<T>(values: Map<NodePortAlias, Option<Rc<T>>>, log: Seq<(NodeId, Seq<usize>)>) -> bool {
    forall|u: int, k: int| 0 <= u < log.len() && 0 <= k < log[u].1.len() ==> (#[trigger] values[
        (log[u].0, Direction::Out, log[u].1[k])]) is Some
}

/// One update, of node `x` pushing to `ps`, keeps the value facts of the log.
proof fn lemma_values_step<T>(
    g: GraphView,
    v0: Map<NodePortAlias, Option<Rc<T>>>,
    before: Map<NodePortAlias, Option<Rc<T>>>,
    after: Map<NodePortAlias, Option<Rc<T>>>,
    log0: Seq<(NodeId, Seq<usize>)>,
    x: NodeId,
    ps: Seq<usize>,
    ok: bool,
)
    requires
        forall|o: NodePortAlias| #[trigger] before.contains_key(o) <==> g.has_output(o),
        v0.dom() == before.dom(),
        pushes_valid(g, log0),
        changed_only_at_pushes(v0, before, log0),
        forall|k: int| 0 <= k < ps.len() ==> g.has_output((x, Direction::Out, #[trigger] ps[k])),
        forall|o: NodePortAlias| #[trigger] before.contains_key(o) && after[o] != before[o] ==> exists|k: int|
            0 <= k < ps.len() && o == (x, Direction::Out, #[trigger] ps[k]),
        forall|o: NodePortAlias| #[trigger] before.contains_key(o) && before[o] is Some ==> after[o] is Some,
        ok ==> pushes_latched(before, log0),
        ok ==> forall|k: int| 0 <= k < ps.len() ==> (#[trigger] after[(x, Direction::Out, ps[k])]) is Some,
    ensures
        pushes_valid(g, log0.push((x, ps))),
        changed_only_at_pushes(v0, after, log0.push((x, ps))),
        ok ==> pushes_latched(after, log0.push((x, ps))),
{
    let lg = log0.push((x, ps));
    assert forall|u: int, k: int| 0 <= u < lg.len() && 0 <= k < lg[u].1.len() implies g.has_output(
        (lg[u].0, Direction::Out, #[trigger] lg[u].1[k])) by {
        if u < log0.len() {
            assert(lg[u] == log0[u]);
        }
    }
    assert forall|o: NodePortAlias| #[trigger] v0.contains_key(o) && after[o] != v0[o] implies pushed_at(lg, o) by {
        if after[o] != before[o] {
            let k = choose|k: int| 0 <= k < ps.len() && o == (x, Direction::Out, #[trigger] ps[k]);
            assert(lg[log0.len() as int] == (x, ps));
            assert(o == (lg[log0.len() as int].0, Direction::Out, lg[log0.len() as int].1[k]));
        } else {
            assert(pushed_at(log0, o));
            let (u, k) = choose|u: int, k: int| 0 <= u < log0.len() && 0 <= k < log0[u].1.len()
                && o == (log0[u].0, Direction::Out, #[trigger] log0[u].1[k]);
            assert(lg[u] == log0[u]);
            assert(o == (lg[u].0, Direction::Out, lg[u].1[k]));
        }
    }
    if ok {
        assert forall|u: int, k: int| 0 <= u < lg.len() && 0 <= k < lg[u].1.len() implies (#[trigger] after[
            (lg[u].0, Direction::Out, lg[u].1[k])]) is Some by {
            if u < log0.len() {
                assert(lg[u] == log0[u]);
                let o = (log0[u].0, Direction::Out, log0[u].1[k]);
                assert(g.has_output(o));
                assert(before.contains_key(o));
                assert(before[o] is Some);
            } else {
                assert(lg[u] == (x, ps));
                assert(lg[u].1[k] == ps[k]);
                assert(after[(x, Direction::Out, ps[k])] is Some);
            }
        }
    }
}

/// In a run recorded by `log` from seed `n`, a node other than the seed
/// whose connected inputs are all inactive is never updated, and its
/// outputs keep the values they had before the run.
pub proof fn lemma_unfed_node_untouched<T>(
    g: GraphView,
    n: NodeId,
    log: Seq<(NodeId, Seq<usize>)>,
    before: Map<NodePortAlias, Option<Rc<T>>>,
    after: Map<NodePortAlias, Option<Rc<T>>>,
    m: NodeId,
)
    requires
        g.inv(),
        log_ok(g, n, log),
        pushes_valid(g, log),
        changed_only_at_pushes(before, after, log),
        m != n,
        forall|i: NodePortAlias| #[trigger] g.has_input(i) && i.0 == m && g.port_pred[i] is Some
            ==> g.input_state(i) == InputState::Inactive,
    ensures
        forall|v: int| 0 <= v < log.len() ==> (#[trigger] log[v]).0 != m,
        forall|p: usize| #[trigger] before.contains_key((m, Direction::Out, p)) ==> after[(m, Direction::Out, p)]
            == before[(m, Direction::Out, p)],
{
    assert forall|v: int| 0 <= v < log.len() implies (#[trigger] log[v]).0 != m by {
        if log[v].0 == m {
            assert(v != 0);
            let (u, k) = choose|u: int, k: int| 0 <= u < v && 0 <= k < log[u].1.len()
                && #[trigger] push_targets(g, log, u, k).contains(log[v].0);
            let o = (log[u].0, Direction::Out, log[u].1[k]);
            assert(g.has_output(o));
            let i = choose|i: NodePortAlias| i.0 == m && #[trigger] g.port_succ[o].contains(i) && (!true
                || g.input_state(i) == InputState::Active);
            assert(g.has_edge(o, i));
            assert(g.has_input(i));
        }
    }
    assert forall|p: usize| #[trigger] before.contains_key((m, Direction::Out, p)) implies after[(m, Direction::Out, p)]
        == before[(m, Direction::Out, p)] by {
        let o = (m, Direction::Out, p);
        if after[o] != before[o] {
            assert(pushed_at(log, o));
            let (u, k) = choose|u: int, k: int| 0 <= u < log.len() && 0 <= k < log[u].1.len()
                && o == (log[u].0, Direction::Out, #[trigger] log[u].1[k]);
            assert(log[u].0 != m);
        }
    }
}

/// Appending an update of a node that was queued keeps the log consistent.
proof fn lemma_log_extend(
    g: GraphView,
    n: NodeId,
    log0: Seq<(NodeId, Seq<usize>)>,
    pending0: Set<NodeId>,
    x: NodeId,
    ports: Seq<usize>,
)
    requires
        log_ok(g, n, log0),
        pending_ok(g, n, log0, pending0),
        pending0.contains(x),
    ensures
        log_ok(g, n, log0.push((x, ports))),
{
    reveal(pending_ok);
    let lg = log0.push((x, ports));
    let len0 = log0.len() as int;
    assert forall|u: int, k: int| 0 <= u < len0 && 0 <= k < lg[u].1.len()
        implies #[trigger] push_targets(g, lg, u, k) == push_targets(g, log0, u, k) by {
        assert(lg[u] == log0[u]);
    }
    assert forall|v: int| 0 < v < lg.len() implies scheduled_before(g, lg, v, #[trigger] lg[v].0) by {
        if v < len0 {
            assert(lg[v] == log0[v]);
            let (u, k) = choose|u: int, k: int| 0 <= u < v && 0 <= k < log0[u].1.len()
                && #[trigger] push_targets(g, log0, u, k).contains(log0[v].0);
            assert(push_targets(g, lg, u, k).contains(lg[v].0));
        } else {
            let (u, k) = choose|u: int, k: int| 0 <= u < len0 && 0 <= k < log0[u].1.len()
                && #[trigger] push_targets(g, log0, u, k).contains(x);
            assert(push_targets(g, lg, u, k).contains(lg[v].0));
        }
    }
    if len0 == 0 {
        assert(lg[0].0 == x);
    }
}

/// A sequence without duplicates whose elements form the set `{n}` is `[n]`.
proof fn lemma_single_element(s: Seq<NodeId>, n: NodeId)
    requires
        s.no_duplicates(),
        s.to_set() == Set::<NodeId>::empty().insert(n),
    ensures
        s.len() == 1,
        s[0] == n,
{
    s.unique_seq_to_set();
    assert(Set::<NodeId>::empty().insert(n).len() == 1);
    assert(s.to_set().contains(s[0]));
}

/// The nodes scheduled by a push on output `o` are successors of its node.
proof fn lemma_targets_are_succs(g: GraphView, o: NodePortAlias, b: NodeId)
    requires
        g.inv(),
        g.has_output(o),
        g.port_targets(o, true).contains(b),
    ensures
        g.node_succ(o.0).contains(b),
{
    let i = choose|i: NodePortAlias| i.0 == b && #[trigger] g.port_succ[o].contains(i) && (!true || g.input_state(i)
        == InputState::Active);
    assert(g.has_edge(o, i));
}

/// A subsequence, taken at increasing positions, of an order that is
/// topological up to cycles, is topological in an acyclic graph.
proof fn lemma_pass_topological(g: GraphView, m: Seq<NodeId>, pass: Seq<NodeId>, pidx: Seq<int>)
    requires
        is_dag(g),
        is_topological_up_to_cycles(g, m),
        pass.len() == pidx.len(),
        forall|j: int| 0 <= j < pass.len() ==> 0 <= #[trigger] pidx[j] < m.len() && m[pidx[j]] == pass[j],
        forall|j: int, k: int| 0 <= j < k < pass.len() ==> #[trigger] pidx[j] < #[trigger] pidx[k],
    ensures
        is_topological(g, pass),
{
    assert forall|a: int, b: int| 0 <= a < pass.len() && 0 <= b < pass.len() && a != b implies pass[a] != pass[b] by {
        if a < b {
            assert(pidx[a] < pidx[b]);
        } else {
            assert(pidx[b] < pidx[a]);
        }
        assert(m[pidx[a]] != m[pidx[b]]);
    }
    assert forall|j: int, k: int|
        0 <= j < pass.len() && 0 <= k < pass.len() && #[trigger] g.node_succ(pass[j]).contains(#[trigger] pass[k])
            implies j < k by {
        let a = pidx[j];
        let b = pidx[k];
        assert(g.node_succ(m[a]).contains(m[b]));
        assert(!reaches(g, pass[k], pass[j]));
        assert(a < b);
        if k <= j {
            if k < j {
                assert(pidx[k] < pidx[j]);
            }
        }
    }
}

impl TopoWithLoops {
    /// The nodes that receive data from what node `n` pushed during its
    /// update in `env`, through active inputs. Fails with `InvalidPort` if
    /// the node pushed to an output it does not have.
    pub fn successor_nodes<T, N>(&self, flow: &Flow<T, N>, n: NodeId, env: &NodeInvocationEnv<T>) -> (r: RcRes<Vec<NodeId>>)
        requires
            flow.wf(),
        ensures
            (exists|k: int| 0 <= k < env.updates().len() && !flow@.graph.has_output(
                (n, Direction::Out, (#[trigger] env.updates()[k]).0),
            )) ==> r == Err::<Vec<NodeId>, RcErr>(RcErr::InvalidPort),
            (forall|k: int| 0 <= k < env.updates().len() ==> flow@.graph.has_output(
                (n, Direction::Out, (#[trigger] env.updates()[k]).0),
            )) ==> (r matches Ok(v) && v@.no_duplicates() && forall|b: NodeId| #[trigger] v@.contains(b) <==> exists|k: int|
                0 <= k < env.updates().len() && flow@.graph.port_targets(
                    (n, Direction::Out, (#[trigger] env.updates()[k]).0),
                    true,
                ).contains(b)),
    {
        let updates = env.get_updates();
        let mut ports: Vec<NodePortAlias> = Vec::new();
        let mut k: usize = 0;
        while k < updates.len()
            invariant
                updates@ == env.updates(),
                k <= updates@.len(),
                ports@.len() == k,
                forall|j: int| 0 <= j < k ==> #[trigger] ports@[j] == (n, Direction::Out, updates@[j].0),
            decreases updates@.len() - k,
        {
            ports.push((n, Direction::Out, updates[k].0));
            k = k + 1;
        }
        let ghost ps = ports@;
        let r = flow.succ_nodes_of_ports(ports, true);
        proof {
            if exists|k: int| 0 <= k < env.updates().len() && !flow@.graph.has_output(
                (n, Direction::Out, (#[trigger] env.updates()[k]).0)) {
                let k = choose|k: int| 0 <= k < env.updates().len() && !flow@.graph.has_output(
                    (n, Direction::Out, (#[trigger] env.updates()[k]).0));
                assert(!flow@.graph.has_output(ps[k]));
            }
            if r is Ok {
                let v = r->Ok_0;
                assert forall|b: NodeId| #[trigger] v@.contains(b) <==> exists|k: int|
                    0 <= k < env.updates().len() && flow@.graph.port_targets(
                        (n, Direction::Out, (#[trigger] env.updates()[k]).0), true).contains(b) by {
                    if v@.contains(b) {
                        let k = choose|k: int| 0 <= k < ps.len() && flow@.graph.port_targets(#[trigger] ps[k], true).contains(b);
                        assert(ps[k] == (n, Direction::Out, env.updates()[k].0));
                    }
                    if exists|k: int| 0 <= k < env.updates().len() && flow@.graph.port_targets(
                        (n, Direction::Out, (#[trigger] env.updates()[k]).0), true).contains(b) {
                        let k = choose|k: int| 0 <= k < env.updates().len() && flow@.graph.port_targets(
                            (n, Direction::Out, (#[trigger] env.updates()[k]).0), true).contains(b);
                        assert(flow@.graph.port_targets(ps[k], true).contains(b));
                    }
                }
            } else {
                assert(!(forall|k: int| 0 <= k < ps.len() ==> flow@.graph.has_output(#[trigger] ps[k])));
                let k = choose|k: int| 0 <= k < ps.len() && !flow@.graph.has_output(#[trigger] ps[k]);
                assert(ps[k] == (n, Direction::Out, env.updates()[k].0));
            }
        }
        r
    }
}

impl<T, N: Node<T>> Executor<T, N> for TopoWithLoops {
    /// Starts with `n` and propagates: a node that pushes data on an output
    /// has every node fed by it through an active input updated later in the
    /// same invocation. Each pass orders the nodes still owed an update
    /// topologically, ignoring edges that close a cycle, and updates each at
    /// most once; nodes scheduled behind the current position wait for the
    /// next pass. Termination on cyclic graphs is up to the nodes: an
    /// invocation that would need more passes than a `usize` counts fails
    /// with `Generic`. Fails with `NodeNotFound`, changing nothing, if `n` is
    /// not in the flow; with the first error of a node update; or with
    /// `InvalidPort` if a node pushed to an output it does not have. Values
    /// latched before a failure stay.
    #[verifier::loop_isolation(false)]
    fn invoke(&mut self, flow: &mut Flow<T, N>, n: NodeId) -> (r: RcRes<()>)
        ensures
            !old(flow)@.graph.has_node(n) ==> r == Err::<(), RcErr>(RcErr::NodeNotFound) && final(flow)@ == old(
                flow,
            )@,
            forall|p: int| 0 <= p < final(self).passes().len() ==> (#[trigger] final(self).passes()[p]).no_duplicates(),
            forall|p: int, k: int| 0 <= p < final(self).passes().len() && 0 <= k < final(self).passes()[p].len()
                ==> old(flow)@.graph.has_node(#[trigger] final(self).passes()[p][k]),
            updated_nodes(final(self).updates()) == final(self).passes().flatten(),
            r is Ok ==> final(self).passes().len() >= 1 && final(self).passes()[0].len() >= 1
                && final(self).passes()[0][0] == n,
            log_ok(old(flow)@.graph, n, final(self).updates()),
            r is Ok ==> forall|u: int, k: int, y: NodeId|
                0 <= u < final(self).updates().len() && 0 <= k < final(self).updates()[u].1.len()
                    && #[trigger] push_targets(old(flow)@.graph, final(self).updates(), u, k).contains(y)
                    ==> exists|v: int| u < v < final(self).updates().len() && #[trigger] final(self).updates()[v].0 == y,
            is_dag(old(flow)@.graph) ==> final(self).passes().len() <= 1 && (final(self).passes().len() == 1
                ==> is_topological(old(flow)@.graph, final(self).passes()[0])),
            r is Ok && is_dag(old(flow)@.graph) ==> final(self).passes().len() == 1,
            pushes_valid(old(flow)@.graph, final(self).updates()),
            changed_only_at_pushes(old(flow)@.values, final(flow)@.values, final(self).updates()),
            r is Ok ==> pushes_latched(final(flow)@.values, final(self).updates()),
    {
        let ghost g0 = flow@.graph;
        let ghost v0 = flow@.values;
        proof {
            flow.lemma_wf_inv();
        }
        self.passes = Ghost(Seq::empty());
        self.log = Ghost(Seq::empty());
        if !flow.has_node(n) {
            return Err(RcErr::NodeNotFound);
        }
        let mut q = OrderedMaskedQueue::new();
        q.enqueue(n);
        let mut n_passes: usize = 0;
        proof {
            reveal(pending_ok);
            assert(flow@.values.dom() =~= v0.dom());
        }
        while !q.is_empty()
            invariant
                flow.wf(),
                flow@.graph == g0,
                g0.inv(),
                g0.has_node(n),
                q.wf(),
                n_passes <= self.passes@.len() + 1,
                n_passes == 0 ==> q.pending() == Set::<NodeId>::empty().insert(n) && self.log@.len() == 0
                    && self.passes@.len() == 0,
                forall|p: int| 0 <= p < self.passes@.len() ==> (#[trigger] self.passes@[p]).no_duplicates(),
                forall|p: int, k: int| 0 <= p < self.passes@.len() && 0 <= k < self.passes@[p].len()
                    ==> g0.has_node(#[trigger] self.passes@[p][k]),
                is_dag(g0) && n_passes > 0 ==> n_passes == 1 && self.passes@.len() == 1
                    && q.pending() == Set::<NodeId>::empty() && is_topological(g0, self.passes@[0]),
                n_passes > 0 ==> self.passes@.len() > 0 && self.passes@[0].len() > 0 && self.passes@[0][0] == n,
                log_ok(g0, n, self.log@),
                pending_ok(g0, n, self.log@, q.pending()),
                updated_nodes(self.log@) == self.passes@.flatten(),
                flow@.values.dom() == v0.dom(),
                pushes_valid(g0, self.log@),
                changed_only_at_pushes(v0, flow@.values, self.log@),
                pushes_latched(flow@.values, self.log@),
            decreases usize::MAX - n_passes,
        {
            if n_passes == usize::MAX {
                return Err(RcErr::Generic);
            }
            n_passes = n_passes + 1;
            let ghost passes_before = self.passes@;
            let res = self.run_pass(flow, &mut q, Ghost(n), Ghost(n_passes == 1), Ghost(v0));
            proof {
                if self.passes@.len() == passes_before.len() + 1 {
                    assert forall|p: int| 0 <= p < self.passes@.len() implies (#[trigger] self.passes@[p]).no_duplicates() by {
                        if p < passes_before.len() {
                            assert(self.passes@[p] == passes_before[p]);
                        }
                    }
                    assert forall|p: int, k: int| 0 <= p < self.passes@.len() && 0 <= k < self.passes@[p].len()
                        implies g0.has_node(#[trigger] self.passes@[p][k]) by {
                        if p < passes_before.len() {
                            assert(self.passes@[p] == passes_before[p]);
                        }
                    }
                    if passes_before.len() > 0 {
                        assert(self.passes@[0] == passes_before[0]);
                    }
                }
            }
            match res {
                Ok(()) => {},
                Err(e) => {
                    return Err(e);
                },
            }
        }
        proof {
            if n_passes == 0 {
                assert(q.pending().contains(n));
            }
            reveal(pending_ok);
        }
        Ok(())
    }
}

impl TopoWithLoops {
    /// One pass: orders the queued nodes and what they reach topologically,
    /// ignoring edges that close a cycle, then updates the queued nodes in
    /// that order, each at most once, queuing what their pushes schedule.
    /// The nodes updated are recorded as a new pass, also when an update fails.
    #[verifier::loop_isolation(false)]
    #[verifier::spinoff_prover]
    #[verifier::rlimit(50)]
    fn run_pass<T, N: Node<T>>(
        &mut self,
        flow: &mut Flow<T, N>,
        q: &mut OrderedMaskedQueue,
        Ghost(n): Ghost<NodeId>,
        Ghost(first): Ghost<bool>,
        Ghost(v0): Ghost<Map<NodePortAlias, Option<Rc<T>>>>,
    ) -> (r: RcRes<()>)
        requires
            old(flow).wf(),
            old(q).wf(),
            !old(q).pending().is_empty(),
            first ==> old(q).pending() == Set::<NodeId>::empty().insert(n) && old(self).log@.len() == 0
                && old(self).passes@.len() == 0,
            log_ok(old(flow)@.graph, n, old(self).log@),
            pending_ok(old(flow)@.graph, n, old(self).log@, old(q).pending()),
            updated_nodes(old(self).log@) == old(self).passes@.flatten(),
            old(flow)@.values.dom() == v0.dom(),
            pushes_valid(old(flow)@.graph, old(self).log@),
            changed_only_at_pushes(v0, old(flow)@.values, old(self).log@),
            pushes_latched(old(flow)@.values, old(self).log@),
        ensures
            final(flow).wf(),
            final(flow)@.graph == old(flow)@.graph,
            final(q).wf(),
            final(self).passes@ == old(self).passes@ || final(self).passes@ == old(self).passes@.push(
                final(self).passes@.last(),
            ),
            r is Ok ==> final(self).passes@.len() == old(self).passes@.len() + 1,
            final(self).passes@.len() == old(self).passes@.len() + 1 ==> ({
                let p = final(self).passes@.last();
                &&& p.no_duplicates()
                &&& forall|k: int| 0 <= k < p.len() ==> old(flow)@.graph.has_node(#[trigger] p[k])
                &&& is_dag(old(flow)@.graph) ==> is_topological(old(flow)@.graph, p)
                &&& first ==> p.len() > 0 && p[0] == n
            }),
            is_dag(old(flow)@.graph) && r is Ok ==> final(q).pending() == Set::<NodeId>::empty(),
            log_ok(old(flow)@.graph, n, final(self).log@),
            r is Ok ==> pending_ok(old(flow)@.graph, n, final(self).log@, final(q).pending()),
            updated_nodes(final(self).log@) == final(self).passes@.flatten(),
            final(flow)@.values.dom() == v0.dom(),
            pushes_valid(old(flow)@.graph, final(self).log@),
            changed_only_at_pushes(v0, final(flow)@.values, final(self).log@),
            r is Ok ==> pushes_latched(final(flow)@.values, final(self).log@),
    {
        let ghost g0 = flow@.graph;
        proof {
            flow.lemma_wf_inv();
        }
        let queued = q.queued();
        proof {
            if first {
                lemma_single_element(queued@, n);
            }
        }
        let mask = self.topo(queued, flow)?;
        let ghost m = mask@;
        proof {
            assert forall|x: NodeId| #[trigger] q.pending().contains(x) implies m.contains(x) by {
                assert(queued@.to_set().contains(x));
                lemma_reaches_refl(g0, x);
                assert(reachable_from(g0, queued@.to_set()).contains(x));
            }
            assert forall|a: NodeId, b: NodeId| m.contains(a) && #[trigger] g0.node_succ(a).contains(b) implies m.contains(b) by {
                let s = choose|s: NodeId| queued@.to_set().contains(s) && #[trigger] reaches(g0, s, a);
                lemma_reaches_step(g0, s, a, b);
                assert(reachable_from(g0, queued@.to_set()).contains(b));
            }
            assert forall|k: int| 0 <= k < m.len() implies g0.has_node(#[trigger] m[k]) by {
                assert(m.contains(m[k]));
                assert(reachable_from(g0, queued@.to_set()).contains(m[k]));
                let s = choose|s: NodeId| queued@.to_set().contains(s) && #[trigger] reaches(g0, s, m[k]);
                let qi = choose|qi: int| 0 <= qi < queued@.len() && queued@[qi] == s;
                assert(g0.has_node(queued@[qi]));
                lemma_reached_is_node(g0, s, m[k]);
            }
        }
        q.set_mask(mask);
        let ghost mut c: int = 0;
        let ghost mut pass: Seq<NodeId> = Seq::empty();
        let ghost mut pidx: Seq<int> = Seq::empty();
        let ghost passes0 = self.passes@;
        assert(passes0.flatten() + pass =~= passes0.flatten());
        loop
            invariant
                self.passes@ == passes0,
                q.order() == m.skip(c),
                flow.wf(),
                flow@.graph == g0,
                g0.inv(),
                q.wf(),
                is_topological_up_to_cycles(g0, m),
                forall|a: NodeId, b: NodeId| m.contains(a) && #[trigger] g0.node_succ(a).contains(b) ==> m.contains(b),
                forall|k: int| 0 <= k < m.len() ==> g0.has_node(#[trigger] m[k]),
                0 <= c <= m.len(),
                pass.len() == pidx.len(),
                forall|j: int| 0 <= j < pass.len() ==> 0 <= #[trigger] pidx[j] < c && m[pidx[j]] == pass[j],
                forall|j: int, k: int| 0 <= j < k < pass.len() ==> #[trigger] pidx[j] < #[trigger] pidx[k],
                is_dag(g0) ==> forall|x: NodeId| #[trigger] q.pending().contains(x) ==> q.order().contains(x),
                first && pass.len() == 0 ==> c == 0 && m.len() > 0 && m[0] == n && q.pending().contains(n),
                first && pass.len() > 0 ==> pass[0] == n,
                log_ok(g0, n, self.log@),
                pending_ok(g0, n, self.log@, q.pending()),
                updated_nodes(self.log@) == passes0.flatten() + pass,
                flow@.values.dom() == v0.dom(),
                pushes_valid(g0, self.log@),
                changed_only_at_pushes(v0, flow@.values, self.log@),
                pushes_latched(flow@.values, self.log@),
            decreases q.order().len(),
        {
            let ghost before = *q;
            let ghost pass_head = pass;
            let x = match q.dequeue() {
                Some(x) => x,
                None => {
                    proof {
                        if first && pass.len() == 0 {
                            assert(before.order()[0] == n);
                        }
                        if is_dag(g0) {
                            assert forall|y: NodeId| !#[trigger] q.pending().contains(y) by {
                                if q.pending().contains(y) {
                                    assert(before.order().contains(y));
                                    let j = choose|j: int| 0 <= j < before.order().len() && before.order()[j] == y;
                                }
                            }
                            assert(q.pending() =~= Set::<NodeId>::empty());
                        }
                        c = m.len() as int;
                        assert(q.order() =~= m.skip(c));
                        assert(first ==> pass.len() > 0 && pass[0] == n);
                    }
                    break;
                },
            };
            let ghost k = choose|k: int|
                0 <= k < before.order().len() && before.order()[k] == x && before.pending().contains(x)
                    && (forall|j: int| 0 <= j < k ==> !before.pending().contains(#[trigger] before.order()[j]))
                    && q.order() == before.order().skip(k + 1) && q.pending() == before.pending().remove(x);
            proof {
                assert(m[c + k] == x);
                if first && pass.len() == 0 {
                    assert(before.order()[0] == n);
                    if k > 0 {
                        assert(!before.pending().contains(before.order()[0]));
                    }
                }
                pass = pass.push(x);
                pidx = pidx.push(c + k);
                c = c + k + 1;
                assert(q.order() =~= m.skip(c));
                if is_dag(g0) {
                    assert forall|y: NodeId| #[trigger] q.pending().contains(y) implies q.order().contains(y) by {
                        assert(before.order().contains(y));
                        let j = choose|j: int| 0 <= j < before.order().len() && before.order()[j] == y;
                        assert(j > k);
                        assert(q.order()[j - k - 1] == y);
                    }
                }
            }
            let ghost q_mid = *q;
            let ghost log_mid = self.log@;
            let ghost vals_mid = flow@.values;
            let res = self.update_and_schedule(flow, q, x, Ghost(n), Ghost(before.pending()));
            proof {
                assert(updated_nodes(self.log@) =~= updated_nodes(log_mid).push(x));
                assert(passes0.flatten() + pass =~= (passes0.flatten() + pass_head).push(x));
                flow.lemma_wf_inv();
                assert(flow@.values.dom() =~= v0.dom());
                lemma_values_step(g0, v0, vals_mid, flow@.values, log_mid, x, self.log@.last().1, res is Ok);
                assert(self.log@ == log_mid.push((x, self.log@.last().1)));
            }
            match res {
                Ok(()) => {},
                Err(e) => {
                    proof {
                        self.lemma_close_pass(g0, m, pass, pidx, passes0, n, first);
                    }
                    self.passes = Ghost(passes0.push(pass));
                    proof {
                        passes0.lemma_flatten_push(pass);
                    }
                    return Err(e);
                },
            }
            proof {
                assert(m[c - 1] == x);
                if is_dag(g0) {
                    assert forall|y: NodeId| #[trigger] q.pending().contains(y) implies q.order().contains(y) by {
                        if !q_mid.pending().contains(y) {
                            assert(g0.node_succ(x).contains(y));
                            assert(m.contains(x));
                            assert(m.contains(y));
                            let ib = choose|ib: int| 0 <= ib < m.len() && m[ib] == y;
                            assert(g0.node_succ(m[c - 1]).contains(m[ib]));
                            assert(!reaches(g0, y, x));
                            assert(c - 1 < ib);
                            assert(q.order()[ib - c] == y);
                        }
                    }
                }
            }
        }
        proof {
            self.lemma_close_pass(g0, m, pass, pidx, passes0, n, first);
        }
        self.passes = Ghost(passes0.push(pass));
        proof {
            passes0.lemma_flatten_push(pass);
        }
        Ok(())
    }

    /// The nodes updated so far in a pass form a valid pass record.
    proof fn lemma_close_pass(
        &self,
        g: GraphView,
        m: Seq<NodeId>,
        pass: Seq<NodeId>,
        pidx: Seq<int>,
        passes0: Seq<Seq<NodeId>>,
        n: NodeId,
        first: bool,
    )
        requires
            is_topological_up_to_cycles(g, m),
            forall|k: int| 0 <= k < m.len() ==> g.has_node(#[trigger] m[k]),
            pass.len() == pidx.len(),
            forall|j: int| 0 <= j < pass.len() ==> 0 <= #[trigger] pidx[j] < m.len() && m[pidx[j]] == pass[j],
            forall|j: int, k: int| 0 <= j < k < pass.len() ==> #[trigger] pidx[j] < #[trigger] pidx[k],
        ensures
            pass.no_duplicates(),
            forall|k: int| 0 <= k < pass.len() ==> g.has_node(#[trigger] pass[k]),
            is_dag(g) ==> is_topological(g, pass),
            passes0.push(pass).last() == pass,
    {
        if is_dag(g) {
            lemma_pass_topological(g, m, pass, pidx);
        }
        assert forall|a: int, b: int| 0 <= a < pass.len() && 0 <= b < pass.len() && a != b implies pass[a] != pass[b] by {
            if a < b {
                assert(pidx[a] < pidx[b]);
            } else {
                assert(pidx[b] < pidx[a]);
            }
            assert(m[pidx[a]] != m[pidx[b]]);
        }
        assert forall|k: int| 0 <= k < pass.len() implies g.has_node(#[trigger] pass[k]) by {
            assert(m[pidx[k]] == pass[k]);
        }
    }
}

impl TopoWithLoops {
    /// Updates node `x`, just taken from the queue, records the update, queues
    /// the nodes its pushes schedule and latches what it pushed.
    #[verifier::loop_isolation(false)]
    fn update_and_schedule<T, N: Node<T>>(
        &mut self,
        flow: &mut Flow<T, N>,
        q: &mut OrderedMaskedQueue,
        x: NodeId,
        Ghost(n): Ghost<NodeId>,
        Ghost(pending0): Ghost<Set<NodeId>>,
    ) -> (r: RcRes<()>)
        requires
            old(flow).wf(),
            old(q).wf(),
            old(flow)@.graph.has_node(x),
            pending0.contains(x),
            old(q).pending() == pending0.remove(x),
            log_ok(old(flow)@.graph, n, old(self).log@),
            pending_ok(old(flow)@.graph, n, old(self).log@, pending0),
        ensures
            final(flow).wf(),
            final(flow)@.graph == old(flow)@.graph,
            final(q).wf(),
            final(q).order() == old(q).order(),
            final(self).passes@ == old(self).passes@,
            log_ok(old(flow)@.graph, n, final(self).log@),
            r is Ok ==> pending_ok(old(flow)@.graph, n, final(self).log@, final(q).pending()),
            final(self).log@.len() == old(self).log@.len() + 1,
            final(self).log@ == old(self).log@.push((x, final(self).log@.last().1)),
            forall|k: int| 0 <= k < final(self).log@.last().1.len() ==> old(flow)@.graph.has_output(
                (x, Direction::Out, #[trigger] final(self).log@.last().1[k]),
            ),
            forall|o: NodePortAlias| #[trigger] old(flow)@.values.contains_key(o) && final(flow)@.values[o]
                != old(flow)@.values[o] ==> exists|k: int| 0 <= k < final(self).log@.last().1.len()
                && o == (x, Direction::Out, #[trigger] final(self).log@.last().1[k]),
            forall|o: NodePortAlias| #[trigger] old(flow)@.values.contains_key(o) && old(flow)@.values[o] is Some
                ==> final(flow)@.values[o] is Some,
            r is Ok ==> forall|k: int| 0 <= k < final(self).log@.last().1.len() ==> (#[trigger] final(flow)@.values[
                (x, Direction::Out, final(self).log@.last().1[k])]) is Some,
            forall|y: NodeId| #[trigger] old(q).pending().contains(y) ==> final(q).pending().contains(y),
            forall|y: NodeId| #[trigger] final(q).pending().contains(y) ==> old(q).pending().contains(y)
                || old(flow)@.graph.node_succ(x).contains(y),
    {
        let ghost g0 = flow@.graph;
        proof {
            flow.lemma_wf_inv();
        }
        let ghost log0 = self.log@;
        self.log = Ghost(log0.push((x, Seq::empty())));
        proof {
            lemma_log_extend(g0, n, log0, pending0, x, Seq::empty());
        }
        let inputs = flow.input_values_of(x)?;
        let mut env = NodeInvocationEnv::new(inputs);
        flow.update_node(x, &mut env)?;
        let succs = self.successor_nodes(flow, x, &env)?;
        let ghost pushed = env.updates().map_values(|e: (usize, Rc<T>)| e.0);
        self.log = Ghost(log0.push((x, pushed)));
        proof {
            lemma_log_extend(g0, n, log0, pending0, x, pushed);
            assert forall|k: int| 0 <= k < pushed.len() implies g0.has_output((x, Direction::Out, #[trigger] pushed[k])) by {
                assert(pushed[k] == env.updates()[k].0);
            }
            reveal(pending_ok);
            let lg = self.log@;
            let len0 = log0.len() as int;
            assert forall|u: int, k: int| 0 <= u < len0 && 0 <= k < lg[u].1.len()
                implies #[trigger] push_targets(g0, lg, u, k) == push_targets(g0, log0, u, k) by {
                assert(lg[u] == log0[u]);
            }
            assert forall|v: int| 0 < v < lg.len() implies scheduled_before(g0, lg, v, #[trigger] lg[v].0) by {
                if v < len0 {
                    assert(lg[v] == log0[v]);
                    let (u, k) = choose|u: int, k: int| 0 <= u < v && 0 <= k < log0[u].1.len()
                        && #[trigger] push_targets(g0, log0, u, k).contains(log0[v].0);
                    assert(push_targets(g0, lg, u, k).contains(lg[v].0));
                } else {
                    let (u, k) = choose|u: int, k: int| 0 <= u < len0 && 0 <= k < log0[u].1.len()
                        && #[trigger] push_targets(g0, log0, u, k).contains(x);
                    assert(push_targets(g0, lg, u, k).contains(lg[v].0));
                }
            }
            if len0 == 0 {
                assert(lg[0].0 == x);
            }
            assert forall|y: NodeId| #[trigger] q.pending().contains(y) implies (lg.len() == 0 && y == n)
                || scheduled_before(g0, lg, lg.len() as int, y) by {
                assert(pending0.contains(y));
                let (u, k) = choose|u: int, k: int| 0 <= u < len0 && 0 <= k < log0[u].1.len()
                    && #[trigger] push_targets(g0, log0, u, k).contains(y);
                assert(push_targets(g0, lg, u, k).contains(y));
            }
            assert forall|u: int, k: int, y: NodeId|
                0 <= u < len0 && 0 <= k < lg[u].1.len() && #[trigger] push_targets(g0, lg, u, k).contains(y)
                    implies (exists|v: int| u < v < lg.len() && #[trigger] lg[v].0 == y) || q.pending().contains(y) by {
                assert(push_targets(g0, log0, u, k).contains(y));
                if exists|v: int| u < v < len0 && #[trigger] log0[v].0 == y {
                    let v = choose|v: int| u < v < len0 && #[trigger] log0[v].0 == y;
                    assert(lg[v].0 == y);
                } else if y == x {
                    assert(lg[len0].0 == y);
                } else {
                    assert(pending0.contains(y));
                }
            }
            let u = lg.len() - 1;
            assert(lg[u] == (x, pushed));
            assert forall|y: NodeId| #[trigger] succs@.contains(y) implies scheduled_before(g0, lg, lg.len() as int, y)
                && g0.node_succ(x).contains(y) by {
                let kk = choose|kk: int| 0 <= kk < env.updates().len() && g0.port_targets(
                    (x, Direction::Out, (#[trigger] env.updates()[kk]).0), true).contains(y);
                assert(pushed[kk] == env.updates()[kk].0);
                assert(push_targets(g0, lg, u, kk).contains(y));
                lemma_targets_are_succs(g0, (x, Direction::Out, env.updates()[kk].0), y);
            }
            assert(succs@.take(0) =~= Seq::<NodeId>::empty());
        }
        let ghost q0 = *q;
        let mut j: usize = 0;
        while j < succs.len()
            invariant
                q.wf(),
                j <= succs@.len(),
                q.order() == q0.order(),
                forall|y: NodeId| #[trigger] q0.pending().contains(y) ==> q.pending().contains(y),
                forall|y: NodeId| #[trigger] q.pending().contains(y) ==> q0.pending().contains(y)
                    || succs@.take(j as int).contains(y),
                forall|y: NodeId| #[trigger] succs@.take(j as int).contains(y) ==> q.pending().contains(y),
            decreases succs@.len() - j,
        {
            let ghost qb = *q;
            let ghost b = succs@[j as int];
            q.enqueue(succs[j]);
            proof {
                assert(succs@.take(j + 1)[j as int] == b);
                assert forall|y: NodeId| #[trigger] succs@.take(j + 1).contains(y) implies q.pending().contains(y) by {
                    if y != b {
                        let i = choose|i: int| 0 <= i < j + 1 && #[trigger] succs@.take(j + 1)[i] == y;
                        assert(succs@.take(j as int)[i] == y);
                        assert(succs@.take(j as int).contains(y));
                        assert(qb.pending().contains(y));
                    }
                }
                assert forall|y: NodeId| #[trigger] q.pending().contains(y) implies q0.pending().contains(y)
                    || succs@.take(j + 1).contains(y) by {
                    if y != b && !q0.pending().contains(y) {
                        assert(succs@.take(j as int).contains(y));
                        let i = choose|i: int| 0 <= i < j && #[trigger] succs@.take(j as int)[i] == y;
                        assert(succs@.take(j + 1)[i] == y);
                    }
                }
            }
            j = j + 1;
        }
        proof {
            assert(succs@.take(j as int) =~= succs@);
            reveal(pending_ok);
            assert forall|y: NodeId| #[trigger] q.pending().contains(y) implies (self.log@.len() == 0 && y == n)
                || scheduled_before(g0, self.log@, self.log@.len() as int, y) by {
                if !q0.pending().contains(y) {
                    assert(succs@.contains(y));
                }
            }
            assert forall|u: int, k: int, y: NodeId|
                0 <= u < self.log@.len() && 0 <= k < self.log@[u].1.len() && #[trigger] push_targets(g0, self.log@, u, k).contains(y)
                    implies (exists|v: int| u < v < self.log@.len() && #[trigger] self.log@[v].0 == y) || q.pending().contains(y) by {
                if u == self.log@.len() - 1 {
                    assert(self.log@[u] == (x, pushed));
                    assert(pushed[k] == env.updates()[k].0);
                    assert(succs@.contains(y));
                } else {
                    if q0.pending().contains(y) {
                        assert(q.pending().contains(y));
                    }
                }
            }
            assert(pending_ok(g0, n, self.log@, q.pending()));
        }
        let ghost before_latch = flow@;
        proof {
            assert forall|k: int| 0 <= k < env.updates().len() implies before_latch.values.contains_key(
                (x, Direction::Out, (#[trigger] env.updates()[k]).0)) by {
                assert(pushed[k] == env.updates()[k].0);
            }
            before_latch.lemma_latch(x, env.updates());
        }
        flow.latch_updates(x, &env)?;
        proof {
            let ups = env.updates();
            let l = before_latch.latch(x, ups);
            assert forall|o: NodePortAlias| #[trigger] before_latch.values.contains_key(o) && flow@.values[o]
                != before_latch.values[o] implies exists|k: int| 0 <= k < pushed.len()
                && o == (x, Direction::Out, #[trigger] pushed[k]) by {
                let k = choose|k: int| 0 <= k < ups.len() && o == (x, Direction::Out, (#[trigger] ups[k]).0);
                assert(pushed[k] == ups[k].0);
            }
            assert forall|k: int| 0 <= k < pushed.len() implies (#[trigger] flow@.values[(x, Direction::Out, pushed[k])])
                is Some by {
                assert(pushed[k] == ups[k].0);
                assert(l.values[(x, Direction::Out, ups[k].0)] is Some);
            }
        }
        Ok(())
    }
}

} // verus!
