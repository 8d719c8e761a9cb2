//! The flow: nodes, their port-to-port connections, latched output values and
//! input activation states.
//!
//! A flow is specified by its view, a [`FlowView`]: the connection structure
//! ([`GraphView`]) and the latched value of every output. Every operation is
//! stated as a function on views, and every operation preserves
//! [`GraphView::inv`], which holds the graph invariants.
use std::rc::Rc;
use vstd::prelude::*;

use crate::nodes::{Node, NodeId, NodeInput, NodeInvocationEnv, NodeOutput, NodePortType};
use crate::{RcErr, RcRes};

pub mod executors;
pub mod laws;

pub use executors::Executor;

verus! {

#[derive(Clone, Copy, PartialEq, Eq, Hash, Debug, Structural)]
pub enum Direction {
    In,
    Out,
}

/// The global name of a port: node, direction and index into the node's
/// input or output list.
pub type NodePortAlias = (NodeId, Direction, usize);

/// Whether an input triggers updates of its node when data arrives.
#[derive(Clone, Copy, PartialEq, Eq, Debug, Structural)]
pub enum InputState {
    Active,
    Inactive,
}

/// Whether two port aliases name the same port.
pub fn same_port(a: &NodePortAlias, b: &NodePortAlias) -> (r: bool)
    ensures
        r == (*a == *b),
{
    a.0 == b.0 && a.1 == b.1 && a.2 == b.2
}

proof fn lemma_push_to_set<A>(s: Seq<A>, x: A)
    ensures
        s.push(x).to_set() == s.to_set().insert(x),
{
    assert forall|a: A| #[trigger] s.push(x).to_set().contains(a) == s.to_set().insert(x).contains(a) by {
        if s.contains(a) {
            let j = choose|j: int| 0 <= j < s.len() && s[j] == a;
            assert(s.push(x)[j] == a);
        }
        if s.push(x).contains(a) && a != x {
            let j = choose|j: int| 0 <= j < s.push(x).len() && s.push(x)[j] == a;
            assert(s[j] == a);
        }
        if a == x {
            assert(s.push(x)[s.len() as int] == a);
        }
    }
    assert(s.push(x).to_set() =~= s.to_set().insert(x));
}

pub(crate) proof fn lemma_remove_to_set<A>(s: Seq<A>, k: int)
    requires
        s.no_duplicates(),
        0 <= k < s.len(),
    ensures
        s.remove(k).to_set() == s.to_set().remove(s[k]),
        s.remove(k).no_duplicates(),
{
    let r = s.remove(k);
    assert forall|a: A| #[trigger] r.to_set().contains(a) == s.to_set().remove(s[k]).contains(a) by {
        if r.contains(a) {
            let j = choose|j: int| 0 <= j < r.len() && r[j] == a;
            if j < k {
                assert(s[j] == a);
            } else {
                assert(s[j + 1] == a);
            }
        }
        if s.contains(a) && a != s[k] {
            let j = choose|j: int| 0 <= j < s.len() && s[j] == a;
            if j < k {
                assert(r[j] == a);
            } else {
                assert(r[j - 1] == a);
            }
        }
    }
    assert(r.to_set() =~= s.to_set().remove(s[k]));
}

/// The index of the first entry of `v` that names port `x`.
fn position_of(v: &Vec<NodePortAlias>, x: &NodePortAlias) -> (r: Option<usize>)
    ensures
        r matches Some(k) ==> k < v@.len() && v@[k as int] == *x,
        r is None ==> !v@.contains(*x),
{
    let mut k: usize = 0;
    while k < v.len()
        invariant
            k <= v@.len(),
            forall|j: int| 0 <= j < k ==> v@[j] != *x,
        decreases v@.len() - k,
    {
        if same_port(&v[k], x) {
            return Some(k);
        }
        k = k + 1;
    }
    None
}

/// The ports of one node: the kind and state of each input, the kind of each output.
#[verifier::ext_equal]
pub struct NodeView {
    pub inputs: Seq<(NodePortType, InputState)>,
    pub outputs: Seq<NodePortType>,
}

/// The connection structure of a flow.
///
/// `port_succ` maps every output to the inputs connected to it, `port_pred`
/// maps every input to the output connected to it, if any.
#[verifier::ext_equal]
pub struct GraphView {
    /// The id the next added node receives.
    pub next_id: nat,
    pub nodes: Map<NodeId, NodeView>,
    pub port_succ: Map<NodePortAlias, Set<NodePortAlias>>,
    pub port_pred: Map<NodePortAlias, Option<NodePortAlias>>,
}

/// A flow as a mathematical value: its graph and the latched value of every output.
#[verifier::ext_equal]
pub struct FlowView<T> {
    pub graph: GraphView,
    pub values: Map<NodePortAlias, Option<Rc<T>>>,
}

impl GraphView {
    pub open spec fn has_node(self, id: NodeId) -> bool {
        self.nodes.contains_key(id)
    }

    pub open spec fn has_output(self, o: NodePortAlias) -> bool {
        &&& o.1 == Direction::Out
        &&& self.nodes.contains_key(o.0)
        &&& o.2 < self.nodes[o.0].outputs.len()
    }

    pub open spec fn has_input(self, i: NodePortAlias) -> bool {
        &&& i.1 == Direction::In
        &&& self.nodes.contains_key(i.0)
        &&& i.2 < self.nodes[i.0].inputs.len()
    }

    pub open spec fn input_state(self, i: NodePortAlias) -> InputState {
        self.nodes[i.0].inputs[i.2 as int].1
    }

    pub open spec fn input_kind(self, i: NodePortAlias) -> NodePortType {
        self.nodes[i.0].inputs[i.2 as int].0
    }

    pub open spec fn output_kind(self, o: NodePortAlias) -> NodePortType {
        self.nodes[o.0].outputs[o.2 as int]
    }

    /// The inputs connected to output `o` that are currently active.
    pub open spec fn port_succ_masked(self, o: NodePortAlias) -> Set<NodePortAlias> {
        self.port_succ[o].filter(|i: NodePortAlias| self.input_state(i) == InputState::Active)
    }

    /// An edge runs from output `o` to input `i`.
    pub open spec fn has_edge(self, o: NodePortAlias, i: NodePortAlias) -> bool {
        self.port_succ.contains_key(o) && self.port_succ[o].contains(i)
    }

    /// The nodes that some output of `a` is connected to.
    pub open spec fn node_succ(self, a: NodeId) -> Set<NodeId> {
        Set::new(
            |b: NodeId|
                exists|o: NodePortAlias, i: NodePortAlias|
                    o.0 == a && i.0 == b && #[trigger] self.has_edge(o, i),
        )
    }

    /// The nodes connected to some input of `b`.
    pub open spec fn node_pred(self, b: NodeId) -> Set<NodeId> {
        Set::new(
            |a: NodeId|
                exists|i: NodePortAlias|
                    i.0 == b && #[trigger] self.port_pred.contains_key(i) && self.port_pred[i] is Some
                        && self.port_pred[i]->Some_0.0 == a,
        )
    }

    /// The graph invariants.
    pub open spec fn inv(self) -> bool {
        &&& forall|id: NodeId| #[trigger] self.nodes.contains_key(id) ==> id.0 < self.next_id
        &&& forall|o: NodePortAlias| #[trigger] self.port_succ.contains_key(o) <==> self.has_output(o)
        &&& forall|i: NodePortAlias| #[trigger] self.port_pred.contains_key(i) <==> self.has_input(i)
        &&& forall|o: NodePortAlias, i: NodePortAlias|
            #[trigger] self.has_edge(o, i) ==> self.has_input(i) && self.port_pred[i] == Some(o)
        &&& forall|i: NodePortAlias|
            self.port_pred.contains_key(i) && (#[trigger] self.port_pred[i]) is Some ==> self.has_edge(
                self.port_pred[i]->Some_0,
                i,
            )
    }

    /// The graph after adding a node with inputs and outputs of the given
    /// kinds; its inputs are active and unconnected.
    pub open spec fn with_node(self, ins: Seq<NodePortType>, outs: Seq<NodePortType>) -> GraphView {
        let id = NodeId(self.next_id as usize);
        GraphView {
            next_id: self.next_id + 1,
            nodes: self.nodes.insert(
                id,
                NodeView { inputs: ins.map_values(|k: NodePortType| (k, InputState::Active)), outputs: outs },
            ),
            port_succ: Map::new(
                |o: NodePortAlias|
                    self.port_succ.contains_key(o) || (o.0 == id && o.1 == Direction::Out && o.2 < outs.len()),
                |o: NodePortAlias|
                    if self.port_succ.contains_key(o) {
                        self.port_succ[o]
                    } else {
                        Set::empty()
                    },
            ),
            port_pred: Map::new(
                |i: NodePortAlias|
                    self.port_pred.contains_key(i) || (i.0 == id && i.1 == Direction::In && i.2 < ins.len()),
                |i: NodePortAlias|
                    if self.port_pred.contains_key(i) {
                        self.port_pred[i]
                    } else {
                        None
                    },
            ),
        }
    }
}

impl GraphView {
    /// The graph after removing node `id` and every connection that touches it.
    pub open spec fn without_node(self, id: NodeId) -> GraphView {
        GraphView {
            next_id: self.next_id,
            nodes: self.nodes.remove(id),
            port_succ: Map::new(
                |o: NodePortAlias| self.port_succ.contains_key(o) && o.0 != id,
                |o: NodePortAlias| self.port_succ[o].filter(|i: NodePortAlias| i.0 != id),
            ),
            port_pred: Map::new(
                |i: NodePortAlias| self.port_pred.contains_key(i) && i.0 != id,
                |i: NodePortAlias|
                    if self.port_pred[i] is Some && self.port_pred[i]->Some_0.0 == id {
                        None
                    } else {
                        self.port_pred[i]
                    },
            ),
        }
    }

    /// The graph after adding the edge from output `from` to input `to`.
    pub open spec fn connect(self, from: NodePortAlias, to: NodePortAlias) -> GraphView {
        GraphView {
            port_succ: self.port_succ.insert(from, self.port_succ[from].insert(to)),
            port_pred: self.port_pred.insert(to, Some(from)),
            ..self
        }
    }

    /// The graph after removing the edge from output `from` to input `to`.
    pub open spec fn disconnect(self, from: NodePortAlias, to: NodePortAlias) -> GraphView {
        GraphView {
            port_succ: self.port_succ.insert(from, self.port_succ[from].remove(to)),
            port_pred: self.port_pred.insert(to, None),
            ..self
        }
    }

    /// The graph after giving the inputs of node `id` the states in `states`.
    pub open spec fn mask(self, id: NodeId, states: Seq<InputState>) -> GraphView {
        let n = self.nodes[id];
        GraphView {
            nodes: self.nodes.insert(
                id,
                NodeView {
                    inputs: Seq::new(n.inputs.len(), |k: int| (n.inputs[k].0, states[k])),
                    outputs: n.outputs,
                },
            ),
            ..self
        }
    }
}

impl GraphView {
    /// Why `connect(from, to)` is refused, if it is.
    pub open spec fn connect_error(self, from: NodePortAlias, to: NodePortAlias) -> Option<RcErr> {
        if !(self.has_output(from) && self.has_input(to)) {
            Some(RcErr::InvalidPort)
        } else if self.port_pred[to] is Some {
            Some(RcErr::InputAlreadyConnected)
        } else if self.output_kind(from) != self.input_kind(to) {
            Some(RcErr::PortTypesMismatch)
        } else {
            None
        }
    }

    /// Why `disconnect(from, to)` is refused, if it is: unknown ports, or no
    /// edge between them.
    pub open spec fn disconnect_error(self, from: NodePortAlias, to: NodePortAlias) -> Option<RcErr> {
        if !(self.has_output(from) && self.has_input(to)) || self.port_pred[to] != Some(from) {
            Some(RcErr::InvalidPort)
        } else {
            None
        }
    }

    /// Adding an edge into an unconnected input keeps the invariants.
    pub proof fn lemma_connect_inv(self, from: NodePortAlias, to: NodePortAlias)
        requires
            self.inv(),
            self.has_output(from),
            self.has_input(to),
            self.port_pred[to] is None,
        ensures
            self.connect(from, to).inv(),
    {
        let g = self.connect(from, to);
        assert forall|o: NodePortAlias, i: NodePortAlias|
            #[trigger] g.has_edge(o, i) implies g.has_input(i) && g.port_pred[i] == Some(o) by {
            if o == from && i == to {
            } else if o == from {
                assert(self.has_edge(o, i));
            } else {
                assert(self.has_edge(o, i));
            }
        }
        assert forall|i: NodePortAlias|
            g.port_pred.contains_key(i) && (#[trigger] g.port_pred[i]) is Some
                implies g.has_edge(g.port_pred[i]->Some_0, i) by {
            if i != to {
                assert(self.has_edge(self.port_pred[i]->Some_0, i));
            }
        }
    }

    /// Removing an existing edge keeps the invariants.
    pub proof fn lemma_disconnect_inv(self, from: NodePortAlias, to: NodePortAlias)
        requires
            self.inv(),
            self.disconnect_error(from, to) is None,
        ensures
            self.disconnect(from, to).inv(),
    {
        let g = self.disconnect(from, to);
        assert forall|o: NodePortAlias, i: NodePortAlias|
            #[trigger] g.has_edge(o, i) implies g.has_input(i) && g.port_pred[i] == Some(o) by {
            assert(self.has_edge(o, i));
        }
        assert forall|i: NodePortAlias|
            g.port_pred.contains_key(i) && (#[trigger] g.port_pred[i]) is Some
                implies g.has_edge(g.port_pred[i]->Some_0, i) by {
            assert(self.has_edge(self.port_pred[i]->Some_0, i));
        }
    }
}

impl GraphView {
    /// Under the invariants the successor map is determined by the predecessor map.
    pub proof fn lemma_succ_from_pred(self, other: GraphView)
        requires
            self.inv(),
            other.inv(),
            self.nodes == other.nodes,
            self.port_pred == other.port_pred,
        ensures
            self.port_succ == other.port_succ,
    {
        assert forall|o: NodePortAlias| #[trigger] self.port_succ.contains_key(o) implies self.port_succ[o] == other.port_succ[o] by {
            assert forall|i: NodePortAlias| self.port_succ[o].contains(i) == other.port_succ[o].contains(i) by {
                if self.port_succ[o].contains(i) {
                    assert(self.has_edge(o, i));
                }
                if other.port_succ[o].contains(i) {
                    assert(other.has_edge(o, i));
                }
            }
            assert(self.port_succ[o] =~= other.port_succ[o]);
        }
        assert(self.port_succ =~= other.port_succ);
    }

    /// Removing a node with its connections keeps the invariants.
    pub proof fn lemma_without_node_inv(self, id: NodeId)
        requires
            self.inv(),
        ensures
            self.without_node(id).inv(),
    {
        let g = self.without_node(id);
        assert forall|o: NodePortAlias, i: NodePortAlias|
            #[trigger] g.has_edge(o, i) implies g.has_input(i) && g.port_pred[i] == Some(o) by {
            assert(self.has_edge(o, i));
        }
        assert forall|i: NodePortAlias|
            g.port_pred.contains_key(i) && (#[trigger] g.port_pred[i]) is Some
                implies g.has_edge(g.port_pred[i]->Some_0, i) by {
            assert(self.has_edge(self.port_pred[i]->Some_0, i));
        }
    }
}

impl GraphView {
    /// The nodes owning the inputs connected to output `o`; with `masked`,
    /// only through active inputs.
    pub open spec fn port_targets(self, o: NodePortAlias, masked: bool) -> Set<NodeId> {
        Set::new(
            |b: NodeId|
                exists|i: NodePortAlias|
                    i.0 == b && #[trigger] self.port_succ[o].contains(i) && (!masked || self.input_state(i)
                        == InputState::Active),
        )
    }
}

impl<T> FlowView<T> {
    /// The outputs of a node added as node `id` with `n` outputs.
    pub open spec fn fresh_outputs(id: NodeId, n: nat) -> Map<NodePortAlias, Option<Rc<T>>> {
        Map::new(|o: NodePortAlias| o.0 == id && o.1 == Direction::Out && o.2 < n, |o: NodePortAlias| None)
    }

    pub open spec fn with_node(self, ins: Seq<NodePortType>, outs: Seq<NodePortType>) -> FlowView<T> {
        FlowView {
            graph: self.graph.with_node(ins, outs),
            values: self.values.union_prefer_right(
                Self::fresh_outputs(NodeId(self.graph.next_id as usize), outs.len()),
            ),
        }
    }

    pub open spec fn without_node(self, id: NodeId) -> FlowView<T> {
        FlowView {
            graph: self.graph.without_node(id),
            values: self.values.restrict(self.values.dom().filter(|o: NodePortAlias| o.0 != id)),
        }
    }

    /// The flow after latching `val` on output `port` of node `id`.
    pub open spec fn set_output(self, id: NodeId, port: usize, val: Rc<T>) -> FlowView<T> {
        FlowView { values: self.values.insert((id, Direction::Out, port), Some(val)), ..self }
    }

    /// The flow after latching, in order, each value of `ups` on the output
    /// of node `id` that it names; a later value for a port wins.
    pub open spec fn latch(self, id: NodeId, ups: Seq<(usize, Rc<T>)>) -> FlowView<T>
        decreases ups.len(),
    {
        if ups.len() == 0 {
            self
        } else {
            self.latch(id, ups.drop_last()).set_output(id, ups.last().0, ups.last().1)
        }
    }

    /// Latching changes values only at the outputs it names, leaves every
    /// output with a value, and gives a value to every output it names.
    pub proof fn lemma_latch(self, id: NodeId, ups: Seq<(usize, Rc<T>)>)
        requires
            forall|k: int| 0 <= k < ups.len() ==> self.values.contains_key((id, Direction::Out, (#[trigger] ups[k]).0)),
        ensures
            self.latch(id, ups).graph == self.graph,
            self.latch(id, ups).values.dom() == self.values.dom(),
            forall|o: NodePortAlias| #[trigger] self.values.contains_key(o) && self.latch(id, ups).values[o] != self.values[o]
                ==> exists|k: int| 0 <= k < ups.len() && o == (id, Direction::Out, (#[trigger] ups[k]).0),
            forall|o: NodePortAlias| #[trigger] self.values.contains_key(o) && self.values[o] is Some
                ==> self.latch(id, ups).values[o] is Some,
            forall|k: int| 0 <= k < ups.len() ==> (#[trigger] self.latch(id, ups).values[(id, Direction::Out, ups[k].0)]) is Some,
        decreases ups.len(),
    {
        if ups.len() > 0 {
            let pre = ups.drop_last();
            self.lemma_latch(id, pre);
            let a = self.latch(id, pre);
            let last = (id, Direction::Out, ups.last().0);
            assert(self.values.contains_key((id, Direction::Out, ups[ups.len() - 1].0)));
            assert(a.values.insert(last, Some(ups.last().1)).dom() =~= self.values.dom());
            assert forall|o: NodePortAlias| #[trigger] self.values.contains_key(o) && self.latch(id, ups).values[o] != self.values[o]
                implies exists|k: int| 0 <= k < ups.len() && o == (id, Direction::Out, (#[trigger] ups[k]).0) by {
                if o != last {
                    let k = choose|k: int| 0 <= k < pre.len() && o == (id, Direction::Out, (#[trigger] pre[k]).0);
                    assert(ups[k] == pre[k]);
                } else {
                    assert(o == (id, Direction::Out, ups[ups.len() - 1].0));
                }
            }
            assert forall|k: int| 0 <= k < ups.len() implies (#[trigger] self.latch(id, ups).values[(id, Direction::Out, ups[k].0)]) is Some by {
                if k < pre.len() {
                    assert(ups[k] == pre[k]);
                    assert(a.values[(id, Direction::Out, pre[k].0)] is Some);
                    assert(self.values.contains_key((id, Direction::Out, ups[k].0)));
                }
            }
        }
    }

    /// The latched value of output `port` of node `id`.
    pub open spec fn output_val(self, id: NodeId, port: usize) -> Option<Rc<T>> {
        self.values[(id, Direction::Out, port)]
    }

    /// The value an input sees: the latched value of the output connected to
    /// it, or nothing when it is unconnected.
    pub open spec fn input_val(self, i: NodePortAlias) -> Option<Rc<T>> {
        match self.graph.port_pred[i] {
            Some(o) => self.values[o],
            None => None,
        }
    }

    /// The invariants of the graph, and a latched slot for every output.
    pub open spec fn inv(self) -> bool {
        &&& self.graph.inv()
        &&& forall|o: NodePortAlias| #[trigger] self.values.contains_key(o) <==> self.graph.has_output(o)
    }
}

#[verifier::reject_recursive_types(T)]
struct NodeInternal<T, N> {
    id: NodeId,
    node: N,
    inputs: Vec<(NodeInput, InputState)>,
    outputs: Vec<NodeOutput<T>>,
}

/// The flow keeps the nodes and their connections.
///
/// Node `k` lives in `nodes[k]` until it is removed; `port_succ[k][o]` lists
/// the inputs connected to its output `o`, `port_pred[k][i]` the output
/// connected to its input `i`.
#[verifier::reject_recursive_types(T)]
pub struct Flow<T, N = Box<dyn Node<T>>> {
    nodes: Vec<Option<NodeInternal<T, N>>>,
    port_succ: Vec<Vec<Vec<NodePortAlias>>>,
    port_pred: Vec<Vec<Option<NodePortAlias>>>,
}

spec fn node_view<T, N>(n: NodeInternal<T, N>) -> NodeView {
    NodeView {
        inputs: n.inputs@.map_values(|p: (NodeInput, InputState)| (p.0.port_type, p.1)),
        outputs: n.outputs@.map_values(|o: NodeOutput<T>| o.port_type),
    }
}

impl<T, N> Flow<T, N> {
    spec fn live(self, k: int) -> bool {
        0 <= k < self.nodes@.len() && self.nodes@[k] is Some
    }

    spec fn rec(self, k: int) -> NodeInternal<T, N> {
        self.nodes@[k]->Some_0
    }

    spec fn is_out(self, o: NodePortAlias) -> bool {
        o.1 == Direction::Out && self.live(o.0.0 as int) && o.2 < self.rec(o.0.0 as int).outputs@.len()
    }

    spec fn is_in(self, i: NodePortAlias) -> bool {
        i.1 == Direction::In && self.live(i.0.0 as int) && i.2 < self.rec(i.0.0 as int).inputs@.len()
    }

    spec fn succ_list(self, o: NodePortAlias) -> Seq<NodePortAlias> {
        self.port_succ@[o.0.0 as int]@[o.2 as int]@
    }

    spec fn pred_of(self, i: NodePortAlias) -> Option<NodePortAlias> {
        self.port_pred@[i.0.0 as int]@[i.2 as int]
    }

    pub closed spec fn view(self) -> FlowView<T> {
        FlowView {
            graph: GraphView {
                next_id: self.nodes@.len(),
                nodes: Map::new(
                    |id: NodeId| self.live(id.0 as int),
                    |id: NodeId| node_view(self.rec(id.0 as int)),
                ),
                port_succ: Map::new(
                    |o: NodePortAlias| self.is_out(o),
                    |o: NodePortAlias| self.succ_list(o).to_set(),
                ),
                port_pred: Map::new(|i: NodePortAlias| self.is_in(i), |i: NodePortAlias| self.pred_of(i)),
            },
            values: Map::new(
                |o: NodePortAlias| self.is_out(o),
                |o: NodePortAlias| self.rec(o.0.0 as int).outputs@[o.2 as int].val,
            ),
        }
    }

    spec fn shape_ok(self, k: int) -> bool {
        if self.nodes@[k] is Some {
            &&& self.rec(k).id.0 == k
            &&& self.port_succ@[k].len() == self.rec(k).outputs.len()
            &&& self.port_pred@[k].len() == self.rec(k).inputs.len()
        } else {
            &&& self.port_succ@[k].len() == 0
            &&& self.port_pred@[k].len() == 0
        }
    }

    /// The representation is consistent and the view satisfies the invariants.
    pub closed spec fn wf(self) -> bool {
        &&& self.port_succ@.len() == self.nodes@.len()
        &&& self.port_pred@.len() == self.nodes@.len()
        &&& self.nodes@.len() <= usize::MAX
        &&& forall|k: int| 0 <= k < self.nodes@.len() ==> #[trigger] self.shape_ok(k)
        &&& forall|k: int, o: int|
            0 <= k < self.nodes@.len() && 0 <= o < self.port_succ@[k].len()
                ==> (#[trigger] self.port_succ@[k]@[o])@.no_duplicates()
        &&& self.view().inv()
    }
}

impl<T, N> Default for Flow<T, N> {
    fn default() -> (r: Self)
        ensures
            r.wf(),
            r@.graph.next_id == 0,
            r@.graph.nodes.is_empty(),
    {
        let r = Self { nodes: Vec::new(), port_succ: Vec::new(), port_pred: Vec::new() };
        assert(r@.graph.nodes =~= Map::empty());
        r
    }
}


impl<T, N: Node<T>> Flow<T, N> {
    /// Adds a node to the flow and returns its id. The node is initialised
    /// with its id, then asked for its inputs and outputs once; the inputs
    /// start active and unconnected, the outputs unconnected and empty.
    pub fn add_node(&mut self, node: N) -> (r: RcRes<NodeId>)
        requires
            old(self).wf(),
        ensures
            final(self).wf(),
            r == Ok::<NodeId, RcErr>(NodeId(old(self)@.graph.next_id as usize)),
            exists|ins: Seq<NodePortType>, outs: Seq<NodePortType>|
                final(self)@ == #[trigger] old(self)@.with_node(ins, outs),
    {
        let id = NodeId(self.nodes.len());
        let mut node = node;
        node.init(id);
        let declared_inputs = node.init_inputs();
        let declared_outputs = node.init_outputs();
        let r = self.insert_node(node, declared_inputs, declared_outputs);
        Ok(r)
    }

    /// Enters `node` under the next id with the declared ports: its inputs
    /// active and unconnected, its outputs unconnected and empty, with the
    /// kinds that `declared_inputs` and `declared_outputs` give.
    pub fn insert_node(&mut self, node: N, declared_inputs: Vec<NodeInput>, declared_outputs: Vec<NodeOutput<T>>) -> (r: NodeId)
        requires
            old(self).wf(),
        ensures
            final(self).wf(),
            r == NodeId(old(self)@.graph.next_id as usize),
            final(self)@ == old(self)@.with_node(
                declared_inputs@.map_values(|d: NodeInput| d.port_type),
                declared_outputs@.map_values(|d: NodeOutput<T>| d.port_type),
            ),
    {
        let id = NodeId(self.nodes.len());
        let mut inputs: Vec<(NodeInput, InputState)> = Vec::new();
        let mut preds: Vec<Option<NodePortAlias>> = Vec::new();
        let mut k: usize = 0;
        while k < declared_inputs.len()
            invariant
                k <= declared_inputs@.len(),
                inputs@.len() == k,
                preds@.len() == k,
                forall|j: int| 0 <= j < k ==> (#[trigger] inputs@[j]).0.port_type == declared_inputs@[j].port_type
                    && inputs@[j].1 == InputState::Active,
                forall|j: int| 0 <= j < k ==> (#[trigger] preds@[j]) is None,
            decreases declared_inputs@.len() - k,
        {
            let label = declared_inputs[k].label.clone();
            inputs.push((NodeInput { label, port_type: declared_inputs[k].port_type }, InputState::Active));
            preds.push(None);
            k = k + 1;
        }
        let mut outputs: Vec<NodeOutput<T>> = Vec::new();
        let mut succs: Vec<Vec<NodePortAlias>> = Vec::new();
        let mut k: usize = 0;
        while k < declared_outputs.len()
            invariant
                k <= declared_outputs@.len(),
                outputs@.len() == k,
                succs@.len() == k,
                forall|j: int| 0 <= j < k ==> (#[trigger] outputs@[j]).port_type == declared_outputs@[j].port_type
                    && outputs@[j].val is None,
                forall|j: int| 0 <= j < k ==> (#[trigger] succs@[j])@.len() == 0,
            decreases declared_outputs@.len() - k,
        {
            let label = declared_outputs[k].label.clone();
            outputs.push(NodeOutput { label, port_type: declared_outputs[k].port_type, val: None });
            succs.push(Vec::new());
            k = k + 1;
        }
        let ghost ins = declared_inputs@.map_values(|d: NodeInput| d.port_type);
        let ghost outs = declared_outputs@.map_values(|d: NodeOutput<T>| d.port_type);
        let item = Some(NodeInternal { id, node, inputs, outputs });
        self.nodes.push(item);
        self.port_succ.push(succs);
        self.port_pred.push(preds);
        // The length of a vector is a `usize`; reading it records that bound.
        let count = self.nodes.len();
        proof {
            assert(count == self.nodes@.len());
            self.lemma_add_node(*old(self), ins, outs);
        }
        id
    }

    proof fn lemma_add_node(self, old_flow: Self, ins: Seq<NodePortType>, outs: Seq<NodePortType>)
        requires
            old_flow.wf(),
            self.nodes@.len() == old_flow.nodes@.len() + 1,
            self.nodes@.len() <= usize::MAX,
            self.port_succ@.len() == old_flow.port_succ@.len() + 1,
            self.port_pred@.len() == old_flow.port_pred@.len() + 1,
            forall|k: int| 0 <= k < old_flow.nodes@.len() ==> #[trigger] self.nodes@[k] == old_flow.nodes@[k],
            forall|k: int| 0 <= k < old_flow.nodes@.len() ==> #[trigger] self.port_succ@[k] == old_flow.port_succ@[k],
            forall|k: int| 0 <= k < old_flow.nodes@.len() ==> #[trigger] self.port_pred@[k] == old_flow.port_pred@[k],
            self.nodes@.last() is Some,
            ({
                let n = self.nodes@.last()->Some_0;
                &&& n.id.0 == old_flow.nodes@.len()
                &&& node_view(n).inputs =~= ins.map_values(|k: NodePortType| (k, InputState::Active))
                &&& node_view(n).outputs =~= outs
                &&& self.port_succ@.last()@.len() == n.outputs@.len()
                &&& self.port_pred@.last()@.len() == n.inputs@.len()
                &&& forall|j: int| 0 <= j < n.outputs@.len() ==> (#[trigger] n.outputs@[j]).val is None
                &&& forall|j: int| 0 <= j < n.outputs@.len() ==> (#[trigger] self.port_succ@.last()@[j])@.len() == 0
                &&& forall|j: int| 0 <= j < n.inputs@.len() ==> (#[trigger] self.port_pred@.last()@[j]) is None
            }),
        ensures
            self.wf(),
            self@ == old_flow@.with_node(ins, outs),
    {
        let n = old_flow.nodes@.len();
        let new_id = self.nodes@.last()->Some_0.id;
        let v = self@;
        let ov = old_flow@;
        let w = ov.with_node(ins, outs);
        assert forall|k: int| 0 <= k < self.nodes@.len() implies #[trigger] self.shape_ok(k) by {
            if k < n {
                assert(old_flow.shape_ok(k));
            }
        }
        assert forall|k: int, o: int|
            0 <= k < self.nodes@.len() && 0 <= o < self.port_succ@[k].len()
                implies (#[trigger] self.port_succ@[k]@[o])@.no_duplicates() by {
            if k < n {
                assert(old_flow.port_succ@[k]@[o] == self.port_succ@[k]@[o]);
            }
        }
        assert(v.graph.nodes =~= w.graph.nodes) by {
            assert forall|id: NodeId| #[trigger] v.graph.nodes.contains_key(id) == w.graph.nodes.contains_key(id) by {
                if id.0 < n {
                    assert(self.nodes@[id.0 as int] == old_flow.nodes@[id.0 as int]);
                } else if id.0 == n {
                    assert(id == new_id);
                }
            }
            assert forall|id: NodeId| #[trigger] v.graph.nodes.contains_key(id) implies v.graph.nodes[id] == w.graph.nodes[id] by {
                if id.0 < n {
                    assert(self.nodes@[id.0 as int] == old_flow.nodes@[id.0 as int]);
                } else {
                    assert(id == new_id);
                }
            }
        }
        assert(v.graph.port_succ =~= w.graph.port_succ) by {
            assert forall|o: NodePortAlias| #[trigger] v.graph.port_succ.contains_key(o) == w.graph.port_succ.contains_key(o) by {
                if o.0.0 < n {
                    assert(self.nodes@[o.0.0 as int] == old_flow.nodes@[o.0.0 as int]);
                }
            }
            assert forall|o: NodePortAlias| #[trigger] v.graph.port_succ.contains_key(o) implies v.graph.port_succ[o] == w.graph.port_succ[o] by {
                if o.0.0 < n {
                    assert(self.nodes@[o.0.0 as int] == old_flow.nodes@[o.0.0 as int]);
                    assert(self.port_succ@[o.0.0 as int] == old_flow.port_succ@[o.0.0 as int]);
                } else {
                    assert(self.succ_list(o).to_set() =~= Set::empty());
                }
            }
        }
        assert(v.graph.port_pred =~= w.graph.port_pred) by {
            assert forall|i: NodePortAlias| #[trigger] v.graph.port_pred.contains_key(i) == w.graph.port_pred.contains_key(i) by {
                if i.0.0 < n {
                    assert(self.nodes@[i.0.0 as int] == old_flow.nodes@[i.0.0 as int]);
                } else if i.0.0 == n {
                    assert(i.0 == new_id);
                    assert(node_view(self.rec(n as int)).inputs.len() == ins.len());
                }
            }
            assert forall|i: NodePortAlias| #[trigger] v.graph.port_pred.contains_key(i) implies v.graph.port_pred[i] == w.graph.port_pred[i] by {
                if i.0.0 < n {
                    assert(self.nodes@[i.0.0 as int] == old_flow.nodes@[i.0.0 as int]);
                    assert(self.port_pred@[i.0.0 as int] == old_flow.port_pred@[i.0.0 as int]);
                }
            }
        }
        assert(v.values =~= w.values) by {
            assert forall|o: NodePortAlias| #[trigger] v.values.contains_key(o) == w.values.contains_key(o) by {
                if o.0.0 < n {
                    assert(self.nodes@[o.0.0 as int] == old_flow.nodes@[o.0.0 as int]);
                }
            }
            assert forall|o: NodePortAlias| #[trigger] v.values.contains_key(o) implies v.values[o] == w.values[o] by {
                if o.0.0 < n {
                    assert(self.nodes@[o.0.0 as int] == old_flow.nodes@[o.0.0 as int]);
                }
            }
        }
        assert(v == w);
        assert(v.inv()) by {
            assert forall|o: NodePortAlias, i: NodePortAlias|
                #[trigger] w.graph.has_edge(o, i) implies w.graph.has_input(i) && w.graph.port_pred[i] == Some(o) by {
                assert(ov.graph.has_edge(o, i));
            }
            assert forall|i: NodePortAlias|
                w.graph.port_pred.contains_key(i) && (#[trigger] w.graph.port_pred[i]) is Some
                    implies w.graph.has_edge(w.graph.port_pred[i]->Some_0, i) by {
                assert(ov.graph.port_pred.contains_key(i));
            }
        }
    }
}


impl<T, N> Flow<T, N> {
    /// Connects output `from` to input `to`. Fails, leaving the flow as it
    /// was, if either alias names no port of the right direction, if `to`
    /// already has a predecessor, or if the port kinds differ.
    pub fn connect(&mut self, from: NodePortAlias, to: NodePortAlias) -> (r: RcRes<()>)
        requires
            old(self).wf(),
        ensures
            final(self).wf(),
            match old(self)@.graph.connect_error(from, to) {
                Some(e) => r == Err::<(), RcErr>(e) && final(self)@ == old(self)@,
                None => r is Ok && final(self)@ == (FlowView {
                    graph: old(self)@.graph.connect(from, to),
                    ..old(self)@
                }),
            },
    {
        let (fr_nid, fr_dir, fr_prt) = from;
        let (to_nid, to_dir, to_prt) = to;
        if fr_dir != Direction::Out || to_dir != Direction::In {
            return Err(RcErr::InvalidPort);
        }
        if fr_nid.0 >= self.nodes.len() || to_nid.0 >= self.nodes.len() {
            return Err(RcErr::InvalidPort);
        }
        let fr_kind = match &self.nodes[fr_nid.0] {
            Some(n) => {
                if fr_prt >= n.outputs.len() {
                    return Err(RcErr::InvalidPort);
                }
                n.outputs[fr_prt].port_type
            },
            None => {
                return Err(RcErr::InvalidPort);
            },
        };
        let to_kind = match &self.nodes[to_nid.0] {
            Some(n) => {
                if to_prt >= n.inputs.len() {
                    return Err(RcErr::InvalidPort);
                }
                n.inputs[to_prt].0.port_type
            },
            None => {
                return Err(RcErr::InvalidPort);
            },
        };
        proof {
            assert(self.shape_ok(fr_nid.0 as int));
            assert(self.shape_ok(to_nid.0 as int));
            assert(self@.graph.port_pred.contains_key(to));
            assert(self@.graph.port_succ.contains_key(from));
        }
        if self.port_pred[to_nid.0][to_prt].is_some() {
            return Err(RcErr::InputAlreadyConnected);
        }
        if fr_kind != to_kind {
            return Err(RcErr::PortTypesMismatch);
        }
        proof {
            self@.graph.lemma_connect_inv(from, to);
            if self.succ_list(from).contains(to) {
                assert(self@.graph.has_edge(from, to));
            }
        }
        self.port_succ[fr_nid.0][fr_prt].push(to);
        self.port_pred[to_nid.0].set(to_prt, Some(from));
        proof {
            lemma_push_to_set(old(self).succ_list(from), to);
            assert(self.succ_list(from) == old(self).succ_list(from).push(to));
            self.lemma_edge_change(*old(self), from, to, old(self)@.graph.connect(from, to));
        }
        Ok(())
    }

    /// Removes the edge from output `from` to input `to`. Fails, leaving the
    /// flow as it was, if either alias names no port of the right direction or
    /// if the two are not connected.
    pub fn disconnect(&mut self, from: NodePortAlias, to: NodePortAlias) -> (r: RcRes<()>)
        requires
            old(self).wf(),
        ensures
            final(self).wf(),
            match old(self)@.graph.disconnect_error(from, to) {
                Some(e) => r == Err::<(), RcErr>(e) && final(self)@ == old(self)@,
                None => r is Ok && final(self)@ == (FlowView {
                    graph: old(self)@.graph.disconnect(from, to),
                    ..old(self)@
                }),
            },
    {
        let (fr_nid, fr_dir, fr_prt) = from;
        let (to_nid, to_dir, to_prt) = to;
        if fr_dir != Direction::Out || to_dir != Direction::In {
            return Err(RcErr::InvalidPort);
        }
        if fr_nid.0 >= self.nodes.len() || to_nid.0 >= self.nodes.len() {
            return Err(RcErr::InvalidPort);
        }
        match &self.nodes[fr_nid.0] {
            Some(n) => {
                if fr_prt >= n.outputs.len() {
                    return Err(RcErr::InvalidPort);
                }
            },
            None => {
                return Err(RcErr::InvalidPort);
            },
        }
        match &self.nodes[to_nid.0] {
            Some(n) => {
                if to_prt >= n.inputs.len() {
                    return Err(RcErr::InvalidPort);
                }
            },
            None => {
                return Err(RcErr::InvalidPort);
            },
        }
        proof {
            assert(self.shape_ok(fr_nid.0 as int));
            assert(self.shape_ok(to_nid.0 as int));
            assert(self@.graph.port_pred.contains_key(to));
            assert(self@.graph.port_succ.contains_key(from));
        }
        let connected = match &self.port_pred[to_nid.0][to_prt] {
            Some(p) => same_port(p, &from),
            None => false,
        };
        if !connected {
            return Err(RcErr::InvalidPort);
        }
        proof {
            self@.graph.lemma_disconnect_inv(from, to);
            assert(self@.graph.has_edge(from, to));
        }
        let k = match position_of(&self.port_succ[fr_nid.0][fr_prt], &to) {
            Some(k) => k,
            None => {
                proof {
                    assert(self.succ_list(from).to_set().contains(to));
                }
                return Err(RcErr::InvalidPort);
            },
        };
        self.port_succ[fr_nid.0][fr_prt].remove(k);
        self.port_pred[to_nid.0].set(to_prt, None);
        proof {
            lemma_remove_to_set(old(self).succ_list(from), k as int);
            assert(self.succ_list(from) == old(self).succ_list(from).remove(k as int));
            self.lemma_edge_change(*old(self), from, to, old(self)@.graph.disconnect(from, to));
        }
        Ok(())
    }

    /// The flow differs from `old_flow` at most in the successor list of
    /// `from` and the predecessor of `to`; the view follows.
    proof fn lemma_edge_change(self, old_flow: Self, from: NodePortAlias, to: NodePortAlias, g: GraphView)
        requires
            old_flow.wf(),
            old_flow.is_out(from),
            old_flow.is_in(to),
            self.nodes@ == old_flow.nodes@,
            self.port_succ@.len() == old_flow.port_succ@.len(),
            self.port_pred@.len() == old_flow.port_pred@.len(),
            forall|k: int| 0 <= k < self.port_succ@.len() && k != from.0.0 ==> #[trigger] self.port_succ@[k] == old_flow.port_succ@[k],
            forall|k: int| 0 <= k < self.port_pred@.len() && k != to.0.0 ==> #[trigger] self.port_pred@[k] == old_flow.port_pred@[k],
            self.port_succ@[from.0.0 as int].len() == old_flow.port_succ@[from.0.0 as int].len(),
            self.port_pred@[to.0.0 as int].len() == old_flow.port_pred@[to.0.0 as int].len(),
            forall|o: int| 0 <= o < self.port_succ@[from.0.0 as int].len() && o != from.2 ==>
                #[trigger] self.port_succ@[from.0.0 as int]@[o] == old_flow.port_succ@[from.0.0 as int]@[o],
            forall|i: int| 0 <= i < self.port_pred@[to.0.0 as int].len() && i != to.2 ==>
                #[trigger] self.port_pred@[to.0.0 as int]@[i] == old_flow.port_pred@[to.0.0 as int]@[i],
            self.succ_list(from).no_duplicates(),
            g.inv(),
            g.next_id == old_flow@.graph.next_id,
            g.nodes == old_flow@.graph.nodes,
            g.port_succ == old_flow@.graph.port_succ.insert(from, self.succ_list(from).to_set()),
            g.port_pred == old_flow@.graph.port_pred.insert(to, self.pred_of(to)),
        ensures
            self.wf(),
            self@ == (FlowView { graph: g, ..old_flow@ }),
    {
        let w = FlowView { graph: g, ..old_flow@ };
        assert forall|k: int| 0 <= k < self.nodes@.len() implies #[trigger] self.shape_ok(k) by {
            assert(old_flow.shape_ok(k));
        }
        assert forall|k: int, o: int|
            0 <= k < self.nodes@.len() && 0 <= o < self.port_succ@[k].len()
                implies (#[trigger] self.port_succ@[k]@[o])@.no_duplicates() by {
            if k != from.0.0 || o != from.2 {
                assert(self.port_succ@[k]@[o] == old_flow.port_succ@[k]@[o]);
            }
        }
        assert(self@.graph.nodes =~= w.graph.nodes);
        assert(self@.graph.port_succ =~= w.graph.port_succ) by {
            assert forall|o: NodePortAlias| #[trigger] self@.graph.port_succ.contains_key(o) implies self@.graph.port_succ[o] == w.graph.port_succ[o] by {
                if o.0.0 != from.0.0 {
                    assert(self.port_succ@[o.0.0 as int] == old_flow.port_succ@[o.0.0 as int]);
                } else if o.2 != from.2 {
                    assert(old_flow.shape_ok(o.0.0 as int));
                    assert(self.port_succ@[from.0.0 as int]@[o.2 as int] == old_flow.port_succ@[from.0.0 as int]@[o.2 as int]);
                } else {
                    assert(o == from);
                }
            }
        }
        assert(self@.graph.port_pred =~= w.graph.port_pred) by {
            assert forall|i: NodePortAlias| #[trigger] self@.graph.port_pred.contains_key(i) implies self@.graph.port_pred[i] == w.graph.port_pred[i] by {
                if i.0.0 != to.0.0 {
                    assert(self.port_pred@[i.0.0 as int] == old_flow.port_pred@[i.0.0 as int]);
                } else if i.2 != to.2 {
                    assert(old_flow.shape_ok(i.0.0 as int));
                    assert(self.port_pred@[to.0.0 as int]@[i.2 as int] == old_flow.port_pred@[to.0.0 as int]@[i.2 as int]);
                } else {
                    assert(i == to);
                }
            }
        }
        assert(self@.values =~= w.values);
        assert(self@ =~= w);
    }
}


/// A copy of a list of port aliases.
fn copy_ports(v: &Vec<NodePortAlias>) -> (r: Vec<NodePortAlias>)
    ensures
        r@ == v@,
{
    let mut r: Vec<NodePortAlias> = Vec::new();
    let mut k: usize = 0;
    while k < v.len()
        invariant
            k <= v@.len(),
            r@ == v@.take(k as int),
        decreases v@.len() - k,
    {
        r.push(v[k]);
        k = k + 1;
        assert(r@ =~= v@.take(k as int));
    }
    assert(v@.take(k as int) =~= v@);
    r
}

impl<T, N> Flow<T, N> {
    /// Removes a node and, first, every connection that touches it. Fails
    /// with `NodeNotFound`, leaving the flow as it was, if there is no such
    /// node. The id is not reused.
    pub fn remove_node(&mut self, node_id: NodeId) -> (r: RcRes<()>)
        requires
            old(self).wf(),
        ensures
            final(self).wf(),
            !old(self)@.graph.has_node(node_id) ==> r == Err::<(), RcErr>(RcErr::NodeNotFound) && final(self)@
                == old(self)@,
            old(self)@.graph.has_node(node_id) ==> r is Ok && final(self)@ == old(self)@.without_node(node_id),
    {
        let k = node_id.0;
        if k >= self.nodes.len() || self.nodes[k].is_none() {
            return Err(RcErr::NodeNotFound);
        }
        self.clear_inp_conns(node_id);
        let ghost g1 = self@.graph;
        self.clear_out_conns(node_id);
        let ghost mid = *self;
        proof {
            assert forall|i: NodePortAlias| #[trigger] mid@.graph.port_pred.contains_key(i) implies
                mid@.graph.port_pred[i] == Self::pred_after_outputs(old(self)@.graph, node_id,
                    old(self)@.graph.nodes[node_id].outputs.len(), i) by {
                assert(g1.port_pred.contains_key(i));
            }
        }
        self.nodes.set(k, None);
        self.port_succ.set(k, Vec::new());
        self.port_pred.set(k, Vec::new());
        proof {
            self.lemma_tombstone(mid, node_id, *old(self));
        }
        Ok(())
    }

    /// The expected predecessor of input `i` once the connections of node
    /// `id` into its inputs below `k` are gone.
    spec fn pred_after_inputs(g: GraphView, id: NodeId, k: nat, i: NodePortAlias) -> Option<NodePortAlias> {
        if i.0 == id && i.2 < k {
            None
        } else {
            g.port_pred[i]
        }
    }

    /// The expected predecessor of input `i` once all connections into node
    /// `id`, and those out of its outputs below `k`, are gone.
    spec fn pred_after_outputs(g: GraphView, id: NodeId, k: nat, i: NodePortAlias) -> Option<NodePortAlias> {
        if i.0 == id || (g.port_pred[i] is Some && g.port_pred[i]->Some_0.0 == id && g.port_pred[i]->Some_0.2 < k) {
            None
        } else {
            g.port_pred[i]
        }
    }

    fn clear_inp_conns(&mut self, node_id: NodeId)
        requires
            old(self).wf(),
            old(self)@.graph.has_node(node_id),
        ensures
            final(self).wf(),
            final(self)@.values == old(self)@.values,
            final(self)@.graph.nodes == old(self)@.graph.nodes,
            final(self)@.graph.next_id == old(self)@.graph.next_id,
            forall|i: NodePortAlias| #[trigger] final(self)@.graph.port_pred.contains_key(i) ==>
                final(self)@.graph.port_pred[i] == Self::pred_after_outputs(old(self)@.graph, node_id, 0, i),
    {
        let k = node_id.0;
        let n_inputs = match &self.nodes[k] {
            Some(n) => n.inputs.len(),
            None => 0,
        };
        proof {
            assert(old(self).shape_ok(k as int));
        }
        let ghost g0 = old(self)@.graph;
        let mut i: usize = 0;
        while i < n_inputs
            invariant
                self.wf(),
                i <= n_inputs,
                n_inputs == g0.nodes[node_id].inputs.len(),
                k == node_id.0,
                g0 == old(self)@.graph,
                g0.has_node(node_id),
                self@.values == old(self)@.values,
                self@.graph.nodes == g0.nodes,
                self@.graph.next_id == g0.next_id,
                forall|x: NodePortAlias| #[trigger] self@.graph.port_pred.contains_key(x) ==>
                    self@.graph.port_pred[x] == Self::pred_after_inputs(g0, node_id, i as nat, x),
            decreases n_inputs - i,
        {
            let inp: NodePortAlias = (node_id, Direction::In, i);
            proof {
                assert(self@.graph.nodes.contains_key(node_id));
                assert(self.shape_ok(k as int));
                assert(self@.graph.port_pred.contains_key(inp));
            }
            let pred = self.port_pred[k][i];
            match pred {
                Some(out) => {
                    proof {
                        assert(self@.graph.disconnect_error(out, inp) is None) by {
                            assert(self@.graph.port_pred[inp] == Some(out));
                            assert(self@.graph.has_edge(out, inp));
                        }
                    }
                    let removed = self.disconnect(out, inp);
                    proof {
                        assert(removed is Ok);
                    }
                },
                None => {},
            }
            i = i + 1;
        }
        proof {
            assert forall|x: NodePortAlias| #[trigger] self@.graph.port_pred.contains_key(x) implies
                self@.graph.port_pred[x] == Self::pred_after_outputs(g0, node_id, 0, x) by {
                if x.0 == node_id {
                    assert(x.2 < n_inputs);
                }
            }
        }
    }

    fn clear_out_conns(&mut self, node_id: NodeId)
        requires
            old(self).wf(),
            old(self)@.graph.has_node(node_id),
            forall|i: NodePortAlias| #[trigger] old(self)@.graph.port_pred.contains_key(i) && i.0 == node_id
                ==> old(self)@.graph.port_pred[i] is None,
        ensures
            final(self).wf(),
            final(self)@.values == old(self)@.values,
            final(self)@.graph.nodes == old(self)@.graph.nodes,
            final(self)@.graph.next_id == old(self)@.graph.next_id,
            forall|i: NodePortAlias| #[trigger] final(self)@.graph.port_pred.contains_key(i) ==>
                final(self)@.graph.port_pred[i] == Self::pred_after_outputs(old(self)@.graph, node_id,
                    old(self)@.graph.nodes[node_id].outputs.len(), i),
    {
        let k = node_id.0;
        let n_outputs = match &self.nodes[k] {
            Some(n) => n.outputs.len(),
            None => 0,
        };
        proof {
            assert(old(self).shape_ok(k as int));
        }
        let ghost g0 = old(self)@.graph;
        let mut o: usize = 0;
        while o < n_outputs
            invariant
                self.wf(),
                o <= n_outputs,
                n_outputs == g0.nodes[node_id].outputs.len(),
                k == node_id.0,
                g0 == old(self)@.graph,
                g0.has_node(node_id),
                self@.values == old(self)@.values,
                self@.graph.nodes == g0.nodes,
                self@.graph.next_id == g0.next_id,
                forall|x: NodePortAlias| #[trigger] self@.graph.port_pred.contains_key(x) ==>
                    self@.graph.port_pred[x] == Self::pred_after_outputs(g0, node_id, o as nat, x),
            decreases n_outputs - o,
        {
            let out: NodePortAlias = (node_id, Direction::Out, o);
            proof {
                assert(self@.graph.nodes.contains_key(node_id));
                assert(self.shape_ok(k as int));
                assert(self@.graph.port_succ.contains_key(out));
            }
            let succs = copy_ports(&self.port_succ[k][o]);
            let ghost s0 = succs@;
            proof {
                assert(s0.to_set() == self@.graph.port_succ[out]);
                assert forall|x: NodePortAlias| #[trigger] s0.contains(x) implies g0.port_pred[x] == Some(out)
                    && g0.has_input(x) by {
                    assert(s0.to_set().contains(x));
                    assert(self@.graph.has_edge(out, x));
                    assert(self@.graph.port_pred.contains_key(x));
                }
                assert forall|m: int| 0 <= m < s0.len() implies self@.graph.port_pred[#[trigger] s0[m]] == Some(out) by {
                    assert(s0.contains(s0[m]));
                    assert(s0.to_set().contains(s0[m]));
                    assert(self@.graph.has_edge(out, s0[m]));
                }
                assert forall|x: NodePortAlias| g0.port_pred.contains_key(x) && #[trigger] g0.port_pred[x] == Some(out)
                    && x.0 != node_id implies s0.contains(x) by {
                    assert(self@.graph.port_pred.contains_key(x));
                    assert(self@.graph.has_edge(out, x));
                    assert(s0.to_set().contains(x));
                }
                assert(self.shape_ok(k as int));
            }
            let mut j: usize = 0;
            while j < succs.len()
                invariant
                    self.wf(),
                    j <= s0.len(),
                    succs@ == s0,
                    s0.no_duplicates(),
                    o < n_outputs,
                    out == (node_id, Direction::Out, o),
                    g0 == old(self)@.graph,
                    g0.has_node(node_id),
                    self@.values == old(self)@.values,
                    self@.graph.nodes == g0.nodes,
                    self@.graph.next_id == g0.next_id,
                    forall|x: NodePortAlias| #[trigger] s0.contains(x) ==> g0.port_pred[x] == Some(out) && g0.has_input(x),
                    forall|x: NodePortAlias| g0.port_pred.contains_key(x) && #[trigger] g0.port_pred[x] == Some(out)
                        && x.0 != node_id ==> s0.contains(x),
                    forall|m: int| j <= m < s0.len() ==> self@.graph.port_pred[#[trigger] s0[m]] == Some(out),
                    forall|x: NodePortAlias| #[trigger] self@.graph.port_pred.contains_key(x) ==>
                        self@.graph.port_pred[x] == if s0.take(j as int).contains(x) {
                            None
                        } else {
                            Self::pred_after_outputs(g0, node_id, o as nat, x)
                        },
                decreases s0.len() - j,
            {
                let inp = succs[j];
                let ghost before = self@;
                proof {
                    assert(s0.contains(inp));
                    assert(before.graph.port_pred[inp] == Some(out));
                    assert(before.graph.disconnect_error(out, inp) is None);
                }
                let removed = self.disconnect(out, inp);
                proof {
                    assert(removed is Ok);
                    assert forall|m: int| j + 1 <= m < s0.len() implies self@.graph.port_pred[#[trigger] s0[m]] == Some(out) by {
                        assert(s0[m] != inp);
                    }
                    assert forall|x: NodePortAlias| #[trigger] self@.graph.port_pred.contains_key(x) implies
                        self@.graph.port_pred[x] == if s0.take(j + 1).contains(x) {
                            None
                        } else {
                            Self::pred_after_outputs(g0, node_id, o as nat, x)
                        } by {
                        if x == inp {
                            assert(s0.take(j + 1)[j as int] == x);
                        } else {
                            if s0.take(j + 1).contains(x) {
                                let m = choose|m: int| 0 <= m < j + 1 && #[trigger] s0.take(j + 1)[m] == x;
                                assert(s0.take(j as int)[m] == x);
                            }
                            if s0.take(j as int).contains(x) {
                                let m = choose|m: int| 0 <= m < j && #[trigger] s0.take(j as int)[m] == x;
                                assert(s0.take(j + 1)[m] == x);
                            }
                        }
                    }
                }
                j = j + 1;
            }
            proof {
                assert(s0.take(j as int) =~= s0);
                assert forall|x: NodePortAlias| #[trigger] self@.graph.port_pred.contains_key(x) implies
                    self@.graph.port_pred[x] == Self::pred_after_outputs(g0, node_id, (o + 1) as nat, x) by {
                    if g0.port_pred[x] == Some(out) && x.0 != node_id {
                        assert(s0.contains(x));
                    }
                    if s0.contains(x) {
                        assert(g0.port_pred[x] == Some(out));
                    }
                }
            }
            o = o + 1;
        }
    }

    /// Dropping the record of node `id`, which no connection touches any
    /// more, yields the flow without that node.
    proof fn lemma_tombstone(self, mid: Self, id: NodeId, orig: Self)
        requires
            orig.wf(),
            orig@.graph.has_node(id),
            mid.wf(),
            mid@.values == orig@.values,
            mid@.graph.nodes == orig@.graph.nodes,
            mid@.graph.next_id == orig@.graph.next_id,
            forall|i: NodePortAlias| #[trigger] mid@.graph.port_pred.contains_key(i) ==>
                mid@.graph.port_pred[i] == Self::pred_after_outputs(orig@.graph, id,
                    orig@.graph.nodes[id].outputs.len(), i),
            self.nodes@ == mid.nodes@.update(id.0 as int, None),
            self.port_succ@ == mid.port_succ@.update(id.0 as int, self.port_succ@[id.0 as int]),
            self.port_pred@ == mid.port_pred@.update(id.0 as int, self.port_pred@[id.0 as int]),
            self.port_succ@[id.0 as int]@ == Seq::<Vec<NodePortAlias>>::empty(),
            self.port_pred@[id.0 as int]@ == Seq::<Option<NodePortAlias>>::empty(),
        ensures
            self.wf(),
            self@ == orig@.without_node(id),
    {
        let k = id.0 as int;
        let g = orig@.graph;
        let w = orig@.without_node(id);
        g.lemma_without_node_inv(id);
        assert forall|j: int| 0 <= j < self.nodes@.len() implies #[trigger] self.shape_ok(j) by {
            if j != k {
                assert(mid.shape_ok(j));
            }
        }
        assert forall|j: int, o: int|
            0 <= j < self.nodes@.len() && 0 <= o < self.port_succ@[j].len()
                implies (#[trigger] self.port_succ@[j]@[o])@.no_duplicates() by {
            assert(j != k);
            assert(mid.port_succ@[j]@[o] == self.port_succ@[j]@[o]);
        }
        assert forall|x: NodeId| #[trigger] self@.graph.nodes.contains_key(x) == w.graph.nodes.contains_key(x) by {
            if x.0 == id.0 {
                assert(x == id);
            }
        }
        assert(self@.graph.nodes =~= w.graph.nodes) by {
            assert forall|x: NodeId| #[trigger] self@.graph.nodes.contains_key(x) implies self@.graph.nodes[x] == w.graph.nodes[x] by {
                assert(mid@.graph.nodes.contains_key(x));
            }
        }
        assert(self@.graph.port_pred =~= w.graph.port_pred) by {
            assert forall|i: NodePortAlias| #[trigger] self@.graph.port_pred.contains_key(i) == w.graph.port_pred.contains_key(i) by {
                if i.0.0 == id.0 {
                    assert(i.0 == id);
                } else if i.0.0 < self.nodes@.len() {
                    assert(self.nodes@[i.0.0 as int] == mid.nodes@[i.0.0 as int]);
                    assert(mid@.graph.port_pred.contains_key(i) == g.port_pred.contains_key(i));
                }
            }
            assert forall|i: NodePortAlias| #[trigger] self@.graph.port_pred.contains_key(i) implies self@.graph.port_pred[i] == w.graph.port_pred[i] by {
                assert(mid@.graph.port_pred.contains_key(i));
                if g.port_pred[i] is Some && g.port_pred[i]->Some_0.0 == id {
                    assert(g.has_edge(g.port_pred[i]->Some_0, i));
                }
            }
        }
        assert(self@.values =~= w.values) by {
            assert forall|o: NodePortAlias| #[trigger] self@.values.contains_key(o) == w.values.contains_key(o) by {
                if o.0.0 == id.0 {
                    assert(o.0 == id);
                }
            }
            assert forall|o: NodePortAlias| #[trigger] self@.values.contains_key(o) implies self@.values[o] == w.values[o] by {
                assert(mid@.values.contains_key(o));
            }
        }
        // The remaining successor lists no longer mention node `id`.
        assert forall|o: NodePortAlias| #[trigger] self@.graph.port_succ.contains_key(o) implies
            self@.graph.port_succ[o] == w.graph.port_succ[o] by {
            assert(mid@.graph.port_succ.contains_key(o));
            assert(self.succ_list(o) == mid.succ_list(o));
            assert forall|i: NodePortAlias| self@.graph.port_succ[o].contains(i) == w.graph.port_succ[o].contains(i) by {
                if self@.graph.port_succ[o].contains(i) {
                    assert(mid@.graph.has_edge(o, i));
                    assert(mid@.graph.port_pred.contains_key(i));
                    assert(mid@.graph.port_pred[i] == Some(o));
                    assert(g.port_pred[i] == Some(o));
                    assert(g.has_edge(o, i));
                }
                if w.graph.port_succ[o].contains(i) {
                    assert(g.has_edge(o, i));
                    assert(g.port_pred[i] == Some(o));
                    assert(mid@.graph.port_pred.contains_key(i));
                    assert(mid@.graph.has_edge(o, i));
                }
            }
            assert(self@.graph.port_succ[o] =~= w.graph.port_succ[o]);
        }
        assert forall|o: NodePortAlias| #[trigger] self@.graph.port_succ.contains_key(o) == w.graph.port_succ.contains_key(o) by {
            if o.0.0 == id.0 {
                assert(o.0 == id);
            }
        }
        assert(self@.graph.port_succ =~= w.graph.port_succ);
        assert(self@ =~= w);
    }
}


impl<T, N> Flow<T, N> {
    /// Whether node `node_id` is in the flow.
    pub fn has_node(&self, node_id: NodeId) -> (r: bool)
        requires
            self.wf(),
        ensures
            r == self@.graph.has_node(node_id),
    {
        node_id.0 < self.nodes.len() && self.nodes[node_id.0].is_some()
    }

    /// The id the next added node will receive; every node id is below it.
    pub fn id_bound(&self) -> (r: usize)
        requires
            self.wf(),
        ensures
            r == self@.graph.next_id,
    {
        self.nodes.len()
    }

    /// The latched value of output `port` of node `node_id`.
    pub fn output_val_of(&self, node_id: NodeId, port: usize) -> (r: RcRes<Option<Rc<T>>>)
        requires
            self.wf(),
        ensures
            !self@.graph.has_node(node_id) ==> r == Err::<Option<Rc<T>>, RcErr>(RcErr::NodeNotFound),
            self@.graph.has_node(node_id) && !self@.graph.has_output((node_id, Direction::Out, port))
                ==> r == Err::<Option<Rc<T>>, RcErr>(RcErr::InvalidPort),
            self@.graph.has_output((node_id, Direction::Out, port)) ==> r == Ok::<Option<Rc<T>>, RcErr>(
                self@.output_val(node_id, port),
            ),
    {
        if node_id.0 >= self.nodes.len() {
            return Err(RcErr::NodeNotFound);
        }
        match &self.nodes[node_id.0] {
            Some(n) => {
                if port < n.outputs.len() {
                    proof {
                        assert(self@.values.contains_key((node_id, Direction::Out, port)));
                    }
                    Ok(n.outputs[port].get_val())
                } else {
                    Err(RcErr::InvalidPort)
                }
            },
            None => Err(RcErr::NodeNotFound),
        }
    }

    /// Latches `val` on output `port` of node `node_id`. No node is scheduled
    /// as a consequence.
    pub fn set_output_val_of(&mut self, node_id: NodeId, port: usize, val: Rc<T>) -> (r: RcRes<()>)
        requires
            old(self).wf(),
        ensures
            final(self).wf(),
            !old(self)@.graph.has_node(node_id) ==> r == Err::<(), RcErr>(RcErr::NodeNotFound) && final(self)@
                == old(self)@,
            old(self)@.graph.has_node(node_id) && !old(self)@.graph.has_output((node_id, Direction::Out, port))
                ==> r == Err::<(), RcErr>(RcErr::InvalidPort) && final(self)@ == old(self)@,
            old(self)@.graph.has_output((node_id, Direction::Out, port)) ==> r is Ok && final(self)@ == old(
                self,
            )@.set_output(node_id, port, val),
    {
        if node_id.0 >= self.nodes.len() {
            return Err(RcErr::NodeNotFound);
        }
        let ghost k = node_id.0 as int;
        let r = match &mut self.nodes[node_id.0] {
            Some(n) => {
                if port < n.outputs.len() {
                    n.outputs[port].set_val(val);
                    Ok(())
                } else {
                    Err(RcErr::InvalidPort)
                }
            },
            None => Err(RcErr::NodeNotFound),
        };
        proof {
            if !old(self).live(k) {
                assert(self.nodes@ =~= old(self).nodes@);
                self.lemma_same_repr(*old(self));
            } else if r is Err {
                self.lemma_record_change(*old(self), k);
                assert(node_view(self.rec(k)) =~= node_view(old(self).rec(k)));
                assert(self@.graph.nodes =~= old(self)@.graph.nodes);
                assert forall|x: NodePortAlias| #[trigger] self@.values.contains_key(x) implies self@.values[x] == old(self)@.values[x] by {
                    if x.0.0 != node_id.0 {
                        assert(self.nodes@[x.0.0 as int] == old(self).nodes@[x.0.0 as int]);
                    }
                }
                assert(self@.values =~= old(self)@.values);
                assert(self@ =~= old(self)@);
            }
            if r is Ok {
                self.lemma_record_change(*old(self), k);
                assert(node_view(self.rec(k)) =~= node_view(old(self).rec(k)));
                assert(self@.graph.nodes =~= old(self)@.graph.nodes);
                let o = (node_id, Direction::Out, port);
                let w = old(self)@.set_output(node_id, port, val);
                assert forall|x: NodePortAlias| #[trigger] self@.values.contains_key(x) implies self@.values[x] == w.values[x] by {
                    if x.0.0 == node_id.0 && x.2 != port {
                        assert(self.rec(k).outputs@[x.2 as int] == old(self).rec(k).outputs@[x.2 as int]);
                    } else if x.0.0 != node_id.0 {
                        assert(self.nodes@[x.0.0 as int] == old(self).nodes@[x.0.0 as int]);
                    } else {
                        assert(x == o);
                    }
                }
                assert(self@.values =~= w.values);
                assert(self@ =~= w);
            }
        }
        r
    }

    /// A well-formed flow's view satisfies the invariants.
    pub proof fn lemma_wf_inv(&self)
        requires
            self.wf(),
        ensures
            self@.inv(),
            self@.graph.next_id <= usize::MAX,
    {
    }

    proof fn lemma_same_repr(self, other: Self)
        requires
            other.wf(),
            self.nodes@ == other.nodes@,
            self.port_succ == other.port_succ,
            self.port_pred == other.port_pred,
        ensures
            self.wf(),
            self@ == other@,
    {
        assert forall|j: int| 0 <= j < self.nodes@.len() implies #[trigger] self.shape_ok(j) by {
            assert(other.shape_ok(j));
        }
        assert(self@.graph.nodes =~= other@.graph.nodes);
        assert(self@.graph.port_succ =~= other@.graph.port_succ);
        assert(self@.graph.port_pred =~= other@.graph.port_pred);
        assert(self@.values =~= other@.values);
        assert(self@ =~= other@);
    }

    /// Only the record of node `k` changed, and only in its input states and
    /// latched values: the graph stays well formed and keeps its connections.
    proof fn lemma_record_change(self, old_flow: Self, k: int)
        requires
            old_flow.wf(),
            old_flow.live(k),
            self.nodes@.len() == old_flow.nodes@.len(),
            forall|j: int| 0 <= j < self.nodes@.len() && j != k ==> #[trigger] self.nodes@[j] == old_flow.nodes@[j],
            self.nodes@[k] is Some,
            self.rec(k).id == old_flow.rec(k).id,
            self.rec(k).inputs@.len() == old_flow.rec(k).inputs@.len(),
            self.rec(k).outputs@.len() == old_flow.rec(k).outputs@.len(),
            forall|j: int| 0 <= j < self.rec(k).inputs@.len() ==> (#[trigger] self.rec(k).inputs@[j]).0.port_type
                == old_flow.rec(k).inputs@[j].0.port_type,
            forall|j: int| 0 <= j < self.rec(k).outputs@.len() ==> (#[trigger] self.rec(k).outputs@[j]).port_type
                == old_flow.rec(k).outputs@[j].port_type,
            self.port_succ == old_flow.port_succ,
            self.port_pred == old_flow.port_pred,
        ensures
            self.wf(),
            self@.graph.next_id == old_flow@.graph.next_id,
            self@.graph.port_succ == old_flow@.graph.port_succ,
            self@.graph.port_pred == old_flow@.graph.port_pred,
            forall|id: NodeId| #[trigger] self@.graph.nodes.contains_key(id) == old_flow@.graph.nodes.contains_key(id),
            forall|id: NodeId| #[trigger] self@.graph.nodes.contains_key(id) && id.0 != k ==>
                self@.graph.nodes[id] == old_flow@.graph.nodes[id],
            self@.graph.nodes[self.rec(k).id].outputs == old_flow@.graph.nodes[self.rec(k).id].outputs,
            forall|o: NodePortAlias| #[trigger] self@.values.contains_key(o) == old_flow@.values.contains_key(o),
    {
        assert forall|j: int| 0 <= j < self.nodes@.len() implies #[trigger] self.shape_ok(j) by {
            assert(old_flow.shape_ok(j));
        }
        assert forall|id: NodeId| #[trigger] self@.graph.nodes.contains_key(id) == old_flow@.graph.nodes.contains_key(id) by {
            if 0 <= id.0 < self.nodes@.len() && id.0 != k {
                assert(self.nodes@[id.0 as int] == old_flow.nodes@[id.0 as int]);
            }
        }
        assert forall|id: NodeId| #[trigger] self@.graph.nodes.contains_key(id) && id.0 != k implies
            self@.graph.nodes[id] == old_flow@.graph.nodes[id] by {
            assert(self.nodes@[id.0 as int] == old_flow.nodes@[id.0 as int]);
        }
        assert(node_view(self.rec(k)).outputs =~= node_view(old_flow.rec(k)).outputs);
        assert(old_flow.shape_ok(k));
        assert forall|o: NodePortAlias| #[trigger] self.is_out(o) == old_flow.is_out(o) by {
            if 0 <= o.0.0 < self.nodes@.len() && o.0.0 != k {
                assert(self.nodes@[o.0.0 as int] == old_flow.nodes@[o.0.0 as int]);
            }
        }
        assert forall|i: NodePortAlias| #[trigger] self.is_in(i) == old_flow.is_in(i) by {
            if 0 <= i.0.0 < self.nodes@.len() && i.0.0 != k {
                assert(self.nodes@[i.0.0 as int] == old_flow.nodes@[i.0.0 as int]);
            }
        }
        assert(self@.graph.port_succ =~= old_flow@.graph.port_succ);
        assert(self@.graph.port_pred =~= old_flow@.graph.port_pred);
        let g = self@.graph;
        let og = old_flow@.graph;
        assert forall|o: NodePortAlias| #[trigger] self@.values.contains_key(o) == old_flow@.values.contains_key(o) by {
            assert(self.is_out(o) == old_flow.is_out(o));
        }
        assert forall|o: NodePortAlias, i: NodePortAlias|
            #[trigger] g.has_edge(o, i) implies g.has_input(i) && g.port_pred[i] == Some(o) by {
            assert(og.has_edge(o, i));
            assert(self.is_in(i) == old_flow.is_in(i));
        }
        assert forall|i: NodePortAlias|
            g.port_pred.contains_key(i) && (#[trigger] g.port_pred[i]) is Some
                implies g.has_edge(g.port_pred[i]->Some_0, i) by {
            assert(og.port_pred.contains_key(i));
        }
        assert forall|o: NodePortAlias| #[trigger] g.port_succ.contains_key(o) <==> g.has_output(o) by {
            assert(self.is_out(o) == old_flow.is_out(o));
        }
        assert forall|i: NodePortAlias| #[trigger] g.port_pred.contains_key(i) <==> g.has_input(i) by {
            assert(self.is_in(i) == old_flow.is_in(i));
        }
        assert forall|o: NodePortAlias| #[trigger] self@.values.contains_key(o) <==> g.has_output(o) by {
            assert(self.is_out(o) == old_flow.is_out(o));
        }
    }

    /// The value input `port` of node `node_id` sees: the latched value of the
    /// output connected to it, or nothing if it is unconnected.
    pub fn input_val_of(&self, node_id: NodeId, port: usize) -> (r: RcRes<Option<Rc<T>>>)
        requires
            self.wf(),
        ensures
            !self@.graph.has_input((node_id, Direction::In, port)) ==> r == Err::<Option<Rc<T>>, RcErr>(
                RcErr::InvalidPort,
            ),
            self@.graph.has_input((node_id, Direction::In, port)) ==> r == Ok::<Option<Rc<T>>, RcErr>(
                self@.input_val((node_id, Direction::In, port)),
            ),
    {
        let inp: NodePortAlias = (node_id, Direction::In, port);
        if node_id.0 >= self.nodes.len() {
            return Err(RcErr::InvalidPort);
        }
        match &self.nodes[node_id.0] {
            Some(n) => {
                if port >= n.inputs.len() {
                    return Err(RcErr::InvalidPort);
                }
            },
            None => {
                return Err(RcErr::InvalidPort);
            },
        }
        proof {
            assert(self.shape_ok(node_id.0 as int));
            assert(self@.graph.port_pred.contains_key(inp));
        }
        match self.port_pred[node_id.0][port] {
            Some(out) => {
                proof {
                    assert(self@.graph.has_edge(out, inp));
                }
                self.output_val_of(out.0, out.2)
            },
            None => Ok(None),
        }
    }

    /// The values the inputs of node `node_id` see, in declaration order.
    pub fn input_values_of(&self, node_id: NodeId) -> (r: RcRes<Vec<Option<Rc<T>>>>)
        requires
            self.wf(),
        ensures
            !self@.graph.has_node(node_id) ==> r == Err::<Vec<Option<Rc<T>>>, RcErr>(RcErr::NodeNotFound),
            self@.graph.has_node(node_id) ==> (r matches Ok(v) && v@.len() == self@.graph.nodes[node_id].inputs.len()
                && forall|k: int| 0 <= k < v@.len() ==> #[trigger] v@[k] == self@.input_val(
                    (node_id, Direction::In, k as usize),
                )),
    {
        if node_id.0 >= self.nodes.len() {
            return Err(RcErr::NodeNotFound);
        }
        let n_inputs = match &self.nodes[node_id.0] {
            Some(n) => n.inputs.len(),
            None => {
                return Err(RcErr::NodeNotFound);
            },
        };
        let mut vals: Vec<Option<Rc<T>>> = Vec::new();
        let mut k: usize = 0;
        while k < n_inputs
            invariant
                self.wf(),
                self@.graph.has_node(node_id),
                n_inputs == self@.graph.nodes[node_id].inputs.len(),
                k <= n_inputs,
                vals@.len() == k,
                forall|j: int| 0 <= j < k ==> #[trigger] vals@[j] == self@.input_val((node_id, Direction::In, j as usize)),
            decreases n_inputs - k,
        {
            let v = self.input_val_of(node_id, k);
            match v {
                Ok(x) => vals.push(x),
                Err(_) => {
                    proof {
                        assert(false);
                    }
                    return Err(RcErr::InvalidPort);
                },
            }
            k = k + 1;
        }
        Ok(vals)
    }

    /// Updates node `node_id`: runs its `on_update` with `env`. The flow
    /// itself is left as it was.
    pub fn update_node(&mut self, node_id: NodeId, env: &mut NodeInvocationEnv<T>) -> (r: RcRes<()>)
        where
            N: Node<T>,
        requires
            old(self).wf(),
        ensures
            final(self).wf(),
            final(self)@ == old(self)@,
            !old(self)@.graph.has_node(node_id) ==> r == Err::<(), RcErr>(RcErr::NodeNotFound),
    {
        if node_id.0 >= self.nodes.len() {
            return Err(RcErr::NodeNotFound);
        }
        let ghost k = node_id.0 as int;
        let r = match &mut self.nodes[node_id.0] {
            Some(n) => n.node.on_update(env),
            None => Err(RcErr::NodeNotFound),
        };
        proof {
            if !old(self).live(k) {
                assert(self.nodes@ =~= old(self).nodes@);
                self.lemma_same_repr(*old(self));
            } else {
                self.lemma_record_change(*old(self), k);
                assert(node_view(self.rec(k)) =~= node_view(old(self).rec(k)));
                assert(self@.graph.nodes =~= old(self)@.graph.nodes);
                assert forall|x: NodePortAlias| #[trigger] self@.values.contains_key(x) implies self@.values[x] == old(self)@.values[x] by {
                    if x.0.0 != node_id.0 {
                        assert(self.nodes@[x.0.0 as int] == old(self).nodes@[x.0.0 as int]);
                    }
                }
                assert(self@.values =~= old(self)@.values);
                assert(self@ =~= old(self)@);
            }
        }
        r
    }

    /// Sets the state of every input of node `node_id`. Deactivated inputs
    /// keep their connections but no longer cause their node to be scheduled.
    pub fn mask_inputs(&mut self, node_id: NodeId, mask: Vec<InputState>) -> (r: RcRes<()>)
        requires
            old(self).wf(),
        ensures
            final(self).wf(),
            !old(self)@.graph.has_node(node_id) ==> r == Err::<(), RcErr>(RcErr::NodeNotFound) && final(self)@
                == old(self)@,
            old(self)@.graph.has_node(node_id) && mask@.len() != old(self)@.graph.nodes[node_id].inputs.len()
                ==> r == Err::<(), RcErr>(RcErr::PortsMissmatch) && final(self)@ == old(self)@,
            old(self)@.graph.has_node(node_id) && mask@.len() == old(self)@.graph.nodes[node_id].inputs.len()
                ==> r is Ok && final(self)@ == (FlowView {
                    graph: old(self)@.graph.mask(node_id, mask@),
                    ..old(self)@
                }),
    {
        if node_id.0 >= self.nodes.len() {
            return Err(RcErr::NodeNotFound);
        }
        let ghost k = node_id.0 as int;
        let r = match &mut self.nodes[node_id.0] {
            Some(n) => {
                if mask.len() != n.inputs.len() {
                    Err(RcErr::PortsMissmatch)
                } else {
                    let ghost before = n.inputs@;
                    let ghost id0 = n.id;
                    let ghost outs0 = n.outputs@;
                    let mut i: usize = 0;
                    while i < mask.len()
                        invariant
                            n.id == id0,
                            n.outputs@ == outs0,
                            i <= mask@.len(),
                            n.inputs@.len() == mask@.len(),
                            before.len() == mask@.len(),
                            forall|j: int| 0 <= j < mask@.len() ==> (#[trigger] n.inputs@[j]).0 == before[j].0,
                            forall|j: int| 0 <= j < i ==> (#[trigger] n.inputs@[j]).1 == mask@[j],
                        decreases mask@.len() - i,
                    {
                        n.inputs[i].1 = mask[i];
                        i = i + 1;
                    }
                    Ok(())
                }
            },
            None => Err(RcErr::NodeNotFound),
        };
        proof {
            if !old(self).live(k) {
                assert(self.nodes@ =~= old(self).nodes@);
                self.lemma_same_repr(*old(self));
            } else if r is Err {
                self.lemma_record_change(*old(self), k);
                assert(node_view(self.rec(k)) =~= node_view(old(self).rec(k)));
                assert(self@.graph.nodes =~= old(self)@.graph.nodes);
                assert forall|x: NodePortAlias| #[trigger] self@.values.contains_key(x) implies self@.values[x] == old(self)@.values[x] by {
                    if x.0.0 != node_id.0 {
                        assert(self.nodes@[x.0.0 as int] == old(self).nodes@[x.0.0 as int]);
                    }
                }
                assert(self@.values =~= old(self)@.values);
                assert(self@ =~= old(self)@);
            }
            if r is Ok {
                assert(old(self).shape_ok(k));
                self.lemma_record_change(*old(self), k);
                let w = FlowView { graph: old(self)@.graph.mask(node_id, mask@), ..old(self)@ };
                assert(self.rec(k).id == node_id);
                assert(node_view(self.rec(k)).inputs =~= w.graph.nodes[node_id].inputs);
                assert(node_view(self.rec(k)) =~= w.graph.nodes[node_id]);
                assert(self@.graph.nodes =~= w.graph.nodes);
                assert forall|x: NodePortAlias| #[trigger] self@.values.contains_key(x) implies self@.values[x] == old(self)@.values[x] by {
                    if x.0.0 != node_id.0 {
                        assert(self.nodes@[x.0.0 as int] == old(self).nodes@[x.0.0 as int]);
                    }
                }
                assert(self@.values =~= old(self)@.values);
                assert(self@ =~= w);
            }
        }
        r
    }
}


/// Whether `n` occurs in `v`.
fn contains_node(v: &Vec<NodeId>, n: NodeId) -> (r: bool)
    ensures
        r == v@.contains(n),
{
    let mut k: usize = 0;
    while k < v.len()
        invariant
            k <= v@.len(),
            forall|j: int| 0 <= j < k ==> v@[j] != n,
        decreases v@.len() - k,
    {
        if v[k] == n {
            return true;
        }
        k = k + 1;
    }
    false
}

/// Appends `n` to `v` unless it is already there.
fn push_unique(v: &mut Vec<NodeId>, n: NodeId)
    requires
        old(v)@.no_duplicates(),
    ensures
        final(v)@.no_duplicates(),
        forall|x: NodeId| #[trigger] final(v)@.contains(x) <==> old(v)@.contains(x) || x == n,
{
    if !contains_node(v, n) {
        v.push(n);
        proof {
            assert forall|x: NodeId| #[trigger] v@.contains(x) <==> old(v)@.contains(x) || x == n by {
                if old(v)@.contains(x) {
                    let j = choose|j: int| 0 <= j < old(v)@.len() && old(v)@[j] == x;
                    assert(v@[j] == x);
                }
                if x == n {
                    assert(v@[old(v)@.len() as int] == x);
                }
            }
        }
    }
}

impl<T, N> Flow<T, N> {
    spec fn pred_node_is(g: GraphView, i: NodePortAlias, b: NodeId) -> bool {
        g.port_pred[i] is Some && g.port_pred[i]->Some_0.0 == b
    }

    spec fn pred_node_at(g: GraphView, id: NodeId, j: int, b: NodeId) -> bool {
        Self::pred_node_is(g, (id, Direction::In, j as usize), b)
    }

    spec fn out_targets(g: GraphView, id: NodeId, j: int) -> Set<NodeId> {
        g.port_targets((id, Direction::Out, j as usize), false)
    }

    fn input_is_active(&self, i: NodePortAlias) -> (r: bool)
        requires
            self.wf(),
            self@.graph.has_input(i),
        ensures
            r == (self@.graph.input_state(i) == InputState::Active),
    {
        match &self.nodes[i.0.0] {
            Some(n) => n.inputs[i.2].1 == InputState::Active,
            None => false,
        }
    }

    /// Adds to `res` the nodes owning the inputs connected to output `o`
    /// (only through active inputs, with `masked`).
    fn collect_port_targets(&self, o: NodePortAlias, masked: bool, res: &mut Vec<NodeId>)
        requires
            self.wf(),
            self@.graph.has_output(o),
            old(res)@.no_duplicates(),
        ensures
            final(res)@.no_duplicates(),
            forall|b: NodeId| #[trigger] final(res)@.contains(b) <==> old(res)@.contains(b)
                || self@.graph.port_targets(o, masked).contains(b),
    {
        proof {
            assert(self.shape_ok(o.0.0 as int));
            assert(self@.graph.port_succ.contains_key(o));
        }
        let succs = &self.port_succ[o.0.0][o.2];
        let ghost g = self@.graph;
        let mut j: usize = 0;
        while j < succs.len()
            invariant
                self.wf(),
                g == self@.graph,
                g.has_output(o),
                succs@.to_set() == g.port_succ[o],
                j <= succs@.len(),
                res@.no_duplicates(),
                forall|b: NodeId| #[trigger] res@.contains(b) <==> old(res)@.contains(b)
                    || exists|m: int| 0 <= m < j && (#[trigger] succs@[m]).0 == b
                        && (!masked || g.input_state(succs@[m]) == InputState::Active),
            decreases succs@.len() - j,
        {
            let x = succs[j];
            proof {
                assert(succs@.to_set().contains(x));
                assert(g.has_edge(o, x));
            }
            let ghost before = res@;
            if !masked || self.input_is_active(x) {
                push_unique(res, x.0);
            }
            proof {
                assert forall|b: NodeId| #[trigger] res@.contains(b) <==> old(res)@.contains(b)
                    || exists|m: int| 0 <= m < j + 1 && (#[trigger] succs@[m]).0 == b
                        && (!masked || g.input_state(succs@[m]) == InputState::Active) by {
                    if exists|m: int| 0 <= m < j + 1 && (#[trigger] succs@[m]).0 == b
                        && (!masked || g.input_state(succs@[m]) == InputState::Active) {
                        let m = choose|m: int| 0 <= m < j + 1 && (#[trigger] succs@[m]).0 == b
                            && (!masked || g.input_state(succs@[m]) == InputState::Active);
                        if m < j {
                            assert(before.contains(b));
                        }
                    }
                }
            }
            j = j + 1;
        }
        proof {
            assert forall|b: NodeId| #[trigger] res@.contains(b) <==> old(res)@.contains(b)
                || g.port_targets(o, masked).contains(b) by {
                if g.port_targets(o, masked).contains(b) {
                    let i = choose|i: NodePortAlias| i.0 == b && #[trigger] g.port_succ[o].contains(i)
                        && (!masked || g.input_state(i) == InputState::Active);
                    assert(succs@.to_set().contains(i));
                    let m = choose|m: int| 0 <= m < succs@.len() && succs@[m] == i;
                    assert(succs@[m].0 == b);
                }
                if exists|m: int| 0 <= m < j && (#[trigger] succs@[m]).0 == b
                    && (!masked || g.input_state(succs@[m]) == InputState::Active) {
                    let m = choose|m: int| 0 <= m < j && (#[trigger] succs@[m]).0 == b
                        && (!masked || g.input_state(succs@[m]) == InputState::Active);
                    assert(succs@.to_set().contains(succs@[m]));
                }
            }
        }
    }

    /// The distinct nodes fed by output `port`; with `consider_masking`, only
    /// through inputs that are active. Fails with `InvalidPort` if `port` is
    /// not an output of the flow.
    pub fn succ_nodes_of_port(&self, port: NodePortAlias, consider_masking: bool) -> (r: RcRes<Vec<NodeId>>)
        requires
            self.wf(),
        ensures
            !self@.graph.has_output(port) ==> r == Err::<Vec<NodeId>, RcErr>(RcErr::InvalidPort),
            self@.graph.has_output(port) ==> (r matches Ok(v) && v@.no_duplicates() && v@.to_set()
                == self@.graph.port_targets(port, consider_masking)),
    {
        let (nid, dir, prt) = port;
        if dir != Direction::Out || nid.0 >= self.nodes.len() {
            return Err(RcErr::InvalidPort);
        }
        match &self.nodes[nid.0] {
            Some(n) => {
                if prt >= n.outputs.len() {
                    return Err(RcErr::InvalidPort);
                }
            },
            None => {
                return Err(RcErr::InvalidPort);
            },
        }
        let mut res: Vec<NodeId> = Vec::new();
        self.collect_port_targets(port, consider_masking, &mut res);
        proof {
            assert(res@.to_set() =~= self@.graph.port_targets(port, consider_masking));
        }
        Ok(res)
    }

    /// The distinct nodes fed by any of the outputs `ports`. Fails with
    /// `InvalidPort` if one of them is not an output of the flow.
    pub fn succ_nodes_of_ports(&self, ports: Vec<NodePortAlias>, consider_masking: bool) -> (r: RcRes<Vec<NodeId>>)
        requires
            self.wf(),
        ensures
            (exists|k: int| 0 <= k < ports@.len() && !self@.graph.has_output(#[trigger] ports@[k])) ==> r == Err::<
                Vec<NodeId>,
                RcErr,
            >(RcErr::InvalidPort),
            (forall|k: int| 0 <= k < ports@.len() ==> self@.graph.has_output(#[trigger] ports@[k])) ==> (r matches Ok(v)
                && v@.no_duplicates() && forall|b: NodeId| #[trigger] v@.contains(b) <==> exists|k: int|
                0 <= k < ports@.len() && self@.graph.port_targets(#[trigger] ports@[k], consider_masking).contains(b)),
    {
        let mut res: Vec<NodeId> = Vec::new();
        let mut k: usize = 0;
        while k < ports.len()
            invariant
                self.wf(),
                k <= ports@.len(),
                forall|j: int| 0 <= j < k ==> self@.graph.has_output(#[trigger] ports@[j]),
                res@.no_duplicates(),
                forall|b: NodeId| #[trigger] res@.contains(b) <==> exists|j: int|
                    0 <= j < k && self@.graph.port_targets(#[trigger] ports@[j], consider_masking).contains(b),
            decreases ports@.len() - k,
        {
            let p = ports[k];
            let targets = self.succ_nodes_of_port(p, consider_masking);
            match targets {
                Ok(_) => {
                    let ghost before = res@;
                    self.collect_port_targets(p, consider_masking, &mut res);
                    proof {
                        assert forall|b: NodeId| #[trigger] res@.contains(b) <==> exists|j: int|
                            0 <= j < k + 1 && self@.graph.port_targets(#[trigger] ports@[j], consider_masking).contains(b) by {
                            if exists|j: int| 0 <= j < k + 1 && self@.graph.port_targets(#[trigger] ports@[j], consider_masking).contains(b) {
                                let j = choose|j: int| 0 <= j < k + 1 && self@.graph.port_targets(#[trigger] ports@[j], consider_masking).contains(b);
                                if j < k {
                                    assert(before.contains(b));
                                }
                            }
                        }
                    }
                },
                Err(e) => {
                    return Err(e);
                },
            }
            k = k + 1;
        }
        Ok(res)
    }

    /// The distinct nodes that some output of `node_id` is connected to.
    pub fn succ_nodes(&self, node_id: NodeId) -> (r: RcRes<Vec<NodeId>>)
        requires
            self.wf(),
        ensures
            !self@.graph.has_node(node_id) ==> r == Err::<Vec<NodeId>, RcErr>(RcErr::NodeNotFound),
            self@.graph.has_node(node_id) ==> (r matches Ok(v) && v@.no_duplicates() && v@.to_set()
                == self@.graph.node_succ(node_id)),
    {
        if node_id.0 >= self.nodes.len() {
            return Err(RcErr::NodeNotFound);
        }
        let n_outputs = match &self.nodes[node_id.0] {
            Some(n) => n.outputs.len(),
            None => {
                return Err(RcErr::NodeNotFound);
            },
        };
        let ghost g = self@.graph;
        let mut res: Vec<NodeId> = Vec::new();
        let mut k: usize = 0;
        while k < n_outputs
            invariant
                self.wf(),
                g == self@.graph,
                g.has_node(node_id),
                n_outputs == g.nodes[node_id].outputs.len(),
                k <= n_outputs,
                res@.no_duplicates(),
                forall|b: NodeId| #[trigger] res@.contains(b) <==> exists|j: int|
                    0 <= j < k && Self::out_targets(g, node_id, j).contains(b),
            decreases n_outputs - k,
        {
            let ghost before = res@;
            self.collect_port_targets((node_id, Direction::Out, k), false, &mut res);
            proof {
                assert forall|b: NodeId| #[trigger] res@.contains(b) <==> exists|j: int|
                    0 <= j < k + 1 && Self::out_targets(g, node_id, j).contains(b) by {
                    if exists|j: int| 0 <= j < k + 1 && Self::out_targets(g, node_id, j).contains(b) {
                        let j = choose|j: int| 0 <= j < k + 1 && Self::out_targets(g, node_id, j).contains(b);
                        if j < k {
                            assert(before.contains(b));
                        } else {
                            assert(j as usize == k);
                        }
                    }
                    if res@.contains(b) && !before.contains(b) {
                        assert(Self::out_targets(g, node_id, k as int).contains(b));
                        assert((k as int) as usize == k);
                    }
                }
            }
            k = k + 1;
        }
        proof {
            assert forall|b: NodeId| #[trigger] res@.contains(b) <==> g.node_succ(node_id).contains(b) by {
                if g.node_succ(node_id).contains(b) {
                    let (o, i) = choose|o: NodePortAlias, i: NodePortAlias| o.0 == node_id && i.0 == b && #[trigger] g.has_edge(o, i);
                    assert(g.has_output(o));
                    assert(o == (node_id, Direction::Out, (o.2 as int) as usize));
                    assert(g.port_targets(o, false).contains(b));
                    assert(Self::out_targets(g, node_id, o.2 as int).contains(b));
                }
                if res@.contains(b) {
                    let j = choose|j: int| 0 <= j < k && Self::out_targets(g, node_id, j).contains(b);
                    let o = (node_id, Direction::Out, j as usize);
                    let i = choose|i: NodePortAlias| i.0 == b && #[trigger] g.port_succ[o].contains(i);
                    assert(g.has_edge(o, i));
                }
            }
            assert(res@.to_set() =~= g.node_succ(node_id));
        }
        Ok(res)
    }

    /// The distinct nodes connected to some input of `node_id`.
    pub fn pred_nodes(&self, node_id: NodeId) -> (r: RcRes<Vec<NodeId>>)
        requires
            self.wf(),
        ensures
            !self@.graph.has_node(node_id) ==> r == Err::<Vec<NodeId>, RcErr>(RcErr::NodeNotFound),
            self@.graph.has_node(node_id) ==> (r matches Ok(v) && v@.no_duplicates() && v@.to_set()
                == self@.graph.node_pred(node_id)),
    {
        if node_id.0 >= self.nodes.len() {
            return Err(RcErr::NodeNotFound);
        }
        let n_inputs = match &self.nodes[node_id.0] {
            Some(n) => n.inputs.len(),
            None => {
                return Err(RcErr::NodeNotFound);
            },
        };
        proof {
            assert(self.shape_ok(node_id.0 as int));
        }
        let ghost g = self@.graph;
        let mut res: Vec<NodeId> = Vec::new();
        let mut k: usize = 0;
        while k < n_inputs
            invariant
                self.wf(),
                g == self@.graph,
                g.has_node(node_id),
                self.shape_ok(node_id.0 as int),
                self.live(node_id.0 as int),
                n_inputs == g.nodes[node_id].inputs.len(),
                k <= n_inputs,
                res@.no_duplicates(),
                forall|b: NodeId| #[trigger] res@.contains(b) <==> exists|j: int|
                    0 <= j < k && Self::pred_node_at(g, node_id, j, b),
            decreases n_inputs - k,
        {
            let ghost before = res@;
            let ghost i = (node_id, Direction::In, k);
            proof {
                assert(g.port_pred.contains_key(i));
            }
            match self.port_pred[node_id.0][k] {
                Some(o) => push_unique(&mut res, o.0),
                None => {},
            }
            proof {
                assert forall|b: NodeId| #[trigger] res@.contains(b) <==> exists|j: int|
                    0 <= j < k + 1 && Self::pred_node_at(g, node_id, j, b) by {
                    if exists|j: int| 0 <= j < k + 1 && Self::pred_node_at(g, node_id, j, b) {
                        let j = choose|j: int| 0 <= j < k + 1 && Self::pred_node_at(g, node_id, j, b);
                        if j < k {
                            assert(before.contains(b));
                        } else {
                            assert(j as usize == k);
                        }
                    }
                    if res@.contains(b) && !before.contains(b) {
                        assert(Self::pred_node_at(g, node_id, k as int, b));
                    }
                }
            }
            k = k + 1;
        }
        proof {
            assert forall|b: NodeId| #[trigger] res@.contains(b) <==> g.node_pred(node_id).contains(b) by {
                if g.node_pred(node_id).contains(b) {
                    let i = choose|i: NodePortAlias| i.0 == node_id && #[trigger] g.port_pred.contains_key(i)
                        && g.port_pred[i] is Some && g.port_pred[i]->Some_0.0 == b;
                    assert(i == (node_id, Direction::In, (i.2 as int) as usize));
                    assert(Self::pred_node_at(g, node_id, i.2 as int, b));
                }
                if res@.contains(b) {
                    let j = choose|j: int| 0 <= j < k && Self::pred_node_at(g, node_id, j, b);
                    let i = (node_id, Direction::In, j as usize);
                    assert(g.port_pred.contains_key(i));
                }
            }
            assert(res@.to_set() =~= g.node_pred(node_id));
        }
        Ok(res)
    }
}


impl<T, N> Flow<T, N> {
    /// Latches what node `node_id` pushed during an update: each value in
    /// `env`'s updates on the output it names, in order. Fails, leaving the
    /// flow as it was, with `NodeNotFound` if there is no such node, or with
    /// `InvalidPort` if an update names an output the node does not have.
    pub fn latch_updates(&mut self, node_id: NodeId, env: &NodeInvocationEnv<T>) -> (r: RcRes<()>)
        requires
            old(self).wf(),
        ensures
            final(self).wf(),
            !old(self)@.graph.has_node(node_id) ==> r == Err::<(), RcErr>(RcErr::NodeNotFound) && final(self)@
                == old(self)@,
            old(self)@.graph.has_node(node_id) && (exists|k: int| 0 <= k < env.updates().len()
                && !old(self)@.graph.has_output((node_id, Direction::Out, (#[trigger] env.updates()[k]).0)))
                ==> r == Err::<(), RcErr>(RcErr::InvalidPort) && final(self)@ == old(self)@,
            (forall|k: int| 0 <= k < env.updates().len() ==> old(self)@.graph.has_output(
                (node_id, Direction::Out, (#[trigger] env.updates()[k]).0),
            )) && old(self)@.graph.has_node(node_id) ==> r is Ok && final(self)@ == old(self)@.latch(
                node_id,
                env.updates(),
            ),
    {
        if !self.has_node(node_id) {
            return Err(RcErr::NodeNotFound);
        }
        let updates = env.get_updates();
        let ghost ups = updates@;
        let mut k: usize = 0;
        while k < updates.len()
            invariant
                self.wf(),
                self@.graph.has_node(node_id),
                ups == env.updates(),
                updates@ == ups,
                k <= ups.len(),
                forall|j: int| 0 <= j < k ==> self@.graph.has_output((node_id, Direction::Out, (#[trigger] ups[j]).0)),
            decreases ups.len() - k,
        {
            match self.output_val_of(node_id, updates[k].0) {
                Ok(_) => {},
                Err(_) => {
                    return Err(RcErr::InvalidPort);
                },
            }
            k = k + 1;
        }
        proof {
            self.lemma_wf_inv();
        }
        let mut k: usize = 0;
        while k < updates.len()
            invariant
                self.wf(),
                updates@ == ups,
                ups == env.updates(),
                k <= ups.len(),
                forall|j: int| 0 <= j < ups.len() ==> old(self)@.graph.has_output(
                    (node_id, Direction::Out, (#[trigger] ups[j]).0)),
                self@ == old(self)@.latch(node_id, ups.take(k as int)),
            decreases ups.len() - k,
        {
            let (port, val) = &updates[k];
            proof {
                old(self)@.lemma_latch(node_id, ups.take(k as int));
                assert(old(self)@.values.contains_key((node_id, Direction::Out, ups[k as int].0)));
                assert(ups.take(k + 1).drop_last() =~= ups.take(k as int));
            }
            match self.set_output_val_of(node_id, *port, Rc::clone(val)) {
                Ok(()) => {},
                Err(e) => {
                    proof {
                        assert(false);
                    }
                    return Err(e);
                },
            }
            k = k + 1;
        }
        proof {
            assert(ups.take(k as int) =~= ups);
        }
        Ok(())
    }
}

} // verus!
