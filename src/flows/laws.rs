//! Laws of the flow model: the graph invariants, and how operations compose.
use std::rc::Rc;
use vstd::prelude::*;

use crate::flows::{Direction, FlowView, GraphView, InputState, NodePortAlias};
use crate::nodes::{NodeId, NodePortType};

verus! {

/// An input is in the successor set of an output exactly when that output is
/// its predecessor.
pub proof fn lemma_succ_pred_agree(g: GraphView, o: NodePortAlias, i: NodePortAlias)
    requires
        g.inv(),
        g.has_output(o),
        g.has_input(i),
    ensures
        g.port_succ[o].contains(i) <==> g.port_pred[i] == Some(o),
{
    if g.port_succ[o].contains(i) {
        assert(g.has_edge(o, i));
    }
    if g.port_pred[i] == Some(o) {
        assert(g.port_pred.contains_key(i));
    }
}

/// Every input has at most one predecessor: no input is in the successor
/// sets of two different outputs.
pub proof fn lemma_single_predecessor(g: GraphView, o1: NodePortAlias, o2: NodePortAlias, i: NodePortAlias)
    requires
        g.inv(),
        g.port_succ.contains_key(o1),
        g.port_succ.contains_key(o2),
        g.port_succ[o1].contains(i),
        g.port_succ[o2].contains(i),
    ensures
        o1 == o2,
{
    assert(g.has_edge(o1, i));
    assert(g.has_edge(o2, i));
}

/// The node-level adjacency agrees with the port-level edges, in both directions.
pub proof fn lemma_node_adjacency(g: GraphView, a: NodeId, b: NodeId)
    requires
        g.inv(),
    ensures
        g.node_succ(a).contains(b) <==> g.node_pred(b).contains(a),
        g.node_succ(a).contains(b) <==> exists|o: NodePortAlias, i: NodePortAlias|
            o.0 == a && i.0 == b && #[trigger] g.has_edge(o, i),
{
    if g.node_succ(a).contains(b) {
        let (o, i) = choose|o: NodePortAlias, i: NodePortAlias| o.0 == a && i.0 == b && #[trigger] g.has_edge(o, i);
        assert(g.port_pred.contains_key(i));
    }
    if g.node_pred(b).contains(a) {
        let i = choose|i: NodePortAlias| i.0 == b && #[trigger] g.port_pred.contains_key(i) && g.port_pred[i] is Some
            && g.port_pred[i]->Some_0.0 == a;
        assert(g.has_edge(g.port_pred[i]->Some_0, i));
    }
}

/// The masked successors of an output are its successors whose input is
/// active, and the nodes scheduled through it are the owners of those inputs.
pub proof fn lemma_masked_succ(g: GraphView, o: NodePortAlias, i: NodePortAlias, b: NodeId)
    requires
        g.inv(),
        g.has_output(o),
    ensures
        g.port_succ_masked(o).contains(i) <==> g.port_succ[o].contains(i) && g.input_state(i) == InputState::Active,
        g.port_succ_masked(o).subset_of(g.port_succ[o]),
        g.port_targets(o, true).contains(b) <==> exists|x: NodePortAlias|
            x.0 == b && #[trigger] g.port_succ_masked(o).contains(x),
{
    if g.port_targets(o, true).contains(b) {
        let x = choose|x: NodePortAlias| x.0 == b && #[trigger] g.port_succ[o].contains(x) && (!true || g.input_state(x)
            == InputState::Active);
        assert(g.port_succ_masked(o).contains(x));
    }
    if exists|x: NodePortAlias| x.0 == b && #[trigger] g.port_succ_masked(o).contains(x) {
        let x = choose|x: NodePortAlias| x.0 == b && #[trigger] g.port_succ_masked(o).contains(x);
        assert(g.port_succ[o].contains(x));
    }
}

/// Connecting two ports and then disconnecting them gives back the graph
/// that was there before.
pub proof fn lemma_connect_then_disconnect(g: GraphView, from: NodePortAlias, to: NodePortAlias)
    requires
        g.inv(),
        g.connect_error(from, to) is None,
    ensures
        g.connect(from, to).inv(),
        g.connect(from, to).disconnect_error(from, to) is None,
        g.connect(from, to).disconnect(from, to) == g,
{
    g.lemma_connect_inv(from, to);
    let c = g.connect(from, to);
    let d = c.disconnect(from, to);
    assert(!g.port_succ[from].contains(to)) by {
        if g.port_succ[from].contains(to) {
            assert(g.has_edge(from, to));
        }
    }
    assert(d.port_succ[from] =~= g.port_succ[from]);
    assert(d.port_succ =~= g.port_succ);
    assert(d.port_pred =~= g.port_pred);
    assert(d =~= g);
}

/// Adding a node and then removing it gives back the flow that was there
/// before, but for the id that was used up.
pub proof fn lemma_add_then_remove<T>(v: FlowView<T>, ins: Seq<NodePortType>, outs: Seq<NodePortType>)
    requires
        v.inv(),
        v.graph.next_id <= usize::MAX,
    ensures
        v.with_node(ins, outs).inv(),
        v.with_node(ins, outs).without_node(NodeId(v.graph.next_id as usize)) == (FlowView {
            graph: GraphView { next_id: v.graph.next_id + 1, ..v.graph },
            ..v
        }),
{
    let id = NodeId(v.graph.next_id as usize);
    let a = v.with_node(ins, outs);
    let r = a.without_node(id);
    let w = FlowView { graph: GraphView { next_id: v.graph.next_id + 1, ..v.graph }, ..v };
    let g = v.graph;
    assert(!g.nodes.contains_key(id));
    // the invariants of the grown graph
    assert forall|o: NodePortAlias, i: NodePortAlias|
        #[trigger] a.graph.has_edge(o, i) implies a.graph.has_input(i) && a.graph.port_pred[i] == Some(o) by {
        assert(g.has_edge(o, i));
    }
    assert forall|i: NodePortAlias|
        a.graph.port_pred.contains_key(i) && (#[trigger] a.graph.port_pred[i]) is Some
            implies a.graph.has_edge(a.graph.port_pred[i]->Some_0, i) by {
        assert(g.port_pred.contains_key(i));
    }
    assert forall|o: NodePortAlias| #[trigger] a.values.contains_key(o) <==> a.graph.has_output(o) by {
        if o.0 != id {
            assert(v.values.contains_key(o) == g.has_output(o));
        }
    }
    assert(a.inv());
    // removal undoes the addition
    assert(r.graph.nodes =~= g.nodes);
    assert forall|o: NodePortAlias| #[trigger] r.graph.port_succ.contains_key(o) implies r.graph.port_succ[o] == g.port_succ[o] by {
        assert forall|i: NodePortAlias| r.graph.port_succ[o].contains(i) == g.port_succ[o].contains(i) by {
            if g.port_succ[o].contains(i) {
                assert(g.has_edge(o, i));
            }
        }
        assert(r.graph.port_succ[o] =~= g.port_succ[o]);
    }
    assert forall|o: NodePortAlias| #[trigger] r.graph.port_succ.contains_key(o) == g.port_succ.contains_key(o) by {
        if g.port_succ.contains_key(o) {
            assert(g.has_output(o));
        }
    }
    assert(r.graph.port_succ =~= g.port_succ);
    assert forall|i: NodePortAlias| #[trigger] r.graph.port_pred.contains_key(i) == g.port_pred.contains_key(i) by {
        if g.port_pred.contains_key(i) {
            assert(g.has_input(i));
        }
    }
    assert forall|i: NodePortAlias| #[trigger] r.graph.port_pred.contains_key(i) implies r.graph.port_pred[i] == g.port_pred[i] by {
        if g.port_pred[i] is Some {
            assert(g.has_edge(g.port_pred[i]->Some_0, i));
        }
    }
    assert(r.graph.port_pred =~= g.port_pred);
    assert forall|o: NodePortAlias| #[trigger] r.values.contains_key(o) == v.values.contains_key(o) by {
        if v.values.contains_key(o) {
            assert(g.has_output(o));
        }
    }
    assert(r.values =~= v.values);
    assert(r =~= w);
}

/// After latching a value on an output, reading that output gives the value.
pub proof fn lemma_set_then_get<T>(v: FlowView<T>, id: NodeId, port: usize, val: Rc<T>)
    requires
        v.inv(),
        v.graph.has_output((id, Direction::Out, port)),
    ensures
        v.set_output(id, port, val).inv(),
        v.set_output(id, port, val).output_val(id, port) == Some(val),
{
}

/// A push on output `o` does not schedule node `i.0` through its inactive
/// input `i`: if every input of that node fed by `o` is inactive, the node is
/// not among the nodes a push on `o` schedules.
pub proof fn lemma_inactive_input_not_scheduled(g: GraphView, i: NodePortAlias)
    requires
        g.inv(),
        g.has_input(i),
        g.port_pred[i] is Some,
        g.input_state(i) == InputState::Inactive,
        forall|x: NodePortAlias| #[trigger] g.has_input(x) && x.0 == i.0 && g.port_pred[x] == g.port_pred[i]
            ==> g.input_state(x) == InputState::Inactive,
    ensures
        g.has_output(g.port_pred[i]->Some_0),
        !g.port_targets(g.port_pred[i]->Some_0, true).contains(i.0),
{
    let o = g.port_pred[i]->Some_0;
    assert(g.port_pred.contains_key(i));
    if g.port_targets(o, true).contains(i.0) {
        let x = choose|x: NodePortAlias| x.0 == i.0 && #[trigger] g.port_succ[o].contains(x) && (!true || g.input_state(x)
            == InputState::Active);
        assert(g.has_edge(o, x));
        assert(g.has_input(x));
    }
}

} // verus!
