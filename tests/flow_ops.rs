use std::rc::Rc;

use ryvencore::flows::{Direction, Flow, InputState, NodePortAlias};
use ryvencore::nodes::{Node, NodeId, NodeInput, NodeInvocationEnv, NodeOutput, NodePortType};
use ryvencore::{RcErr, RcRes};

/// A node with a given number of inputs and outputs that pushes nothing.
struct Plain {
    inputs: usize,
    outputs: usize,
    preset: Option<i32>,
}

impl Plain {
    fn new(inputs: usize, outputs: usize) -> Self {
        Plain { inputs, outputs, preset: None }
    }
}

impl Node<i32> for Plain {
    fn init(&mut self, _id: NodeId) {}
    fn init_inputs(&self) -> Vec<NodeInput> {
        (0..self.inputs).map(|k| NodeInput { label: format!("in{}", k), port_type: NodePortType::Data }).collect()
    }
    fn init_outputs(&self) -> Vec<NodeOutput<i32>> {
        (0..self.outputs)
            .map(|k| NodeOutput {
                label: format!("out{}", k),
                port_type: NodePortType::Data,
                val: self.preset.map(Rc::new),
            })
            .collect()
    }
    fn on_placed(&mut self) {}
    fn on_removed(&mut self) {}
    fn on_rebuilt(&mut self) {}
    fn on_update(&mut self, _env: &mut NodeInvocationEnv<i32>) -> RcRes<()> {
        Ok(())
    }
}

fn out(n: NodeId, port: usize) -> NodePortAlias {
    (n, Direction::Out, port)
}

fn inp(n: NodeId, port: usize) -> NodePortAlias {
    (n, Direction::In, port)
}

fn add(flow: &mut Flow<i32>, inputs: usize, outputs: usize) -> NodeId {
    flow.add_node(Box::new(Plain::new(inputs, outputs))).unwrap()
}

fn sorted(mut v: Vec<NodeId>) -> Vec<NodeId> {
    v.sort_by_key(|n| n.0);
    v
}

#[test]
fn add_node_assigns_dense_ids() {
    let mut flow: Flow<i32> = Flow::default();
    assert_eq!(add(&mut flow, 1, 1), NodeId(0));
    assert_eq!(add(&mut flow, 0, 2), NodeId(1));
    assert_eq!(add(&mut flow, 2, 0), NodeId(2));
    assert_eq!(flow.id_bound(), 3);
    assert!(flow.has_node(NodeId(1)));
    assert!(!flow.has_node(NodeId(3)));
}

#[test]
fn outputs_start_empty_whatever_the_node_declares() {
    let mut flow: Flow<i32> = Flow::default();
    let n = flow.add_node(Box::new(Plain { inputs: 0, outputs: 1, preset: Some(7) })).unwrap();
    assert!(flow.output_val_of(n, 0).unwrap().is_none());
}

#[test]
fn connect_records_the_edge_in_every_map() {
    let mut flow: Flow<i32> = Flow::default();
    let a = add(&mut flow, 0, 1);
    let b = add(&mut flow, 1, 0);
    flow.connect(out(a, 0), inp(b, 0)).unwrap();
    assert_eq!(flow.succ_nodes(a).unwrap(), vec![b]);
    assert_eq!(flow.pred_nodes(b).unwrap(), vec![a]);
    assert_eq!(flow.succ_nodes_of_port(out(a, 0), false).unwrap(), vec![b]);
    assert_eq!(flow.succ_nodes_of_port(out(a, 0), true).unwrap(), vec![b]);
    flow.set_output_val_of(a, 0, Rc::new(9)).unwrap();
    assert_eq!(*flow.input_val_of(b, 0).unwrap().unwrap(), 9);
}

#[test]
fn connect_then_disconnect_restores_the_maps() {
    let mut flow: Flow<i32> = Flow::default();
    let a = add(&mut flow, 0, 1);
    let b = add(&mut flow, 2, 0);
    let c = add(&mut flow, 1, 0);
    flow.connect(out(a, 0), inp(c, 0)).unwrap();
    flow.connect(out(a, 0), inp(b, 1)).unwrap();
    flow.disconnect(out(a, 0), inp(b, 1)).unwrap();
    assert_eq!(flow.succ_nodes(a).unwrap(), vec![c]);
    assert!(flow.pred_nodes(b).unwrap().is_empty());
    assert_eq!(flow.succ_nodes_of_port(out(a, 0), false).unwrap(), vec![c]);
    flow.set_output_val_of(a, 0, Rc::new(1)).unwrap();
    assert!(flow.input_val_of(b, 1).unwrap().is_none());
    // the input can be connected again
    flow.connect(out(a, 0), inp(b, 1)).unwrap();
}

#[test]
fn node_adjacency_keeps_a_node_while_another_edge_remains() {
    let mut flow: Flow<i32> = Flow::default();
    let a = add(&mut flow, 0, 2);
    let b = add(&mut flow, 2, 0);
    flow.connect(out(a, 0), inp(b, 0)).unwrap();
    flow.connect(out(a, 1), inp(b, 1)).unwrap();
    flow.disconnect(out(a, 0), inp(b, 0)).unwrap();
    assert_eq!(flow.succ_nodes(a).unwrap(), vec![b]);
    assert_eq!(flow.pred_nodes(b).unwrap(), vec![a]);
    flow.disconnect(out(a, 1), inp(b, 1)).unwrap();
    assert!(flow.succ_nodes(a).unwrap().is_empty());
    assert!(flow.pred_nodes(b).unwrap().is_empty());
}

#[test]
fn succ_and_pred_nodes_agree() {
    let mut flow: Flow<i32> = Flow::default();
    let a = add(&mut flow, 0, 2);
    let b = add(&mut flow, 2, 1);
    let c = add(&mut flow, 1, 0);
    flow.connect(out(a, 0), inp(b, 0)).unwrap();
    flow.connect(out(a, 0), inp(b, 1)).unwrap();
    flow.connect(out(a, 1), inp(c, 0)).unwrap();
    assert_eq!(sorted(flow.succ_nodes(a).unwrap()), vec![b, c]);
    assert_eq!(flow.pred_nodes(b).unwrap(), vec![a]);
    assert_eq!(flow.pred_nodes(c).unwrap(), vec![a]);
    assert!(flow.succ_nodes(c).unwrap().is_empty());
    // two inputs of b on one output: b is listed once
    assert_eq!(flow.succ_nodes_of_port(out(a, 0), false).unwrap(), vec![b]);
    assert_eq!(sorted(flow.succ_nodes_of_ports(vec![out(a, 0), out(a, 1)], false).unwrap()), vec![b, c]);
}

#[test]
fn duplicate_connect_fails_and_keeps_the_first_edge() {
    let mut flow: Flow<i32> = Flow::default();
    let a = add(&mut flow, 0, 1);
    let b = add(&mut flow, 0, 1);
    let c = add(&mut flow, 1, 0);
    flow.connect(out(a, 0), inp(c, 0)).unwrap();
    assert_eq!(flow.connect(out(b, 0), inp(c, 0)), Err(RcErr::InputAlreadyConnected));
    assert_eq!(flow.connect(out(a, 0), inp(c, 0)), Err(RcErr::InputAlreadyConnected));
    assert_eq!(flow.pred_nodes(c).unwrap(), vec![a]);
    assert!(flow.succ_nodes(b).unwrap().is_empty());
    flow.set_output_val_of(a, 0, Rc::new(3)).unwrap();
    flow.set_output_val_of(b, 0, Rc::new(4)).unwrap();
    assert_eq!(*flow.input_val_of(c, 0).unwrap().unwrap(), 3);
}

#[test]
fn connect_rejects_invalid_ports() {
    let mut flow: Flow<i32> = Flow::default();
    let a = add(&mut flow, 1, 1);
    let b = add(&mut flow, 1, 1);
    // wrong directions
    assert_eq!(flow.connect(inp(a, 0), inp(b, 0)), Err(RcErr::InvalidPort));
    assert_eq!(flow.connect(out(a, 0), out(b, 0)), Err(RcErr::InvalidPort));
    assert_eq!(flow.connect(inp(b, 0), out(a, 0)), Err(RcErr::InvalidPort));
    // out of range
    assert_eq!(flow.connect(out(a, 1), inp(b, 0)), Err(RcErr::InvalidPort));
    assert_eq!(flow.connect(out(a, 0), inp(b, 1)), Err(RcErr::InvalidPort));
    // unknown node
    assert_eq!(flow.connect(out(NodeId(7), 0), inp(b, 0)), Err(RcErr::InvalidPort));
    assert!(flow.pred_nodes(b).unwrap().is_empty());
}

#[test]
fn disconnect_rejects_unknown_ports_and_missing_edges() {
    let mut flow: Flow<i32> = Flow::default();
    let a = add(&mut flow, 0, 1);
    let b = add(&mut flow, 0, 1);
    let c = add(&mut flow, 1, 0);
    flow.connect(out(a, 0), inp(c, 0)).unwrap();
    assert_eq!(flow.disconnect(out(b, 0), inp(c, 0)), Err(RcErr::InvalidPort));
    assert_eq!(flow.disconnect(out(a, 0), inp(c, 3)), Err(RcErr::InvalidPort));
    assert_eq!(flow.disconnect(inp(c, 0), out(a, 0)), Err(RcErr::InvalidPort));
    // the edge survives the refused calls
    assert_eq!(flow.pred_nodes(c).unwrap(), vec![a]);
    flow.disconnect(out(a, 0), inp(c, 0)).unwrap();
    assert_eq!(flow.disconnect(out(a, 0), inp(c, 0)), Err(RcErr::InvalidPort));
}

#[test]
fn remove_node_cleans_up() {
    let mut flow: Flow<i32> = Flow::default();
    let a = add(&mut flow, 0, 1);
    let b = add(&mut flow, 0, 1);
    let m = add(&mut flow, 2, 2);
    let x = add(&mut flow, 1, 0);
    let y = add(&mut flow, 2, 0);
    flow.connect(out(a, 0), inp(m, 0)).unwrap();
    flow.connect(out(b, 0), inp(m, 1)).unwrap();
    flow.connect(out(m, 0), inp(x, 0)).unwrap();
    flow.connect(out(m, 0), inp(y, 0)).unwrap();
    flow.connect(out(m, 1), inp(y, 1)).unwrap();
    flow.connect(out(a, 0), inp(m, 0)).unwrap_err();
    flow.set_output_val_of(m, 0, Rc::new(5)).unwrap();

    flow.remove_node(m).unwrap();
    assert!(!flow.has_node(m));
    assert!(flow.succ_nodes(a).unwrap().is_empty());
    assert!(flow.succ_nodes(b).unwrap().is_empty());
    assert!(flow.pred_nodes(x).unwrap().is_empty());
    assert!(flow.pred_nodes(y).unwrap().is_empty());
    assert!(flow.succ_nodes_of_port(out(a, 0), false).unwrap().is_empty());
    assert!(flow.input_val_of(x, 0).unwrap().is_none());
    assert_eq!(flow.succ_nodes(m), Err(RcErr::NodeNotFound));
    assert_eq!(flow.output_val_of(m, 0), Err(RcErr::NodeNotFound));
    assert_eq!(flow.input_val_of(m, 0), Err(RcErr::InvalidPort));
    assert_eq!(flow.succ_nodes_of_port(out(m, 0), false), Err(RcErr::InvalidPort));
    assert_eq!(flow.connect(out(m, 0), inp(x, 0)), Err(RcErr::InvalidPort));
    // the freed inputs accept new connections
    flow.connect(out(a, 0), inp(x, 0)).unwrap();
    flow.connect(out(b, 0), inp(y, 1)).unwrap();
}

#[test]
fn remove_node_with_a_self_loop() {
    let mut flow: Flow<i32> = Flow::default();
    let a = add(&mut flow, 1, 1);
    flow.connect(out(a, 0), inp(a, 0)).unwrap();
    assert_eq!(flow.succ_nodes(a).unwrap(), vec![a]);
    flow.remove_node(a).unwrap();
    assert!(!flow.has_node(a));
}

#[test]
fn add_then_remove_keeps_the_graph_and_uses_up_the_id() {
    let mut flow: Flow<i32> = Flow::default();
    let a = add(&mut flow, 0, 1);
    let b = add(&mut flow, 1, 0);
    flow.connect(out(a, 0), inp(b, 0)).unwrap();
    let t = add(&mut flow, 1, 1);
    assert_eq!(t, NodeId(2));
    flow.remove_node(t).unwrap();
    assert_eq!(flow.succ_nodes(a).unwrap(), vec![b]);
    assert_eq!(flow.pred_nodes(b).unwrap(), vec![a]);
    assert_eq!(flow.remove_node(t), Err(RcErr::NodeNotFound));
    // ids are never reused
    assert_eq!(add(&mut flow, 0, 0), NodeId(3));
}

#[test]
fn remove_missing_node_fails() {
    let mut flow: Flow<i32> = Flow::default();
    assert_eq!(flow.remove_node(NodeId(0)), Err(RcErr::NodeNotFound));
}

#[test]
fn set_then_get_output() {
    let mut flow: Flow<i32> = Flow::default();
    let a = add(&mut flow, 0, 2);
    flow.set_output_val_of(a, 1, Rc::new(11)).unwrap();
    assert_eq!(*flow.output_val_of(a, 1).unwrap().unwrap(), 11);
    assert!(flow.output_val_of(a, 0).unwrap().is_none());
    flow.set_output_val_of(a, 1, Rc::new(12)).unwrap();
    assert_eq!(*flow.output_val_of(a, 1).unwrap().unwrap(), 12);
}

#[test]
fn output_access_errors() {
    let mut flow: Flow<i32> = Flow::default();
    let a = add(&mut flow, 1, 1);
    assert_eq!(flow.set_output_val_of(a, 1, Rc::new(1)), Err(RcErr::InvalidPort));
    assert_eq!(flow.set_output_val_of(NodeId(4), 0, Rc::new(1)), Err(RcErr::NodeNotFound));
    assert_eq!(flow.output_val_of(a, 1), Err(RcErr::InvalidPort));
    assert_eq!(flow.output_val_of(NodeId(4), 0), Err(RcErr::NodeNotFound));
    assert_eq!(flow.input_val_of(a, 1), Err(RcErr::InvalidPort));
    assert_eq!(flow.input_values_of(NodeId(4)), Err(RcErr::NodeNotFound));
    assert_eq!(flow.succ_nodes_of_port(inp(a, 0), false), Err(RcErr::InvalidPort));
    assert_eq!(flow.succ_nodes_of_ports(vec![out(a, 0), out(a, 1)], false), Err(RcErr::InvalidPort));
    assert_eq!(flow.pred_nodes(NodeId(4)), Err(RcErr::NodeNotFound));
    let mut env = NodeInvocationEnv::new(vec![]);
    assert_eq!(flow.update_node(NodeId(4), &mut env), Err(RcErr::NodeNotFound));
}

#[test]
fn input_values_follow_declaration_order() {
    let mut flow: Flow<i32> = Flow::default();
    let a = add(&mut flow, 0, 1);
    let b = add(&mut flow, 0, 1);
    let m = add(&mut flow, 3, 0);
    flow.connect(out(b, 0), inp(m, 0)).unwrap();
    flow.connect(out(a, 0), inp(m, 2)).unwrap();
    flow.set_output_val_of(a, 0, Rc::new(1)).unwrap();
    flow.set_output_val_of(b, 0, Rc::new(2)).unwrap();
    let vals: Vec<Option<i32>> = flow.input_values_of(m).unwrap().into_iter().map(|v| v.map(|x| *x)).collect();
    assert_eq!(vals, vec![Some(2), None, Some(1)]);
}

#[test]
fn masking_filters_successors() {
    let mut flow: Flow<i32> = Flow::default();
    let a = add(&mut flow, 0, 1);
    let b = add(&mut flow, 2, 0);
    let c = add(&mut flow, 1, 0);
    flow.connect(out(a, 0), inp(b, 0)).unwrap();
    flow.connect(out(a, 0), inp(b, 1)).unwrap();
    flow.connect(out(a, 0), inp(c, 0)).unwrap();
    flow.mask_inputs(b, vec![InputState::Inactive, InputState::Active]).unwrap();
    assert_eq!(sorted(flow.succ_nodes_of_port(out(a, 0), true).unwrap()), vec![b, c]);
    flow.mask_inputs(b, vec![InputState::Inactive, InputState::Inactive]).unwrap();
    assert_eq!(flow.succ_nodes_of_port(out(a, 0), true).unwrap(), vec![c]);
    assert_eq!(sorted(flow.succ_nodes_of_port(out(a, 0), false).unwrap()), vec![b, c]);
    // masking keeps the connection and its value
    flow.set_output_val_of(a, 0, Rc::new(8)).unwrap();
    assert_eq!(*flow.input_val_of(b, 0).unwrap().unwrap(), 8);
    assert_eq!(flow.pred_nodes(b).unwrap(), vec![a]);
    // an input connected while inactive does not schedule either
    let d = add(&mut flow, 1, 0);
    flow.mask_inputs(d, vec![InputState::Inactive]).unwrap();
    flow.connect(out(a, 0), inp(d, 0)).unwrap();
    assert_eq!(flow.succ_nodes_of_port(out(a, 0), true).unwrap(), vec![c]);
    flow.mask_inputs(d, vec![InputState::Active]).unwrap();
    assert_eq!(sorted(flow.succ_nodes_of_port(out(a, 0), true).unwrap()), vec![c, d]);
}

#[test]
fn mask_inputs_errors() {
    let mut flow: Flow<i32> = Flow::default();
    let a = add(&mut flow, 2, 0);
    assert_eq!(flow.mask_inputs(a, vec![InputState::Inactive]), Err(RcErr::PortsMissmatch));
    assert_eq!(flow.mask_inputs(NodeId(9), vec![]), Err(RcErr::NodeNotFound));
}

#[test]
fn invocation_env_reads_inputs_and_records_outputs() {
    let mut env: NodeInvocationEnv<i32> = NodeInvocationEnv::new(vec![Some(Rc::new(1)), None]);
    assert_eq!(*env.get_inp(0).unwrap().unwrap(), 1);
    assert!(env.get_inp(1).unwrap().is_none());
    assert!(matches!(env.get_inp(2), Err(RcErr::InvalidPort)));
    env.set_out(1, Rc::new(10));
    env.set_out(0, Rc::new(20));
    env.set_out(1, Rc::new(30));
    let ups: Vec<(usize, i32)> = env.get_updates().iter().map(|(p, v)| (*p, **v)).collect();
    assert_eq!(ups, vec![(1, 30), (0, 20)]);
}

#[test]
fn node_output_latches_the_last_value() {
    let mut o: NodeOutput<i32> = NodeOutput { label: "o".to_string(), port_type: NodePortType::Data, val: None };
    assert!(o.get_val().is_none());
    o.set_val(Rc::new(4));
    o.set_val(Rc::new(6));
    assert_eq!(*o.get_val().unwrap(), 6);
}

#[test]
fn insert_node_records_the_declared_ports() {
    let mut flow: Flow<i32> = Flow::default();
    let inputs = vec![NodeInput { label: "a".to_string(), port_type: NodePortType::Data }];
    let outputs = vec![
        NodeOutput { label: "x".to_string(), port_type: NodePortType::Data, val: Some(Rc::new(1)) },
        NodeOutput { label: "y".to_string(), port_type: NodePortType::Data, val: None },
    ];
    let n = flow.insert_node(Box::new(Plain::new(0, 0)), inputs, outputs);
    assert_eq!(n, NodeId(0));
    assert!(flow.output_val_of(n, 0).unwrap().is_none());
    assert!(flow.output_val_of(n, 1).unwrap().is_none());
    assert_eq!(flow.output_val_of(n, 2), Err(RcErr::InvalidPort));
    assert!(flow.input_val_of(n, 0).unwrap().is_none());
    assert_eq!(flow.input_val_of(n, 1), Err(RcErr::InvalidPort));
}

#[test]
fn latch_updates_writes_the_last_value_per_port() {
    let mut flow: Flow<i32> = Flow::default();
    let a = add(&mut flow, 0, 2);
    let mut env: NodeInvocationEnv<i32> = NodeInvocationEnv::new(vec![]);
    env.set_out(1, Rc::new(5));
    env.set_out(0, Rc::new(3));
    env.set_out(1, Rc::new(7));
    flow.latch_updates(a, &env).unwrap();
    assert_eq!(*flow.output_val_of(a, 0).unwrap().unwrap(), 3);
    assert_eq!(*flow.output_val_of(a, 1).unwrap().unwrap(), 7);
}

#[test]
fn latch_updates_rejects_unknown_ports_without_latching() {
    let mut flow: Flow<i32> = Flow::default();
    let a = add(&mut flow, 0, 1);
    let mut env: NodeInvocationEnv<i32> = NodeInvocationEnv::new(vec![]);
    env.set_out(0, Rc::new(3));
    env.set_out(4, Rc::new(9));
    assert_eq!(flow.latch_updates(a, &env), Err(RcErr::InvalidPort));
    assert!(flow.output_val_of(a, 0).unwrap().is_none());
    assert_eq!(flow.latch_updates(NodeId(8), &env), Err(RcErr::NodeNotFound));
}
