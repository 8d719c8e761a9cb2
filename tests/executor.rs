use std::cell::RefCell;
use std::rc::Rc;

use ryvencore::flows::executors::{OrderedMaskedQueue, TopoWithLoops};
use ryvencore::flows::{Direction, Executor, Flow, InputState, NodePortAlias};
use ryvencore::nodes::{Node, NodeId, NodeInput, NodeInvocationEnv, NodeOutput, NodePortType};
use ryvencore::{RcErr, RcRes};

type Log = Rc<RefCell<Vec<NodeId>>>;

/// Records its updates in a shared log; pushes the sum of its inputs plus
/// one to every output while that stays below `limit`.
struct Rec {
    id: NodeId,
    inputs: usize,
    outputs: usize,
    limit: i32,
    log: Log,
}

impl Node<i32> for Rec {
    fn init(&mut self, id: NodeId) {
        self.id = id;
    }
    fn init_inputs(&self) -> Vec<NodeInput> {
        (0..self.inputs).map(|k| NodeInput { label: format!("in{}", k), port_type: NodePortType::Data }).collect()
    }
    fn init_outputs(&self) -> Vec<NodeOutput<i32>> {
        (0..self.outputs)
            .map(|k| NodeOutput { label: format!("out{}", k), port_type: NodePortType::Data, val: None })
            .collect()
    }
    fn on_placed(&mut self) {}
    fn on_removed(&mut self) {}
    fn on_rebuilt(&mut self) {}
    fn on_update(&mut self, env: &mut NodeInvocationEnv<i32>) -> RcRes<()> {
        self.log.borrow_mut().push(self.id);
        let mut sum = 0;
        for k in 0..self.inputs {
            if let Some(v) = env.get_inp(k)? {
                sum += *v;
            }
        }
        if sum + 1 <= self.limit {
            for k in 0..self.outputs {
                env.set_out(k, Rc::new(sum + 1));
            }
        }
        Ok(())
    }
}

/// Pushes to an output it does not have, or fails, as told.
struct Faulty {
    fail: bool,
}

impl Node<i32> for Faulty {
    fn init(&mut self, _id: NodeId) {}
    fn init_inputs(&self) -> Vec<NodeInput> {
        vec![]
    }
    fn init_outputs(&self) -> Vec<NodeOutput<i32>> {
        vec![NodeOutput { label: "out".to_string(), port_type: NodePortType::Data, val: None }]
    }
    fn on_placed(&mut self) {}
    fn on_removed(&mut self) {}
    fn on_rebuilt(&mut self) {}
    fn on_update(&mut self, env: &mut NodeInvocationEnv<i32>) -> RcRes<()> {
        if self.fail {
            return Err(RcErr::Generic);
        }
        env.set_out(0, Rc::new(1));
        env.set_out(3, Rc::new(2));
        Ok(())
    }
}

fn rec(flow: &mut Flow<i32>, log: &Log, inputs: usize, outputs: usize, limit: i32) -> NodeId {
    flow.add_node(Box::new(Rec { id: NodeId(0), inputs, outputs, limit, log: log.clone() })).unwrap()
}

fn out(n: NodeId, port: usize) -> NodePortAlias {
    (n, Direction::Out, port)
}

fn inp(n: NodeId, port: usize) -> NodePortAlias {
    (n, Direction::In, port)
}

fn value(flow: &Flow<i32>, n: NodeId, port: usize) -> Option<i32> {
    flow.output_val_of(n, port).unwrap().map(|v| *v)
}

fn position(order: &[NodeId], n: NodeId) -> usize {
    order.iter().position(|x| *x == n).unwrap()
}

#[test]
fn queue_hands_out_in_mask_order() {
    let mut q = OrderedMaskedQueue::new();
    assert!(q.is_empty());
    q.enqueue(NodeId(3));
    q.enqueue(NodeId(1));
    q.enqueue(NodeId(3));
    assert_eq!(q.queued().len(), 2);
    q.set_mask(vec![NodeId(0), NodeId(1), NodeId(2), NodeId(3)]);
    assert_eq!(q.dequeue(), Some(NodeId(1)));
    // a node queued ahead of the position is handed out in this pass
    q.enqueue(NodeId(2));
    // a node queued behind it waits for the next mask
    q.enqueue(NodeId(0));
    assert_eq!(q.dequeue(), Some(NodeId(2)));
    assert_eq!(q.dequeue(), Some(NodeId(3)));
    assert_eq!(q.dequeue(), None);
    assert!(!q.is_empty());
    q.set_mask(vec![NodeId(0)]);
    assert_eq!(q.dequeue(), Some(NodeId(0)));
    assert!(q.is_empty());
    assert_eq!(q.dequeue(), None);
}

#[test]
fn queue_without_mask_hands_out_nothing() {
    let mut q = OrderedMaskedQueue::new();
    q.enqueue(NodeId(5));
    assert_eq!(q.dequeue(), None);
    assert!(!q.is_empty());
}

#[test]
fn topo_orders_a_dag() {
    let log: Log = Rc::new(RefCell::new(vec![]));
    let mut flow: Flow<i32> = Flow::default();
    let a = rec(&mut flow, &log, 0, 1, 100);
    let b = rec(&mut flow, &log, 1, 1, 100);
    let c = rec(&mut flow, &log, 1, 1, 100);
    let d = rec(&mut flow, &log, 2, 0, 100);
    let lone = rec(&mut flow, &log, 0, 1, 100);
    flow.connect(out(a, 0), inp(b, 0)).unwrap();
    flow.connect(out(a, 0), inp(c, 0)).unwrap();
    flow.connect(out(b, 0), inp(d, 0)).unwrap();
    flow.connect(out(c, 0), inp(d, 1)).unwrap();
    let exc = TopoWithLoops::new();
    let order = exc.topo(&vec![b, a], &flow).unwrap();
    assert_eq!(order.len(), 4);
    assert!(!order.contains(&lone));
    assert_eq!(order[0], a);
    assert!(position(&order, b) < position(&order, d));
    assert!(position(&order, c) < position(&order, d));
    assert_eq!(exc.topo(&vec![c], &flow).unwrap(), vec![c, d]);
    assert_eq!(exc.topo(&vec![NodeId(9)], &flow), Err(RcErr::NodeNotFound));
}

#[test]
fn topo_keeps_forward_edges_of_a_cycle() {
    let log: Log = Rc::new(RefCell::new(vec![]));
    let mut flow: Flow<i32> = Flow::default();
    let a = rec(&mut flow, &log, 1, 1, 100);
    let b = rec(&mut flow, &log, 1, 1, 100);
    let c = rec(&mut flow, &log, 1, 1, 100);
    flow.connect(out(a, 0), inp(b, 0)).unwrap();
    flow.connect(out(b, 0), inp(c, 0)).unwrap();
    flow.connect(out(c, 0), inp(a, 0)).unwrap();
    let exc = TopoWithLoops::new();
    assert_eq!(exc.topo(&vec![a], &flow).unwrap(), vec![a, b, c]);
    assert_eq!(exc.topo(&vec![b], &flow).unwrap(), vec![b, c, a]);
}

#[test]
fn dag_updates_each_node_once_in_topological_order() {
    let log: Log = Rc::new(RefCell::new(vec![]));
    let mut flow: Flow<i32> = Flow::default();
    let a = rec(&mut flow, &log, 0, 1, 100);
    let b = rec(&mut flow, &log, 1, 1, 100);
    let c = rec(&mut flow, &log, 1, 1, 100);
    let d = rec(&mut flow, &log, 2, 1, 100);
    let e = rec(&mut flow, &log, 1, 0, 100);
    flow.connect(out(a, 0), inp(b, 0)).unwrap();
    flow.connect(out(a, 0), inp(c, 0)).unwrap();
    flow.connect(out(b, 0), inp(d, 0)).unwrap();
    flow.connect(out(c, 0), inp(d, 1)).unwrap();
    flow.connect(out(d, 0), inp(e, 0)).unwrap();
    let mut exc = TopoWithLoops::new();
    exc.invoke(&mut flow, a).unwrap();
    let order = log.borrow().clone();
    assert_eq!(order.len(), 5);
    assert_eq!(order[0], a);
    assert!(position(&order, b) < position(&order, d));
    assert!(position(&order, c) < position(&order, d));
    assert!(position(&order, d) < position(&order, e));
    assert_eq!(value(&flow, d, 0), Some(5));
    assert_eq!(flow.output_val_of(e, 0), Err(RcErr::InvalidPort));
}

#[test]
fn only_the_seed_runs_without_pushes() {
    let log: Log = Rc::new(RefCell::new(vec![]));
    let mut flow: Flow<i32> = Flow::default();
    let a = rec(&mut flow, &log, 0, 1, 0);
    let b = rec(&mut flow, &log, 1, 0, 100);
    flow.connect(out(a, 0), inp(b, 0)).unwrap();
    let mut exc = TopoWithLoops::new();
    exc.invoke(&mut flow, a).unwrap();
    assert_eq!(*log.borrow(), vec![a]);
    assert_eq!(value(&flow, a, 0), None);
}

#[test]
fn self_loop_runs_until_the_node_stops_pushing() {
    let log: Log = Rc::new(RefCell::new(vec![]));
    let mut flow: Flow<i32> = Flow::default();
    let a = rec(&mut flow, &log, 1, 1, 4);
    flow.connect(out(a, 0), inp(a, 0)).unwrap();
    let mut exc = TopoWithLoops::new();
    exc.invoke(&mut flow, a).unwrap();
    assert_eq!(value(&flow, a, 0), Some(4));
    assert_eq!(*log.borrow(), vec![a, a, a, a, a]);
}

#[test]
fn cycle_makes_progress_across_the_back_edge() {
    let log: Log = Rc::new(RefCell::new(vec![]));
    let mut flow: Flow<i32> = Flow::default();
    let a = rec(&mut flow, &log, 1, 1, 6);
    let b = rec(&mut flow, &log, 1, 1, 6);
    flow.connect(out(a, 0), inp(b, 0)).unwrap();
    flow.connect(out(b, 0), inp(a, 0)).unwrap();
    let mut exc = TopoWithLoops::new();
    exc.invoke(&mut flow, a).unwrap();
    assert_eq!(value(&flow, a, 0), Some(5));
    assert_eq!(value(&flow, b, 0), Some(6));
    assert_eq!(*log.borrow(), vec![a, b, a, b, a, b, a]);
}

#[test]
fn inactive_input_is_not_scheduled() {
    let log: Log = Rc::new(RefCell::new(vec![]));
    let mut flow: Flow<i32> = Flow::default();
    let a = rec(&mut flow, &log, 0, 1, 100);
    let b = rec(&mut flow, &log, 1, 1, 100);
    let c = rec(&mut flow, &log, 1, 1, 100);
    flow.connect(out(a, 0), inp(b, 0)).unwrap();
    flow.connect(out(a, 0), inp(c, 0)).unwrap();
    flow.mask_inputs(b, vec![InputState::Inactive]).unwrap();
    let mut exc = TopoWithLoops::new();
    exc.invoke(&mut flow, a).unwrap();
    assert_eq!(*log.borrow(), vec![a, c]);
    assert_eq!(value(&flow, b, 0), None);
    // the masked input still sees the value
    assert_eq!(*flow.input_val_of(b, 0).unwrap().unwrap(), 1);
}

#[test]
fn invoke_with_a_missing_seed_fails() {
    let mut flow: Flow<i32> = Flow::default();
    let mut exc = TopoWithLoops::new();
    assert_eq!(exc.invoke(&mut flow, NodeId(0)), Err(RcErr::NodeNotFound));
}

#[test]
fn invoke_reports_a_push_to_a_missing_output() {
    let mut flow: Flow<i32> = Flow::default();
    let f = flow.add_node(Box::new(Faulty { fail: false })).unwrap();
    let mut exc = TopoWithLoops::new();
    assert_eq!(exc.invoke(&mut flow, f), Err(RcErr::InvalidPort));
}

#[test]
fn invoke_reports_a_failing_node() {
    let mut flow: Flow<i32> = Flow::default();
    let f = flow.add_node(Box::new(Faulty { fail: true })).unwrap();
    let mut exc = TopoWithLoops::new();
    assert_eq!(exc.invoke(&mut flow, f), Err(RcErr::Generic));
}

#[test]
fn successor_nodes_follow_the_pushed_ports() {
    let log: Log = Rc::new(RefCell::new(vec![]));
    let mut flow: Flow<i32> = Flow::default();
    let a = rec(&mut flow, &log, 0, 2, 100);
    let b = rec(&mut flow, &log, 1, 0, 100);
    let c = rec(&mut flow, &log, 1, 0, 100);
    flow.connect(out(a, 0), inp(b, 0)).unwrap();
    flow.connect(out(a, 1), inp(c, 0)).unwrap();
    let exc = TopoWithLoops::new();
    let mut env: NodeInvocationEnv<i32> = NodeInvocationEnv::new(vec![]);
    env.set_out(1, Rc::new(3));
    assert_eq!(exc.successor_nodes(&flow, a, &env).unwrap(), vec![c]);
    env.set_out(0, Rc::new(3));
    let mut both = exc.successor_nodes(&flow, a, &env).unwrap();
    both.sort_by_key(|n| n.0);
    assert_eq!(both, vec![b, c]);
    env.set_out(2, Rc::new(3));
    assert_eq!(exc.successor_nodes(&flow, a, &env), Err(RcErr::InvalidPort));
}

#[test]
fn invoke_with_a_missing_seed_changes_nothing() {
    let log: Log = Rc::new(RefCell::new(vec![]));
    let mut flow: Flow<i32> = Flow::default();
    let a = rec(&mut flow, &log, 0, 1, 100);
    flow.set_output_val_of(a, 0, Rc::new(7)).unwrap();
    let mut exc = TopoWithLoops::new();
    assert_eq!(exc.invoke(&mut flow, NodeId(5)), Err(RcErr::NodeNotFound));
    assert!(log.borrow().is_empty());
    assert_eq!(value(&flow, a, 0), Some(7));
}
