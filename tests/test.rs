use std::rc::Rc;

use ryvencore::flows::executors::TopoWithLoops;
use ryvencore::flows::{Direction, Executor, Flow, InputState};
use ryvencore::nodes::{Node, NodeId, NodeInput, NodeInvocationEnv, NodeOutput, NodePortType};
use ryvencore::RcRes;

const LOW: i32 = 5;
const HIGH: i32 = 100;
const THRESHOLD: i32 = 50;

fn input(label: &str) -> NodeInput {
    NodeInput { label: label.to_string(), port_type: NodePortType::Data }
}

fn output(label: &str) -> NodeOutput<i32> {
    NodeOutput { label: label.to_string(), port_type: NodePortType::Data, val: None }
}

/// Pushes its input, or 42 when it has none.
pub struct SimpleEcho {
    id: NodeId,
}

impl SimpleEcho {
    pub fn new() -> Self {
        SimpleEcho { id: NodeId(0) }
    }
}

impl Node<i32> for SimpleEcho {
    fn init(&mut self, id: NodeId) {
        self.id = id;
    }
    fn init_inputs(&self) -> Vec<NodeInput> {
        vec![input("inp")]
    }
    fn init_outputs(&self) -> Vec<NodeOutput<i32>> {
        vec![output("out")]
    }
    fn on_placed(&mut self) {}
    fn on_removed(&mut self) {}
    fn on_rebuilt(&mut self) {}
    fn on_update(&mut self, env: &mut NodeInvocationEnv<i32>) -> RcRes<()> {
        if let Some(inp) = env.get_inp(0)? {
            env.set_out(0, inp);
        } else {
            env.set_out(0, Rc::new(42));
        }
        Ok(())
    }
}

/// Pushes the minimum and maximum of its inputs, or LOW and HIGH when it has none.
pub struct MinMax {
    id: NodeId,
}

impl MinMax {
    pub fn new() -> Self {
        MinMax { id: NodeId(0) }
    }
}

impl Node<i32> for MinMax {
    fn init(&mut self, id: NodeId) {
        self.id = id;
    }
    fn init_inputs(&self) -> Vec<NodeInput> {
        vec![input("1"), input("2")]
    }
    fn init_outputs(&self) -> Vec<NodeOutput<i32>> {
        vec![output("min"), output("max")]
    }
    fn on_placed(&mut self) {}
    fn on_removed(&mut self) {}
    fn on_rebuilt(&mut self) {}
    fn on_update(&mut self, env: &mut NodeInvocationEnv<i32>) -> RcRes<()> {
        let a = env.get_inp(0)?;
        let b = env.get_inp(1)?;
        if a.is_some() || b.is_some() {
            let mut values = vec![];
            if let Some(a) = a {
                values.push(a);
            }
            if let Some(b) = b {
                values.push(b);
            }
            let min = values.iter().min().unwrap().clone();
            let max = values.iter().max().unwrap().clone();
            env.set_out(0, min);
            env.set_out(1, max);
        } else {
            env.set_out(0, Rc::new(LOW));
            env.set_out(1, Rc::new(HIGH));
        }
        Ok(())
    }
}

/// Pushes its input plus one while the input is below THRESHOLD.
pub struct Ctr {
    id: NodeId,
}

impl Ctr {
    pub fn new() -> Self {
        Ctr { id: NodeId(0) }
    }
}

impl Node<i32> for Ctr {
    fn init(&mut self, id: NodeId) {
        self.id = id;
    }
    fn init_inputs(&self) -> Vec<NodeInput> {
        vec![input("inp")]
    }
    fn init_outputs(&self) -> Vec<NodeOutput<i32>> {
        vec![output("out")]
    }
    fn on_placed(&mut self) {}
    fn on_removed(&mut self) {}
    fn on_rebuilt(&mut self) {}
    fn on_update(&mut self, env: &mut NodeInvocationEnv<i32>) -> RcRes<()> {
        if let Some(inp) = env.get_inp(0)? {
            if *inp < THRESHOLD {
                env.set_out(0, Rc::new(*inp + 1));
            }
        }
        Ok(())
    }
}

fn out(n: NodeId, port: usize) -> (NodeId, Direction, usize) {
    (n, Direction::Out, port)
}

fn inp(n: NodeId, port: usize) -> (NodeId, Direction, usize) {
    (n, Direction::In, port)
}

fn check_output(flow: &Flow<i32>, node: NodeId, output: usize, expected: i32) {
    let o = flow.output_val_of(node, output).unwrap();
    assert!(o.is_some());
    assert_eq!(*o.unwrap(), expected);
}

#[test]
fn basic() {
    let mut flow: Flow<i32> = Flow::default();
    let node_simple_echo_0 = flow.add_node(Box::new(SimpleEcho::new())).unwrap();
    let node_simple_echo_1 = flow.add_node(Box::new(SimpleEcho::new())).unwrap();
    let node_simple_echo_2 = flow.add_node(Box::new(SimpleEcho::new())).unwrap();
    flow.connect(out(node_simple_echo_0, 0), inp(node_simple_echo_1, 0)).unwrap();
    flow.connect(out(node_simple_echo_1, 0), inp(node_simple_echo_2, 0)).unwrap();

    // push 42 to the first node, should propagate through all
    let mut exc = TopoWithLoops::new();
    exc.invoke(&mut flow, node_simple_echo_0).unwrap();

    // push 100 to the third node
    flow.set_output_val_of(node_simple_echo_1, 0, Rc::new(100)).unwrap();
    let mut exc = TopoWithLoops::new();
    exc.invoke(&mut flow, node_simple_echo_2).unwrap();

    check_output(&flow, node_simple_echo_0, 0, 42);
    check_output(&flow, node_simple_echo_2, 0, 100);
}

#[test]
fn min_max() {
    let mut flow: Flow<i32> = Flow::default();
    let n: Vec<NodeId> = (0..6).map(|_| flow.add_node(Box::new(MinMax::new())).unwrap()).collect();
    // only connect minimum
    flow.connect(out(n[0], 0), inp(n[1], 0)).unwrap();
    flow.connect(out(n[0], 0), inp(n[1], 1)).unwrap();
    // only connect maximum
    flow.connect(out(n[0], 1), inp(n[2], 0)).unwrap();
    flow.connect(out(n[0], 1), inp(n[2], 1)).unwrap();
    // connect both simple
    flow.connect(out(n[0], 1), inp(n[3], 0)).unwrap();
    flow.connect(out(n[0], 0), inp(n[3], 1)).unwrap();
    // connect both reversed
    flow.connect(out(n[0], 0), inp(n[4], 1)).unwrap();
    flow.connect(out(n[0], 1), inp(n[4], 0)).unwrap();
    // diamond
    flow.connect(out(n[3], 0), inp(n[5], 0)).unwrap();
    flow.connect(out(n[4], 1), inp(n[5], 1)).unwrap();

    let mut exc = TopoWithLoops::new();
    exc.invoke(&mut flow, n[0]).unwrap();

    check_output(&flow, n[0], 0, LOW);
    check_output(&flow, n[0], 1, HIGH);

    check_output(&flow, n[1], 0, LOW);
    check_output(&flow, n[1], 1, LOW);

    check_output(&flow, n[2], 0, HIGH);
    check_output(&flow, n[2], 1, HIGH);

    check_output(&flow, n[3], 0, LOW);
    check_output(&flow, n[3], 1, HIGH);

    check_output(&flow, n[4], 0, LOW);
    check_output(&flow, n[4], 1, HIGH);

    check_output(&flow, n[5], 0, LOW);
    check_output(&flow, n[5], 1, HIGH);
}

#[test]
fn terminating_loop() {
    let mut flow: Flow<i32> = Flow::default();
    let node_simple_echo_0 = flow.add_node(Box::new(SimpleEcho::new())).unwrap();
    let node_simple_echo_1 = flow.add_node(Box::new(SimpleEcho::new())).unwrap();
    let node_min_max_0 = flow.add_node(Box::new(MinMax::new())).unwrap();
    let node_min_max_1 = flow.add_node(Box::new(MinMax::new())).unwrap();
    let node_ctr_0 = flow.add_node(Box::new(Ctr::new())).unwrap();
    flow.connect(out(node_simple_echo_0, 0), inp(node_min_max_0, 0)).unwrap();
    flow.connect(out(node_ctr_0, 0), inp(node_min_max_0, 1)).unwrap();
    flow.connect(out(node_min_max_0, 0), inp(node_simple_echo_1, 0)).unwrap();
    flow.connect(out(node_simple_echo_1, 0), inp(node_min_max_1, 0)).unwrap();
    flow.connect(out(node_min_max_0, 1), inp(node_min_max_1, 1)).unwrap();
    flow.connect(out(node_min_max_1, 1), inp(node_ctr_0, 0)).unwrap();

    let mut exc = TopoWithLoops::new();
    exc.invoke(&mut flow, node_simple_echo_0).unwrap();

    check_output(&flow, node_simple_echo_0, 0, 42);
    check_output(&flow, node_min_max_0, 0, 42);
    check_output(&flow, node_min_max_0, 1, THRESHOLD);
    check_output(&flow, node_simple_echo_1, 0, 42);
    check_output(&flow, node_min_max_1, 0, 42);
    check_output(&flow, node_min_max_1, 1, THRESHOLD);
    check_output(&flow, node_ctr_0, 0, THRESHOLD);
}

#[test]
fn basic_masking() {
    let mut flow: Flow<i32> = Flow::default();
    let node_simple_echo_0 = flow.add_node(Box::new(SimpleEcho::new())).unwrap();
    let node_ctr_0 = flow.add_node(Box::new(Ctr::new())).unwrap();
    let node_min_max_0 = flow.add_node(Box::new(MinMax::new())).unwrap();
    flow.connect(out(node_simple_echo_0, 0), inp(node_ctr_0, 0)).unwrap();
    flow.connect(out(node_simple_echo_0, 0), inp(node_min_max_0, 0)).unwrap();
    flow.connect(out(node_ctr_0, 0), inp(node_min_max_0, 1)).unwrap();

    let mut exc = TopoWithLoops::new();

    flow.mask_inputs(node_min_max_0, vec![InputState::Inactive, InputState::Inactive]).unwrap();
    exc.invoke(&mut flow, node_simple_echo_0).unwrap();
    assert!(flow.output_val_of(node_min_max_0, 0).unwrap().is_none());
    assert!(flow.output_val_of(node_min_max_0, 1).unwrap().is_none());

    flow.mask_inputs(node_min_max_0, vec![InputState::Active, InputState::Inactive]).unwrap();
    exc.invoke(&mut flow, node_ctr_0).unwrap();
    assert!(flow.output_val_of(node_min_max_0, 0).unwrap().is_none());
    assert!(flow.output_val_of(node_min_max_0, 1).unwrap().is_none());

    flow.mask_inputs(node_min_max_0, vec![InputState::Active, InputState::Active]).unwrap();
    exc.invoke(&mut flow, node_ctr_0).unwrap();
    check_output(&flow, node_min_max_0, 0, 42);
    check_output(&flow, node_min_max_0, 1, 43);
}
