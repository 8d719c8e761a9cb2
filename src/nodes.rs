//! Node identities, port descriptors, the per-update invocation environment,
//! and the trait that nodes implement.
use std::rc::Rc;
use vstd::prelude::*;

use crate::{RcErr, RcRes};

verus! {

/// Identity of a node inside a flow. Ids are handed out densely and never reused.
#[derive(Clone, Copy, PartialEq, Eq, Hash, Debug, Structural)]
pub struct NodeId(pub usize);

/// The kind of data a port carries. Only ports of equal kind can be connected.
#[derive(Clone, Copy, PartialEq, Eq, Hash, Debug, Structural)]
pub enum NodePortType {
    Data,
}

/// Descriptor of a node output, together with its latched value.
pub struct NodeOutput<T> {
    pub label: String,
    pub port_type: NodePortType,
    pub val: Option<Rc<T>>,
}

impl<T> NodeOutput<T> {
    pub fn set_val(&mut self, val: Rc<T>)
        ensures
            final(self).val == Some(val),
            final(self).label == old(self).label,
            final(self).port_type == old(self).port_type,
    {
        self.val = Some(val);
    }

    pub fn get_val(&self) -> (r: Option<Rc<T>>)
        ensures
            r == self.val,
    {
        match &self.val {
            Some(v) => Some(Rc::clone(v)),
            None => None,
        }
    }
}

/// Descriptor of a node input.
pub struct NodeInput {
    pub label: String,
    pub port_type: NodePortType,
}

/// The scratch space of one node update: the current input values, in
/// declaration order, and the output values the node pushes, one per port.
pub struct NodeInvocationEnv<T> {
    input_data: Vec<Option<Rc<T>>>,
    output_updates: Vec<(usize, Rc<T>)>,
}

/// Whether some entry of `s` is for `port`.
pub open spec fn has_port<T>(s: Seq<(usize, T)>, port: usize) -> bool {
    exists|k: int| 0 <= k < s.len() && (#[trigger] s[k]).0 == port
}

impl<T> NodeInvocationEnv<T> {
    /// The input values handed to the node.
    pub closed spec fn inputs(&self) -> Seq<Option<Rc<T>>> {
        self.input_data@
    }

    /// The output values pushed so far, in the order the ports were first written.
    pub closed spec fn updates(&self) -> Seq<(usize, Rc<T>)> {
        self.output_updates@
    }

    pub fn new(input_data: Vec<Option<Rc<T>>>) -> (r: Self)
        ensures
            r.inputs() == input_data@,
            r.updates() == Seq::<(usize, Rc<T>)>::empty(),
    {
        Self { input_data, output_updates: Vec::new() }
    }

    /// The value of input `port`, or `InvalidPort` if there is no such input.
    pub fn get_inp(&self, port: usize) -> (r: RcRes<Option<Rc<T>>>)
        ensures
            port < self.inputs().len() ==> r == Ok::<Option<Rc<T>>, RcErr>(self.inputs()[port as int]),
            port >= self.inputs().len() ==> r == Err::<Option<Rc<T>>, RcErr>(RcErr::InvalidPort),
    {
        if port < self.input_data.len() {
            match &self.input_data[port] {
                Some(v) => Ok(Some(Rc::clone(v))),
                None => Ok(None),
            }
        } else {
            Err(RcErr::InvalidPort)
        }
    }

    /// Records `data` as the new value of output `port`, replacing any value
    /// pushed to that port earlier in this update.
    pub fn set_out(&mut self, port: usize, data: Rc<T>)
        ensures
            final(self).inputs() == old(self).inputs(),
            has_port(old(self).updates(), port) ==> exists|k: int|
                0 <= k < old(self).updates().len() && (#[trigger] old(self).updates()[k]).0 == port
                    && !has_port(old(self).updates().take(k), port)
                    && final(self).updates() == old(self).updates().update(k, (port, data)),
            !has_port(old(self).updates(), port) ==> final(self).updates() == old(self).updates().push(
                (port, data),
            ),
    {
        let mut k: usize = 0;
        while k < self.output_updates.len()
            invariant
                k <= self.output_updates@.len(),
                self.output_updates@ == old(self).output_updates@,
                self.input_data@ == old(self).input_data@,
                forall|j: int| 0 <= j < k ==> (#[trigger] self.output_updates@[j]).0 != port,
            decreases self.output_updates@.len() - k,
        {
            if self.output_updates[k].0 == port {
                assert(self.output_updates@.take(k as int) =~= old(self).output_updates@.take(k as int));
                self.output_updates.set(k, (port, data));
                return;
            }
            k = k + 1;
        }
        assert(!has_port(old(self).output_updates@, port)) by {
            if has_port(old(self).output_updates@, port) {
                let j = choose|j: int| 0 <= j < old(self).output_updates@.len() && (#[trigger] old(self).output_updates@[j]).0 == port;
                assert(self.output_updates@[j].0 != port);
            }
        }
        self.output_updates.push((port, data));
    }

    /// The output values pushed during this update.
    pub fn get_updates(&self) -> (r: &Vec<(usize, Rc<T>)>)
        ensures
            r@ == self.updates(),
    {
        &self.output_updates
    }
}

/// The behaviour of a node. The flow calls `init` once with the assigned id,
/// then `init_inputs` and `init_outputs` once each; `on_update` runs whenever
/// an executor updates the node.
pub trait Node<T> {
    fn init(&mut self, id: NodeId);

    fn init_inputs(&self) -> Vec<NodeInput>;

    fn init_outputs(&self) -> Vec<NodeOutput<T>>;

    fn on_placed(&mut self);

    fn on_removed(&mut self);

    fn on_rebuilt(&mut self);

    fn on_update(&mut self, env: &mut NodeInvocationEnv<T>) -> RcRes<()>;
}

/// A boxed node is a node: a flow may hold nodes of different types behind `dyn Node`.
impl<T> Node<T> for Box<dyn Node<T>> {
    fn init(&mut self, id: NodeId) {
        (**self).init(id)
    }

    fn init_inputs(&self) -> Vec<NodeInput> {
        (**self).init_inputs()
    }

    fn init_outputs(&self) -> Vec<NodeOutput<T>> {
        (**self).init_outputs()
    }

    fn on_placed(&mut self) {
        (**self).on_placed()
    }

    fn on_removed(&mut self) {
        (**self).on_removed()
    }

    fn on_rebuilt(&mut self) {
        (**self).on_rebuilt()
    }

    fn on_update(&mut self, env: &mut NodeInvocationEnv<T>) -> RcRes<()> {
        (**self).on_update(env)
    }
}

} // verus!
