//! The solver: it walks a circuit from the battery down and annotates every
//! element with the voltage, current and resistance at its place.

use crate::scalar::{Extended, Scalar};
use crate::schema::{trees_of, Circuit, Node, Tree};
use vstd::prelude::*;

verus! {

/// Voltage, current and resistance at one place of a circuit, as exact
/// values.
pub struct Quantities {
    pub voltage: Extended,
    pub amp: Extended,
    pub resistance: Extended,
}

impl Quantities {
    /// From voltage and current: the resistance is `voltage / amp`.
    pub open spec fn from_va(voltage: Extended, amp: Extended) -> Quantities {
        Quantities { voltage, amp, resistance: voltage.over(amp) }
    }

    /// From resistance and voltage: the current is `voltage / resistance`.
    pub open spec fn from_rv(resistance: Extended, voltage: Extended) -> Quantities {
        Quantities { voltage, amp: voltage.over(resistance), resistance }
    }

    /// From resistance and current: the voltage is `resistance * amp`.
    pub open spec fn from_ra(resistance: Extended, amp: Extended) -> Quantities {
        Quantities { voltage: resistance.times(amp), amp, resistance }
    }

    /// The power, `amp * voltage`.
    pub open spec fn wattage(self) -> Extended {
        self.amp.times(self.voltage)
    }
}

/// Voltage, current and resistance at one place of a circuit.
#[derive(Debug, Clone, Copy)]
pub struct Data {
    voltage: Scalar,
    amp: Scalar,
    resistance: Scalar,
}

impl View for Data {
    type V = Quantities;

    closed spec fn view(&self) -> Quantities {
        Quantities { voltage: self.voltage@, amp: self.amp@, resistance: self.resistance@ }
    }
}

impl Data {
    /// From voltage and current, by `R = U / I`. `None` where the
    /// resistance cannot be represented.
    pub fn from_va(voltage: Scalar, amp: Scalar) -> (r: Option<Data>)
        ensures
            r matches Some(d) ==> d@ == Quantities::from_va(voltage@, amp@),
            r is None <==> !voltage@.over(amp@).representable(),
    {
        match voltage.checked_div(amp) {
            Some(resistance) => Some(Data { voltage, amp, resistance }),
            None => None,
        }
    }

    /// From resistance and voltage, by `I = U / R`. `None` where the
    /// current cannot be represented.
    pub fn from_rv(resistance: Scalar, voltage: Scalar) -> (r: Option<Data>)
        ensures
            r matches Some(d) ==> d@ == Quantities::from_rv(resistance@, voltage@),
            r is None <==> !voltage@.over(resistance@).representable(),
    {
        match voltage.checked_div(resistance) {
            Some(amp) => Some(Data { voltage, amp, resistance }),
            None => None,
        }
    }

    /// From resistance and current, by `U = R * I`. `None` where the
    /// voltage cannot be represented.
    pub fn from_ra(resistance: Scalar, amp: Scalar) -> (r: Option<Data>)
        ensures
            r matches Some(d) ==> d@ == Quantities::from_ra(resistance@, amp@),
            r is None <==> !resistance@.times(amp@).representable(),
    {
        match resistance.checked_mul(amp) {
            Some(voltage) => Some(Data { voltage, amp, resistance }),
            None => None,
        }
    }

    /// The voltage in volts.
    pub fn voltage(&self) -> (v: Scalar)
        ensures
            v@ == self@.voltage,
    {
        self.voltage
    }

    /// The current in amperes.
    pub fn amp(&self) -> (a: Scalar)
        ensures
            a@ == self@.amp,
    {
        self.amp
    }

    /// The resistance in ohms.
    pub fn resistance(&self) -> (r: Scalar)
        ensures
            r@ == self@.resistance,
    {
        self.resistance
    }

    /// The power in watts, `amp * voltage`. `None` where it cannot be
    /// represented.
    pub fn wattage(&self) -> (r: Option<Scalar>)
        ensures
            r matches Some(w) ==> w@ == self@.wattage(),
            r is None <==> !self@.wattage().representable(),
    {
        self.amp.checked_mul(self.voltage)
    }
}

/// A solved circuit element as exact values: the element, the quantities at
/// its place and, for a group, its solved children.
pub enum Solved {
    Series(Quantities, Seq<Solved>),
    Parallel(Quantities, Seq<Solved>),
    Resistor(Quantities),
    Voltameter(Quantities, Seq<char>),
    Ammeter(Quantities, Seq<char>),
}

/// The solution of `tree` where `parent` holds at its place.
///
/// A series group and a meter take the quantities of their place as they
/// are. The children of a series group are solved at the same place. Each
/// child of a parallel group sees the full voltage, and the current that
/// its own resistance lets through. A resistor keeps the current and drops
/// the voltage `R * I`.
pub open spec fn solve(tree: Tree, parent: Quantities) -> Solved
    decreases tree,
{
    match tree {
        Tree::Series(children) => Solved::Series(
            parent,
            Seq::new(
                children.len(),
                |i: int|
                    if 0 <= i < children.len() {
                        solve(children[i], parent)
                    } else {
                        arbitrary()
                    },
            ),
        ),
        Tree::Parallel(children) => Solved::Parallel(
            parent,
            Seq::new(
                children.len(),
                |i: int|
                    if 0 <= i < children.len() {
                        solve(children[i], Quantities::from_rv(children[i].ohms(), parent.voltage))
                    } else {
                        arbitrary()
                    },
            ),
        ),
        Tree::Resistor(r) => Solved::Resistor(Quantities::from_ra(r, parent.amp)),
        Tree::Voltameter(label) => Solved::Voltameter(parent, label),
        Tree::Ammeter(label) => Solved::Ammeter(parent, label),
    }
}

/// Whether `tree` can be solved at a place where `parent` holds within the
/// limits of a `Scalar`: the voltage across every resistor can be
/// represented, and so can the resistance of every child of a parallel
/// group and the current through it.
pub open spec fn solvable(tree: Tree, parent: Quantities) -> bool
    decreases tree,
{
    match tree {
        Tree::Series(children) => forall|i: int|
            #![trigger children[i]]
            0 <= i < children.len() ==> solvable(children[i], parent),
        Tree::Parallel(children) => forall|i: int|
            #![trigger children[i]]
            0 <= i < children.len() ==> {
                &&& children[i].in_range()
                &&& parent.voltage.over(children[i].ohms()).representable()
                &&& solvable(children[i], Quantities::from_rv(children[i].ohms(), parent.voltage))
            },
        Tree::Resistor(r) => r.times(parent.amp).representable(),
        _ => true,
    }
}

/// A circuit element together with the quantities at its place.
#[derive(Debug)]
pub enum SolvedNode {
    Series(Data, Vec<SolvedNode>),
    Parallel(Data, Vec<SolvedNode>),
    Resistor(Data),
    Voltameter(Data, &'static str),
    Ammeter(Data, &'static str),
}

/// The solved elements as exact values, in their order.
pub open spec fn annotated_all(nodes: Seq<SolvedNode>) -> Seq<Solved>
    decreases nodes, 0int,
{
    Seq::new(
        nodes.len(),
        |i: int|
            if 0 <= i < nodes.len() {
                annotated(nodes[i])
            } else {
                arbitrary()
            },
    )
}

/// The solved element as exact values.
pub open spec fn annotated(node: SolvedNode) -> Solved
    decreases node, 1int,
{
    match node {
        SolvedNode::Series(data, children) => Solved::Series(data@, annotated_all(children@)),
        SolvedNode::Parallel(data, children) => Solved::Parallel(data@, annotated_all(children@)),
        SolvedNode::Resistor(data) => Solved::Resistor(data@),
        SolvedNode::Voltameter(data, label) => Solved::Voltameter(data@, label@),
        SolvedNode::Ammeter(data, label) => Solved::Ammeter(data@, label@),
    }
}

impl View for SolvedNode {
    type V = Solved;

    open spec fn view(&self) -> Solved {
        annotated(*self)
    }
}

impl SolvedNode {
    /// Solves `node` at a place where `parent` holds. `None` where the
    /// node is not solvable there.
    pub fn solve_with_parent(node: Node, parent: &Data) -> (r: Option<SolvedNode>)
        ensures
            r is Some <==> solvable(node@, parent@),
            r matches Some(s) ==> s@ == solve(node@, parent@),
        decreases node,
    {
        match node {
            Node::Series(children) => {
                let mut solved: Vec<SolvedNode> = Vec::new();
                let ghost all = trees_of(children@);
                for child in it: children
                    invariant
                        node == Node::Series(children),
                        all == trees_of(children@),
                        solved@.len() == it.index(),
                        forall|j: int|
                            #![trigger all[j]]
                            0 <= j < it.index() ==> solvable(all[j], parent@) && solved@[j]@
                                == solve(all[j], parent@),
                {
                    proof {
                        assert(all[it.index()] == child@);
                    }
                    match SolvedNode::solve_with_parent(child, parent) {
                        Some(s) => {
                            solved.push(s);
                        },
                        None => {
                            return None;
                        },
                    }
                }
                let result = SolvedNode::Series(*parent, solved);
                assert(result@->Series_1 =~= solve(node@, parent@)->Series_1);
                Some(result)
            },
            Node::Parallel(children) => {
                let mut solved: Vec<SolvedNode> = Vec::new();
                let ghost all = trees_of(children@);
                for child in it: children
                    invariant
                        node == Node::Parallel(children),
                        all == trees_of(children@),
                        solved@.len() == it.index(),
                        forall|j: int|
                            #![trigger all[j]]
                            0 <= j < it.index() ==> {
                                &&& all[j].in_range()
                                &&& parent@.voltage.over(all[j].ohms()).representable()
                                &&& solvable(
                                    all[j],
                                    Quantities::from_rv(all[j].ohms(), parent@.voltage),
                                )
                                &&& solved@[j]@ == solve(
                                    all[j],
                                    Quantities::from_rv(all[j].ohms(), parent@.voltage),
                                )
                            },
                {
                    proof {
                        assert(all[it.index()] == child@);
                    }
                    let own: Scalar = match child.resistance() {
                        Some(own) => own,
                        None => {
                            return None;
                        },
                    };
                    let branch: Data = match Data::from_rv(own, parent.voltage()) {
                        Some(branch) => branch,
                        None => {
                            return None;
                        },
                    };
                    match SolvedNode::solve_with_parent(child, &branch) {
                        Some(s) => {
                            solved.push(s);
                        },
                        None => {
                            return None;
                        },
                    }
                }
                let result = SolvedNode::Parallel(*parent, solved);
                assert(result@->Parallel_1 =~= solve(node@, parent@)->Parallel_1);
                Some(result)
            },
            Node::Resistor(resistance) => match Data::from_ra(resistance, parent.amp()) {
                Some(data) => Some(SolvedNode::Resistor(data)),
                None => None,
            },
            Node::Voltameter(label) => Some(SolvedNode::Voltameter(*parent, label)),
            Node::Ammeter(label) => Some(SolvedNode::Ammeter(*parent, label)),
        }
    }

    /// Solves the tree `node` across a battery of the given voltage: the
    /// root sees the battery's voltage and the current that the resistance
    /// of the whole tree lets through. `None` where the circuit is not
    /// solvable.
    pub fn solve_entrypoint(voltage: Scalar, node: Node) -> (r: Option<SolvedNode>)
        ensures
            r is Some <==> circuit_solvable(voltage@, node@),
            r matches Some(s) ==> s@ == solve_circuit(voltage@, node@),
    {
        let resistance: Scalar = match node.resistance() {
            Some(resistance) => resistance,
            None => {
                return None;
            },
        };
        match Data::from_rv(resistance, voltage) {
            Some(root) => SolvedNode::solve_with_parent(node, &root),
            None => None,
        }
    }
}

/// The solution of `tree` across a battery of the given voltage: the root
/// sees the battery's voltage and the current that the resistance of the
/// whole tree lets through.
pub open spec fn solve_circuit(voltage: Extended, tree: Tree) -> Solved {
    solve(tree, Quantities::from_rv(tree.ohms(), voltage))
}

/// Whether `tree` across a battery of the given voltage can be solved
/// within the limits of a `Scalar`.
pub open spec fn circuit_solvable(voltage: Extended, tree: Tree) -> bool {
    &&& tree.in_range()
    &&& voltage.over(tree.ohms()).representable()
    &&& solvable(tree, Quantities::from_rv(tree.ohms(), voltage))
}

/// A solved circuit as exact values: the battery's voltage and the solved
/// tree.
pub struct Solution {
    pub battery_voltage: Extended,
    pub node: Solved,
}

/// A circuit whose every element carries the quantities at its place.
#[derive(Debug)]
pub struct SolvedCircuit {
    battery_voltage: Scalar,
    node: SolvedNode,
}

impl View for SolvedCircuit {
    type V = Solution;

    closed spec fn view(&self) -> Solution {
        Solution { battery_voltage: self.battery_voltage@, node: self.node@ }
    }
}

impl SolvedCircuit {
    /// Solves a circuit. `None` where it is not solvable within the limits
    /// of a `Scalar`.
    pub fn from(v: Circuit) -> (r: Option<SolvedCircuit>)
        ensures
            r is Some <==> circuit_solvable(v.battery_voltage@, v.node@),
            r matches Some(s) ==> {
                &&& s@.battery_voltage == v.battery_voltage@
                &&& s@.node == solve_circuit(v.battery_voltage@, v.node@)
            },
    {
        let top_level_node = v.node;
        let voltage = v.battery_voltage;
        match SolvedNode::solve_entrypoint(voltage, top_level_node) {
            Some(node) => Some(SolvedCircuit { battery_voltage: voltage, node }),
            None => None,
        }
    }

    /// The battery's voltage.
    pub fn battery_voltage(&self) -> (v: Scalar)
        ensures
            v@ == self@.battery_voltage,
    {
        self.battery_voltage
    }

    /// The solved tree.
    pub fn node(&self) -> (n: &SolvedNode)
        ensures
            n@ == self@.node,
    {
        &self.node
    }
}

} // verus!
