//! The shape of a circuit: a tree of series and parallel groups whose leaves
//! are resistors and ideal meters, and the resistance of such a tree.

use crate::scalar::{Extended, Scalar};
use vstd::prelude::*;

verus! {

/// An element of a circuit as exact values.
pub enum Tree {
    Series(Seq<Tree>),
    Parallel(Seq<Tree>),
    Resistor(Extended),
    Voltameter(Seq<char>),
    Ammeter(Seq<char>),
}

/// The sum of the resistances of `trees`, taken from left to right. The
/// empty sum is zero: an empty series group is a wire.
pub open spec fn total_resistance(trees: Seq<Tree>) -> Extended
    decreases trees, 0int,
{
    if trees.len() == 0 {
        Extended::Finite(0real)
    } else {
        total_resistance(trees.drop_last()).plus(trees.last().ohms())
    }
}

/// The sum of the reciprocals of the resistances of `trees`, taken from
/// left to right. The empty sum is zero: an empty parallel group is an open
/// circuit.
pub open spec fn total_conductance(trees: Seq<Tree>) -> Extended
    decreases trees, 0int,
{
    if trees.len() == 0 {
        Extended::Finite(0real)
    } else {
        total_conductance(trees.drop_last()).plus(trees.last().ohms().recip())
    }
}

impl Tree {
    /// The equivalent resistance: the sum over a series group, the
    /// reciprocal of the sum of reciprocals over a parallel group, infinite
    /// for a voltmeter and zero for an ammeter.
    pub open spec fn ohms(self) -> Extended
        decreases self, 1int,
    {
        match self {
            Tree::Series(children) => total_resistance(children),
            Tree::Parallel(children) => total_conductance(children).recip(),
            Tree::Resistor(r) => r,
            Tree::Voltameter(_) => Extended::PosInf,
            Tree::Ammeter(_) => Extended::Finite(0real),
        }
    }

    /// Whether the resistance can be computed within the limits of a
    /// `Scalar`: in every group each child is itself in range, and each
    /// running total, taken from left to right, can be represented.
    pub open spec fn in_range(self) -> bool
        decreases self,
    {
        match self {
            Tree::Series(children) => forall|i: int|
                #![trigger children[i]]
                0 <= i < children.len() ==> children[i].in_range() && total_resistance(
                    children.take(i + 1),
                ).representable(),
            Tree::Parallel(children) => forall|i: int|
                #![trigger children[i]]
                0 <= i < children.len() ==> children[i].in_range() && total_conductance(
                    children.take(i + 1),
                ).representable(),
            _ => true,
        }
    }
}

/// An element of a circuit.
#[derive(Debug)]
pub enum Node {
    /// Elements that carry the same current, one after the other.
    Series(Vec<Node>),
    /// Elements that share the same voltage, side by side.
    Parallel(Vec<Node>),
    /// A resistor of the given resistance in ohms.
    Resistor(Scalar),
    /// An ideal voltmeter with its label: it draws no current.
    Voltameter(&'static str),
    /// An ideal ammeter with its label: no voltage drops across it.
    Ammeter(&'static str),
}

/// The elements as exact values, in their order.
pub open spec fn trees_of(nodes: Seq<Node>) -> Seq<Tree>
    decreases nodes, 0int,
{
    Seq::new(
        nodes.len(),
        |i: int|
            if 0 <= i < nodes.len() {
                tree_of(nodes[i])
            } else {
                arbitrary()
            },
    )
}

/// The element as exact values.
pub open spec fn tree_of(node: Node) -> Tree
    decreases node, 1int,
{
    match node {
        Node::Series(children) => Tree::Series(trees_of(children@)),
        Node::Parallel(children) => Tree::Parallel(trees_of(children@)),
        Node::Resistor(r) => Tree::Resistor(r@),
        Node::Voltameter(label) => Tree::Voltameter(label@),
        Node::Ammeter(label) => Tree::Ammeter(label@),
    }
}

impl View for Node {
    type V = Tree;

    open spec fn view(&self) -> Tree {
        tree_of(*self)
    }
}

impl Clone for Node {
    /// A copy of the tree.
    fn clone(&self) -> (copy: Node)
        ensures
            copy@ == self@,
        decreases self,
    {
        match self {
            Node::Series(children) => {
                let copies = clone_all(children);
                assert(trees_of(copies@) =~= trees_of(children@));
                Node::Series(copies)
            },
            Node::Parallel(children) => {
                let copies = clone_all(children);
                assert(trees_of(copies@) =~= trees_of(children@));
                Node::Parallel(copies)
            },
            Node::Resistor(r) => Node::Resistor(*r),
            Node::Voltameter(label) => Node::Voltameter(label),
            Node::Ammeter(label) => Node::Ammeter(label),
        }
    }
}

/// Copies of the trees, in their order.
fn clone_all(nodes: &Vec<Node>) -> (copies: Vec<Node>)
    ensures
        copies@.len() == nodes@.len(),
        forall|i: int| 0 <= i < nodes@.len() ==> (#[trigger] copies@[i])@ == nodes@[i]@,
    decreases nodes,
{
    let mut copies: Vec<Node> = Vec::new();
    let mut i: usize = 0;
    while i < nodes.len()
        invariant
            i <= nodes.len(),
            copies@.len() == i,
            forall|j: int| 0 <= j < i ==> (#[trigger] copies@[j])@ == nodes@[j]@,
        decreases nodes.len() - i,
    {
        copies.push(nodes[i].clone());
        i += 1;
    }
    copies
}

impl Node {
    /// The equivalent resistance of the tree: the sum over a series group,
    /// the reciprocal of the sum of reciprocals over a parallel group,
    /// infinite for a voltmeter and zero for an ammeter. `None` where the
    /// tree is not in range.
    pub fn resistance(&self) -> (r: Option<Scalar>)
        ensures
            r is Some <==> self@.in_range(),
            r matches Some(s) ==> s@ == self@.ohms(),
        decreases self,
    {
        match self {
            Node::Series(children) => {
                let ghost trees = trees_of(children@);
                let mut total: Scalar = Scalar::from_int(0);
                let mut i: usize = 0;
                while i < children.len()
                    invariant
                        *self == Node::Series(*children),
                        trees == trees_of(children@),
                        i <= children.len(),
                        total@ == total_resistance(trees.take(i as int)),
                        forall|j: int|
                            #![trigger trees[j]]
                            0 <= j < i ==> trees[j].in_range() && total_resistance(
                                trees.take(j + 1),
                            ).representable(),
                    decreases children.len() - i,
                {
                    proof {
                        assert(trees.take(i + 1).drop_last() == trees.take(i as int));
                        assert(trees[i as int] == children@[i as int]@);
                    }
                    let next: Scalar = match children[i].resistance() {
                        Some(own) => match total.checked_add(own) {
                            Some(sum) => sum,
                            None => {
                                return None;
                            },
                        },
                        None => {
                            return None;
                        },
                    };
                    total = next;
                    i += 1;
                }
                assert(trees.take(i as int) == trees);
                Some(total)
            },
            Node::Parallel(children) => {
                let ghost trees = trees_of(children@);
                let mut total: Scalar = Scalar::from_int(0);
                let mut i: usize = 0;
                while i < children.len()
                    invariant
                        *self == Node::Parallel(*children),
                        trees == trees_of(children@),
                        i <= children.len(),
                        total@ == total_conductance(trees.take(i as int)),
                        forall|j: int|
                            #![trigger trees[j]]
                            0 <= j < i ==> trees[j].in_range() && total_conductance(
                                trees.take(j + 1),
                            ).representable(),
                    decreases children.len() - i,
                {
                    proof {
                        assert(trees.take(i + 1).drop_last() == trees.take(i as int));
                        assert(trees[i as int] == children@[i as int]@);
                    }
                    let next: Scalar = match children[i].resistance() {
                        Some(own) => match total.checked_add(own.recip()) {
                            Some(sum) => sum,
                            None => {
                                return None;
                            },
                        },
                        None => {
                            return None;
                        },
                    };
                    total = next;
                    i += 1;
                }
                assert(trees.take(i as int) == trees);
                Some(total.recip())
            },
            Node::Resistor(r) => Some(*r),
            Node::Voltameter(_) => Some(Scalar::infinity()),
            Node::Ammeter(_) => Some(Scalar::from_int(0)),
        }
    }
}

/// A battery of a given voltage across a tree of elements.
#[derive(Debug)]
pub struct Circuit {
    pub battery_voltage: Scalar,
    pub node: Node,
}

impl Circuit {
    /// A circuit with the given battery voltage across `nodes`.
    pub fn new(battery_voltage: Scalar, nodes: Node) -> (circuit: Circuit)
        ensures
            circuit.battery_voltage == battery_voltage,
            circuit.node == nodes,
    {
        Circuit { battery_voltage, node: nodes }
    }
}

} // verus!
