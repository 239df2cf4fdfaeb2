//! The text of a solved circuit.

use crate::renderer::{rendered, scientific_float_renderer};
use crate::scalar::Extended;
use crate::solver::{annotated_all, Data, Quantities, Solved, SolvedCircuit, SolvedNode};
use vstd::prelude::*;
use vstd::string::StringExecFns;

verus! {

/// The parts in their order, with the separator between neighbours.
pub open spec fn joined(parts: Seq<Seq<char>>, separator: Seq<char>) -> Seq<char>
    decreases parts.len(),
{
    if parts.len() == 0 {
        Seq::empty()
    } else if parts.len() == 1 {
        parts[0]
    } else {
        joined(parts.drop_last(), separator) + separator + parts.last()
    }
}

/// The text of the quantities at one place: current, voltage and
/// resistance, each with its unit.
pub open spec fn data_text(data: Quantities) -> Seq<char> {
    rendered(data.amp, "A"@) + ", "@ + rendered(data.voltage, "V"@) + ", "@ + rendered(
        data.resistance,
        "Ω"@,
    )
}

/// The texts of solved elements, in their order.
pub open spec fn node_texts(nodes: Seq<Solved>) -> Seq<Seq<char>>
    decreases nodes, 0int,
{
    Seq::new(
        nodes.len(),
        |i: int|
            if 0 <= i < nodes.len() {
                node_text(nodes[i])
            } else {
                arbitrary()
            },
    )
}

/// The text of a solved element. A group shows its quantities in square
/// brackets and its children in round ones, a resistor its quantities, a
/// voltmeter its label and voltage, an ammeter its label and current.
pub open spec fn node_text(node: Solved) -> Seq<char>
    decreases node, 1int,
{
    match node {
        Solved::Series(data, children) => "Series["@ + data_text(data) + "]( "@ + joined(
            node_texts(children),
            ", "@,
        ) + " )"@,
        Solved::Parallel(data, children) => "Parallel["@ + data_text(data) + "]( "@ + joined(
            node_texts(children),
            ", "@,
        ) + " )"@,
        Solved::Resistor(data) => "R["@ + data_text(data) + "]"@,
        Solved::Voltameter(data, label) => "Volt#"@ + label + "="@ + rendered(data.voltage, "V"@),
        Solved::Ammeter(data, label) => "Amp#"@ + label + "="@ + rendered(data.amp, "A"@),
    }
}

/// The text of a solved circuit: the battery's voltage, then the solved
/// tree in braces.
pub open spec fn circuit_text(battery_voltage: Extended, root: Solved) -> Seq<char> {
    "V_battery = "@ + rendered(battery_voltage, "V"@) + ": { "@ + node_text(root) + " }"@
}

impl Data {
    /// The quantities as text, such as `300.00mA, 9.00V, 30.00Ω`.
    pub fn to_string(&self) -> (text: String)
        ensures
            text@ == data_text(self@),
    {
        let mut text = scientific_float_renderer(self.amp(), "A");
        text.append(", ");
        text.append(scientific_float_renderer(self.voltage(), "V").as_str());
        text.append(", ");
        text.append(scientific_float_renderer(self.resistance(), "Ω").as_str());
        text
    }
}

/// Appends the texts of solved elements, separated by a comma and a space.
fn push_children(text: &mut String, children: &Vec<SolvedNode>)
    ensures
        final(text)@ == old(text)@ + joined(node_texts(annotated_all(children@)), ", "@),
    decreases children,
{
    let ghost parts = node_texts(annotated_all(children@));
    let ghost before = text@;
    let mut i: usize = 0;
    while i < children.len()
        invariant
            i <= children.len(),
            parts == node_texts(annotated_all(children@)),
            text@ == before + joined(parts.take(i as int), ", "@),
        decreases children.len() - i,
    {
        if i > 0 {
            text.append(", ");
        }
        let child = children[i].to_string();
        text.append(child.as_str());
        proof {
            assert(parts.take(i + 1).drop_last() == parts.take(i as int));
        }
        i += 1;
    }
    assert(parts.take(i as int) == parts);
}

impl SolvedNode {
    /// The solved element as text.
    pub fn to_string(&self) -> (text: String)
        ensures
            text@ == node_text(self@),
        decreases self,
    {
        match self {
            SolvedNode::Series(data, children) => {
                let mut text = String::from_str("Series[");
                text.append(data.to_string().as_str());
                text.append("]( ");
                push_children(&mut text, children);
                text.append(" )");
                text
            },
            SolvedNode::Parallel(data, children) => {
                let mut text = String::from_str("Parallel[");
                text.append(data.to_string().as_str());
                text.append("]( ");
                push_children(&mut text, children);
                text.append(" )");
                text
            },
            SolvedNode::Resistor(data) => {
                let mut text = String::from_str("R[");
                text.append(data.to_string().as_str());
                text.append("]");
                text
            },
            SolvedNode::Voltameter(data, label) => {
                let mut text = String::from_str("Volt#");
                text.append(label);
                text.append("=");
                text.append(scientific_float_renderer(data.voltage(), "V").as_str());
                text
            },
            SolvedNode::Ammeter(data, label) => {
                let mut text = String::from_str("Amp#");
                text.append(label);
                text.append("=");
                text.append(scientific_float_renderer(data.amp(), "A").as_str());
                text
            },
        }
    }
}

impl SolvedCircuit {
    /// The solved circuit as text.
    pub fn to_string(&self) -> (text: String)
        ensures
            text@ == circuit_text(self@.battery_voltage, self@.node),
    {
        let mut text = String::from_str("V_battery = ");
        text.append(scientific_float_renderer(self.battery_voltage(), "V").as_str());
        text.append(": { ");
        text.append(self.node().to_string().as_str());
        text.append(" }");
        text
    }
}

} // verus!
