//! Laws of the circuit model, proved over exact values.

use crate::scalar::Extended;
use crate::schema::{total_conductance, total_resistance, Tree};
use crate::solver::{solve, solve_circuit, Quantities, Solved};
use vstd::prelude::*;

verus! {

/// The sum of a sequence of real numbers.
pub open spec fn sum_of(values: Seq<real>) -> real
    decreases values.len(),
{
    if values.len() == 0 {
        0real
    } else {
        sum_of(values.drop_last()) + values.last()
    }
}

/// Resistors of the given resistances, in their order.
pub open spec fn resistors(values: Seq<real>) -> Seq<Tree> {
    Seq::new(values.len(), |i: int| Tree::Resistor(Extended::Finite(values[i])))
}

/// Series sum: the resistance of a series group of resistors is the sum of
/// their resistances.
pub proof fn lemma_series_sum(values: Seq<real>)
    ensures
        Tree::Series(resistors(values)).ohms() == Extended::Finite(sum_of(values)),
    decreases values.len(),
{
    if values.len() > 0 {
        assert(resistors(values).drop_last() =~= resistors(values.drop_last()));
        lemma_series_sum(values.drop_last());
        assert(resistors(values).last().ohms() == Extended::Finite(values.last()));
    }
}

/// Parallel reciprocal law: the resistance of two resistors side by side is
/// the product of their resistances over the sum. It also holds where one
/// of the two is zero, when the result is zero.
pub proof fn lemma_parallel_pair(r1: real, r2: real)
    requires
        r1 + r2 != 0real,
    ensures
        Tree::Parallel(resistors(seq![r1, r2])).ohms() == Extended::Finite(r1 * r2 / (r1 + r2)),
{
    let trees = resistors(seq![r1, r2]);
    reveal_with_fuel(total_conductance, 3);
    let zero = Extended::Finite(0real);
    assert(total_conductance(trees) == zero.plus(trees[0].ohms().recip()).plus(
        trees[1].ohms().recip(),
    ));
    if r1 != 0real && r2 != 0real {
        assert(1real / r1 + 1real / r2 != 0real && 1real / (0real + 1real / r1 + 1real / r2) == r1
            * r2 / (r1 + r2)) by (nonlinear_arith)
            requires
                r1 != 0real,
                r2 != 0real,
                r1 + r2 != 0real,
        ;
    } else {
        assert(r1 * r2 / (r1 + r2) == 0real) by (nonlinear_arith)
            requires
                r1 == 0real || r2 == 0real,
                r1 + r2 != 0real,
        ;
    }
}

/// Whether a value is positive infinity or a number that is not negative.
pub open spec fn non_negative(value: Extended) -> bool {
    match value {
        Extended::PosInf => true,
        Extended::Finite(x) => x >= 0real,
        _ => false,
    }
}

/// Whether no resistor in the tree has a negative, negatively infinite or
/// indeterminate resistance.
pub open spec fn passive(tree: Tree) -> bool
    decreases tree,
{
    match tree {
        Tree::Series(children) => forall|i: int|
            #![trigger children[i]]
            0 <= i < children.len() ==> passive(children[i]),
        Tree::Parallel(children) => forall|i: int|
            #![trigger children[i]]
            0 <= i < children.len() ==> passive(children[i]),
        Tree::Resistor(r) => non_negative(r),
        _ => true,
    }
}

/// The reciprocal of a value that is not negative is not negative.
pub proof fn lemma_recip_non_negative(value: Extended)
    requires
        non_negative(value),
    ensures
        non_negative(value.recip()),
{
    if value is Finite {
        let x = value->Finite_0;
        if x != 0real {
            assert(1real / x >= 0real) by (nonlinear_arith)
                requires
                    x > 0real,
            ;
        }
    }
}

/// The resistance of a passive tree is well defined and not negative: a
/// number from zero up, or positive infinity.
pub proof fn lemma_resistance_non_negative(tree: Tree)
    requires
        passive(tree),
    ensures
        non_negative(tree.ohms()),
    decreases tree, 1int,
{
    match tree {
        Tree::Series(children) => {
            lemma_totals_non_negative(children);
        },
        Tree::Parallel(children) => {
            lemma_totals_non_negative(children);
            lemma_recip_non_negative(total_conductance(children));
        },
        _ => {},
    }
}

/// The total resistance and the total conductance of passive trees are not
/// negative.
pub proof fn lemma_totals_non_negative(nodes: Seq<Tree>)
    requires
        forall|i: int| 0 <= i < nodes.len() ==> passive(#[trigger] nodes[i]),
    ensures
        non_negative(total_resistance(nodes)),
        non_negative(total_conductance(nodes)),
    decreases nodes, 0int,
{
    if nodes.len() > 0 {
        let last = nodes[nodes.len() - 1];
        assert forall|i: int| 0 <= i < nodes.drop_last().len() implies passive(
            #[trigger] nodes.drop_last()[i],
        ) by {}
        lemma_totals_non_negative(nodes.drop_last());
        lemma_resistance_non_negative(last);
        lemma_recip_non_negative(last.ohms());
    }
}

/// A short circuit dominates: a parallel group of passive trees, one of
/// which has no resistance, has no resistance.
pub proof fn lemma_short_circuit_dominates(children: Seq<Tree>, short: int)
    requires
        forall|i: int| 0 <= i < children.len() ==> passive(#[trigger] children[i]),
        0 <= short < children.len(),
        children[short].ohms() == Extended::Finite(0real),
    ensures
        Tree::Parallel(children).ohms() == Extended::Finite(0real),
{
    lemma_conductance_of_short_circuit(children, short);
}

/// The total conductance of passive trees, one of which has no resistance,
/// is infinite.
pub proof fn lemma_conductance_of_short_circuit(nodes: Seq<Tree>, short: int)
    requires
        forall|i: int| 0 <= i < nodes.len() ==> passive(#[trigger] nodes[i]),
        0 <= short < nodes.len(),
        nodes[short].ohms() == Extended::Finite(0real),
    ensures
        total_conductance(nodes) == Extended::PosInf,
    decreases nodes.len(),
{
    let last = nodes[nodes.len() - 1];
    assert forall|i: int| 0 <= i < nodes.drop_last().len() implies passive(
        #[trigger] nodes.drop_last()[i],
    ) by {}
    lemma_resistance_non_negative(last);
    lemma_recip_non_negative(last.ohms());
    if short == nodes.len() - 1 {
        lemma_totals_non_negative(nodes.drop_last());
    } else {
        lemma_conductance_of_short_circuit(nodes.drop_last(), short);
    }
}

/// An open circuit: a parallel group whose every child has infinite
/// resistance, and an empty one, has infinite resistance.
pub proof fn lemma_open_circuit(children: Seq<Tree>)
    requires
        forall|i: int|
            0 <= i < children.len() ==> (#[trigger] children[i]).ohms() == Extended::PosInf,
    ensures
        Tree::Parallel(children).ohms() == Extended::PosInf,
{
    lemma_conductance_of_open_circuit(children);
}

/// Trees of infinite resistance have no conductance in total.
pub proof fn lemma_conductance_of_open_circuit(nodes: Seq<Tree>)
    requires
        forall|i: int| 0 <= i < nodes.len() ==> (#[trigger] nodes[i]).ohms() == Extended::PosInf,
    ensures
        total_conductance(nodes) == Extended::Finite(0real),
    decreases nodes.len(),
{
    if nodes.len() > 0 {
        assert forall|i: int| 0 <= i < nodes.drop_last().len() implies (
        #[trigger] nodes.drop_last()[i]).ohms() == Extended::PosInf by {}
        lemma_conductance_of_open_circuit(nodes.drop_last());
    }
}

/// Ohm's law at one place: where the resistance is a number, and it or the
/// current is a number other than zero, the voltage is the current times
/// the resistance.
pub open spec fn obeys_ohm(data: Quantities) -> bool {
    let zero = Extended::Finite(0real);
    (data.resistance is Finite && (data.resistance != zero || (data.amp is Finite && data.amp
        != zero))) ==> data.voltage == data.amp.times(data.resistance)
}

/// Whether Ohm's law holds at every element of a solved tree.
pub open spec fn obeys_ohm_throughout(node: Solved) -> bool
    decreases node,
{
    match node {
        Solved::Series(data, children) => obeys_ohm(data) && forall|i: int|
            #![trigger children[i]]
            0 <= i < children.len() ==> obeys_ohm_throughout(children[i]),
        Solved::Parallel(data, children) => obeys_ohm(data) && forall|i: int|
            #![trigger children[i]]
            0 <= i < children.len() ==> obeys_ohm_throughout(children[i]),
        Solved::Resistor(data) => obeys_ohm(data),
        Solved::Voltameter(data, _) => obeys_ohm(data),
        Solved::Ammeter(data, _) => obeys_ohm(data),
    }
}

/// The product does not depend on the order of its factors.
pub proof fn lemma_times_commutes(a: Extended, b: Extended)
    ensures
        a.times(b) == b.times(a),
{
    assert(a.sign() * b.sign() == b.sign() * a.sign()) by (nonlinear_arith);
    if a is Finite && b is Finite {
        let x = a->Finite_0;
        let y = b->Finite_0;
        assert(x * y == y * x) by (nonlinear_arith);
    }
}

/// Quantities made from resistance and voltage obey Ohm's law.
pub proof fn lemma_from_rv_obeys_ohm(resistance: Extended, voltage: Extended)
    ensures
        obeys_ohm(Quantities::from_rv(resistance, voltage)),
{
    if resistance is Finite && resistance->Finite_0 != 0real {
        let r = resistance->Finite_0;
        match voltage {
            Extended::Finite(v) => {
                assert(v / r * r == v) by (nonlinear_arith)
                    requires
                        r != 0real,
                ;
            },
            _ => {
                assert(1 * 1 == 1 && (-1) * (-1) == 1 && 1 * (-1) == -1 && (-1) * 1 == -1)
                    by (nonlinear_arith);
            },
        }
    }
}

/// Quantities made from resistance and current obey Ohm's law.
pub proof fn lemma_from_ra_obeys_ohm(resistance: Extended, amp: Extended)
    ensures
        obeys_ohm(Quantities::from_ra(resistance, amp)),
{
    lemma_times_commutes(resistance, amp);
}

/// Quantities made from voltage and current obey Ohm's law.
pub proof fn lemma_from_va_obeys_ohm(voltage: Extended, amp: Extended)
    ensures
        obeys_ohm(Quantities::from_va(voltage, amp)),
{
    if voltage is Finite && amp is Finite && amp->Finite_0 != 0real {
        let v = voltage->Finite_0;
        let a = amp->Finite_0;
        assert(a * (v / a) == v) by (nonlinear_arith)
            requires
                a != 0real,
        ;
    }
}

/// Solving below a place where Ohm's law holds keeps it at every element.
pub proof fn lemma_solve_obeys_ohm(tree: Tree, parent: Quantities)
    requires
        obeys_ohm(parent),
    ensures
        obeys_ohm_throughout(solve(tree, parent)),
    decreases tree,
{
    match tree {
        Tree::Series(children) => {
            let solved = solve(tree, parent)->Series_1;
            assert forall|i: int| 0 <= i < solved.len() implies obeys_ohm_throughout(
                #[trigger] solved[i],
            ) by {
                lemma_solve_obeys_ohm(children[i], parent);
            }
        },
        Tree::Parallel(children) => {
            let solved = solve(tree, parent)->Parallel_1;
            assert forall|i: int| 0 <= i < solved.len() implies obeys_ohm_throughout(
                #[trigger] solved[i],
            ) by {
                let branch = Quantities::from_rv(children[i].ohms(), parent.voltage);
                lemma_from_rv_obeys_ohm(children[i].ohms(), parent.voltage);
                lemma_solve_obeys_ohm(children[i], branch);
            }
        },
        Tree::Resistor(r) => {
            lemma_from_ra_obeys_ohm(r, parent.amp);
        },
        _ => {},
    }
}

/// Ohm's law consistency: at every element of a solved circuit whose
/// resistance is a number, and where it or the current is a number other
/// than zero, the voltage is the current times the resistance.
pub proof fn lemma_solved_circuit_obeys_ohm(voltage: Extended, tree: Tree)
    ensures
        obeys_ohm_throughout(solve_circuit(voltage, tree)),
{
    lemma_from_rv_obeys_ohm(tree.ohms(), voltage);
    lemma_solve_obeys_ohm(tree, Quantities::from_rv(tree.ohms(), voltage));
}

/// The elements that solved elements annotate, in their order.
pub open spec fn plain_all(nodes: Seq<Solved>) -> Seq<Tree>
    decreases nodes, 0int,
{
    Seq::new(
        nodes.len(),
        |i: int|
            if 0 <= i < nodes.len() {
                plain(nodes[i])
            } else {
                arbitrary()
            },
    )
}

/// The element that a solved element annotates.
pub open spec fn plain(node: Solved) -> Tree
    decreases node, 1int,
{
    match node {
        Solved::Series(_, children) => Tree::Series(plain_all(children)),
        Solved::Parallel(_, children) => Tree::Parallel(plain_all(children)),
        Solved::Resistor(data) => Tree::Resistor(data.resistance),
        Solved::Voltameter(_, label) => Tree::Voltameter(label),
        Solved::Ammeter(_, label) => Tree::Ammeter(label),
    }
}

/// A solution mirrors its tree: it holds the same elements in the same
/// order and nesting, each with its quantities.
pub proof fn lemma_solution_mirrors_tree(tree: Tree, parent: Quantities)
    ensures
        plain(solve(tree, parent)) == tree,
    decreases tree,
{
    match tree {
        Tree::Series(children) => {
            let solved = solve(tree, parent)->Series_1;
            assert forall|i: int| 0 <= i < children.len() implies plain(#[trigger] solved[i])
                == children[i] by {
                lemma_solution_mirrors_tree(children[i], parent);
            }
            assert(plain_all(solved) =~= children);
        },
        Tree::Parallel(children) => {
            let solved = solve(tree, parent)->Parallel_1;
            assert forall|i: int| 0 <= i < children.len() implies plain(#[trigger] solved[i])
                == children[i] by {
                lemma_solution_mirrors_tree(
                    children[i],
                    Quantities::from_rv(children[i].ohms(), parent.voltage),
                );
            }
            assert(plain_all(solved) =~= children);
        },
        _ => {},
    }
}

/// Round trips of the three construction rules: each keeps the two
/// quantities it was given.
pub proof fn lemma_construction_round_trips(a: Extended, b: Extended)
    ensures
        Quantities::from_rv(a, b).resistance == a,
        Quantities::from_rv(a, b).voltage == b,
        Quantities::from_va(a, b).voltage == a,
        Quantities::from_va(a, b).amp == b,
        Quantities::from_ra(a, b).resistance == a,
        Quantities::from_ra(a, b).amp == b,
{
}

} // verus!
