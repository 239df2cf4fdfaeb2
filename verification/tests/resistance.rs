use circuit_solver::scalar::Scalar;
use circuit_solver::schema::{Circuit, Node};

fn ratio(num: i64, den: i64) -> Scalar {
    Scalar::from_ratio(num, den).unwrap()
}

fn resistor(ohms: i32) -> Node {
    Node::Resistor(Scalar::from_int(ohms))
}

#[test]
fn leaves() {
    assert_eq!(resistor(47).resistance(), Some(Scalar::from_int(47)));
    assert_eq!(Node::Resistor(ratio(1, 3)).resistance(), Some(ratio(1, 3)));
    assert_eq!(Node::Voltameter("V").resistance(), Some(Scalar::infinity()));
    assert_eq!(Node::Ammeter("A").resistance(), Some(Scalar::from_int(0)));
}

#[test]
fn a_series_group_sums_its_resistances() {
    let node = Node::Series(vec![resistor(10), resistor(20)]);
    assert_eq!(node.resistance(), Some(Scalar::from_int(30)));
    let node = Node::Series(vec![
        Node::Resistor(ratio(1, 3)),
        Node::Resistor(ratio(1, 6)),
        Node::Resistor(ratio(1, 2)),
    ]);
    assert_eq!(node.resistance(), Some(Scalar::from_int(1)));
    let node = Node::Series(vec![resistor(5)]);
    assert_eq!(node.resistance(), Some(Scalar::from_int(5)));
}

#[test]
fn a_parallel_pair_is_product_over_sum() {
    let node = Node::Parallel(vec![resistor(10), resistor(20)]);
    assert_eq!(node.resistance(), Some(ratio(200, 30)));
    let node = Node::Parallel(vec![resistor(6), resistor(3)]);
    assert_eq!(node.resistance(), Some(Scalar::from_int(2)));
    let node = Node::Parallel(vec![Node::Resistor(ratio(1, 2)), Node::Resistor(ratio(1, 3))]);
    assert_eq!(node.resistance(), Some(ratio(1, 5)));
}

#[test]
fn a_parallel_group_of_three() {
    let node = Node::Parallel(vec![resistor(2), resistor(3), resistor(6)]);
    assert_eq!(node.resistance(), Some(Scalar::from_int(1)));
}

#[test]
fn a_short_circuit_dominates() {
    let node = Node::Parallel(vec![resistor(0), resistor(10)]);
    assert_eq!(node.resistance(), Some(Scalar::from_int(0)));
    let node = Node::Parallel(vec![resistor(10), Node::Ammeter("A"), Node::Voltameter("V")]);
    assert_eq!(node.resistance(), Some(Scalar::from_int(0)));
}

#[test]
fn an_open_circuit() {
    let node = Node::Parallel(vec![Node::Voltameter("a"), Node::Voltameter("b")]);
    assert_eq!(node.resistance(), Some(Scalar::infinity()));
    let node = Node::Series(vec![resistor(10), Node::Voltameter("V")]);
    assert_eq!(node.resistance(), Some(Scalar::infinity()));
}

#[test]
fn a_voltmeter_beside_a_resistor_changes_nothing() {
    let node = Node::Parallel(vec![resistor(10), Node::Voltameter("V")]);
    assert_eq!(node.resistance(), Some(Scalar::from_int(10)));
}

#[test]
fn an_ammeter_in_a_row_changes_nothing() {
    let node = Node::Series(vec![resistor(10), Node::Ammeter("A"), resistor(20)]);
    assert_eq!(node.resistance(), Some(Scalar::from_int(30)));
}

#[test]
fn empty_groups() {
    assert_eq!(Node::Series(vec![]).resistance(), Some(Scalar::from_int(0)));
    assert_eq!(Node::Parallel(vec![]).resistance(), Some(Scalar::infinity()));
}

#[test]
fn nested_groups() {
    let node = Node::Parallel(vec![
        Node::Series(vec![resistor(10), Node::Ammeter("A"), resistor(20)]),
        Node::Voltameter("V"),
    ]);
    assert_eq!(node.resistance(), Some(Scalar::from_int(30)));
    let node = Node::Series(vec![
        Node::Parallel(vec![resistor(10), resistor(10)]),
        Node::Parallel(vec![resistor(30), resistor(60)]),
    ]);
    assert_eq!(node.resistance(), Some(Scalar::from_int(25)));
}

#[test]
fn indeterminate_resistances() {
    let node = Node::Series(vec![
        Node::Resistor(Scalar::infinity()),
        Node::Resistor(Scalar::neg_infinity()),
    ]);
    assert!(node.resistance().unwrap().is_nan());
    let node = Node::Parallel(vec![Node::Resistor(Scalar::nan()), resistor(10)]);
    assert!(node.resistance().unwrap().is_nan());
}

#[test]
fn opposite_resistances_side_by_side() {
    let node = Node::Parallel(vec![resistor(10), resistor(-10)]);
    assert_eq!(node.resistance(), Some(Scalar::infinity()));
}

#[test]
fn a_resistance_beyond_the_limit_is_not_computed() {
    let big = Node::Resistor(ratio(i64::MAX, 1));
    let node = Node::Series(vec![big.clone(), resistor(1)]);
    assert_eq!(node.resistance(), None);
    let node = Node::Series(vec![resistor(1), Node::Series(vec![big.clone(), resistor(1)])]);
    assert_eq!(node.resistance(), None);
    let node = Node::Parallel(vec![Node::Resistor(ratio(i64::MAX, 1)), resistor(2)]);
    assert_eq!(node.resistance(), None);
    let node = Node::Series(vec![big, resistor(-1)]);
    assert_eq!(node.resistance(), Some(ratio(i64::MAX - 1, 1)));
}

#[test]
fn a_running_total_beyond_the_limit_is_not_computed() {
    let node = Node::Series(vec![
        Node::Resistor(ratio(i64::MAX, 1)),
        resistor(1),
        resistor(-1),
    ]);
    assert_eq!(node.resistance(), None);
    let node = Node::Series(vec![
        Node::Resistor(ratio(i64::MAX, 1)),
        resistor(-1),
        resistor(1),
    ]);
    assert_eq!(node.resistance(), Some(ratio(i64::MAX, 1)));
}

#[test]
fn a_copy_has_the_same_resistance() {
    let node = Node::Parallel(vec![
        Node::Series(vec![resistor(10), Node::Ammeter("A"), resistor(20)]),
        Node::Voltameter("V"),
        Node::Resistor(ratio(7, 3)),
    ]);
    let copy = node.clone();
    assert_eq!(format!("{:?}", copy), format!("{:?}", node));
    assert_eq!(copy.resistance(), node.resistance());
}

#[test]
fn a_circuit_keeps_what_it_was_given() {
    let circuit = Circuit::new(Scalar::from_int(9), resistor(10));
    assert_eq!(circuit.battery_voltage, Scalar::from_int(9));
    assert_eq!(circuit.node.resistance(), Some(Scalar::from_int(10)));
    assert_eq!(format!("{:?}", circuit.node), format!("{:?}", resistor(10)));
}
