use circuit_solver::scalar::Scalar;
use circuit_solver::schema::{Circuit, Node};
use circuit_solver::solver::{Data, SolvedCircuit, SolvedNode};

fn whole(n: i32) -> Scalar {
    Scalar::from_int(n)
}

fn resistor(ohms: i32) -> Node {
    Node::Resistor(Scalar::from_int(ohms))
}

fn solved(voltage: i32, node: Node) -> String {
    SolvedCircuit::from(Circuit::new(whole(voltage), node)).unwrap().to_string()
}

#[test]
fn quantities_are_current_voltage_resistance() {
    let data = Data::from_rv(whole(30), whole(9)).unwrap();
    assert_eq!(data.to_string(), "0.30A, 9.00V, 30.00Ω");
    let data = Data::from_rv(whole(4700), whole(5)).unwrap();
    assert_eq!(data.to_string(), "1.06mA, 5.00V, 4.70kΩ");
    let data = Data::from_rv(Scalar::infinity(), whole(9)).unwrap();
    assert_eq!(data.to_string(), "0.00A, 9.00V, infΩ");
    let data = Data::from_va(whole(0), whole(0)).unwrap();
    assert_eq!(data.to_string(), "0.00A, 0.00V, NaNΩ");
}

#[test]
fn a_series_circuit_as_text() {
    assert_eq!(
        solved(9, Node::Series(vec![resistor(10), resistor(20)])),
        "V_battery = 9.00V: { Series[0.30A, 9.00V, 30.00Ω]( R[0.30A, 3.00V, 10.00Ω], R[0.30A, 6.00V, 20.00Ω] ) }"
    );
}

#[test]
fn a_parallel_circuit_with_meters_as_text() {
    assert_eq!(
        solved(
            9,
            Node::Parallel(vec![
                Node::Series(vec![resistor(10), Node::Ammeter("A"), resistor(20)]),
                Node::Voltameter("V"),
            ])
        ),
        "V_battery = 9.00V: { Parallel[0.30A, 9.00V, 30.00Ω]( Series[0.30A, 9.00V, 30.00Ω]( R[0.30A, 3.00V, 10.00Ω], Amp#A=0.30A, R[0.30A, 6.00V, 20.00Ω] ), Volt#V=9.00V ) }"
    );
}

#[test]
fn a_resistor_beside_a_voltmeter_as_text() {
    assert_eq!(
        solved(9, Node::Parallel(vec![resistor(10), Node::Voltameter("V")])),
        "V_battery = 9.00V: { Parallel[0.90A, 9.00V, 10.00Ω]( R[0.90A, 9.00V, 10.00Ω], Volt#V=9.00V ) }"
    );
}

#[test]
fn single_elements_as_text() {
    assert_eq!(solved(5, resistor(10)), "V_battery = 5.00V: { R[0.50A, 5.00V, 10.00Ω] }");
    assert_eq!(solved(12, Node::Voltameter("lable")), "V_battery = 12.00V: { Volt#lable=12.00V }");
    assert_eq!(solved(12, Node::Ammeter("main")), "V_battery = 12.00V: { Amp#main=infA }");
}

#[test]
fn empty_groups_as_text() {
    assert_eq!(solved(9, Node::Series(vec![])), "V_battery = 9.00V: { Series[infA, 9.00V, 0.00Ω](  ) }");
    assert_eq!(
        solved(9, Node::Parallel(vec![])),
        "V_battery = 9.00V: { Parallel[0.00A, 9.00V, infΩ](  ) }"
    );
}

#[test]
fn a_group_of_one_has_no_separator() {
    let node = SolvedNode::solve_entrypoint(whole(9), Node::Series(vec![resistor(30)])).unwrap();
    assert_eq!(node.to_string(), "Series[0.30A, 9.00V, 30.00Ω]( R[0.30A, 9.00V, 30.00Ω] )");
}

#[test]
fn elements_as_text() {
    let place = Data::from_rv(whole(2000), whole(3)).unwrap();
    let node = SolvedNode::solve_with_parent(Node::Voltameter("out"), &place).unwrap();
    assert_eq!(node.to_string(), "Volt#out=3.00V");
    let node = SolvedNode::solve_with_parent(Node::Ammeter("in"), &place).unwrap();
    assert_eq!(node.to_string(), "Amp#in=1.50mA");
    let node = SolvedNode::solve_with_parent(Node::Ammeter(""), &place).unwrap();
    assert_eq!(node.to_string(), "Amp#=1.50mA");
    let node = SolvedNode::solve_with_parent(resistor(1_000_000), &place).unwrap();
    assert_eq!(node.to_string(), "R[1.50mA, 1.50kV, 1.00MΩ]");
}

#[test]
fn nested_groups_as_text() {
    let node = SolvedNode::solve_entrypoint(
        whole(12),
        Node::Parallel(vec![
            resistor(4),
            Node::Parallel(vec![]),
            Node::Series(vec![Node::Parallel(vec![resistor(6)])]),
        ]),
    )
    .unwrap();
    assert_eq!(
        node.to_string(),
        "Parallel[5.00A, 12.00V, 2.40Ω]( R[3.00A, 12.00V, 4.00Ω], Parallel[0.00A, 12.00V, infΩ](  ), Series[2.00A, 12.00V, 6.00Ω]( Parallel[2.00A, 12.00V, 6.00Ω]( R[2.00A, 12.00V, 6.00Ω] ) ) )"
    );
}
