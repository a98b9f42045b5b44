//! Graph edits: nodes, ports, connections, cycle rejection and
//! reconfiguration.

use signal_graph::config::{custom_config, mono, stereo};
use signal_graph::graph::{hash_str, Direction, Error, Graph, NodeHandle};
use signal_graph::schedule::{get_input, get_output};

#[test]
fn nodes() {
    let mut graph = Graph::new();
    let node0 = graph.add_node("node-0").expect("could not create node");
    let _ = graph.add_node("node-0").expect_err("created duplicate nodes");
    graph.del_node(node0).expect("could not delete node");
    graph.del_node(node0).expect_err("deleted node twice");
}

#[test]
fn ports() {
    let mut graph = Graph::new();
    let node = graph.add_node("node").expect("could not create node");
    let input = graph
        .add_port(Direction::Input, node, "input")
        .expect("could not create input port");
    let _output = graph
        .add_port(Direction::Output, node, "output")
        .expect("could not create output port");
    let _ = graph
        .add_port(Direction::Input, node, "input")
        .expect_err("created duplicate ports");
    let _ = graph
        .add_port(Direction::Output, node, "output")
        .expect_err("created duplicate ports");
    graph
        .del_port(Direction::Input, node, input)
        .expect("could not delete input node");
    graph
        .del_port(Direction::Output, node, input)
        .expect_err("deleted node that doesn't exist");
    graph
        .del_port(Direction::Input, node, input)
        .expect_err("deleted node twice");
}

#[test]
fn connections() {
    let mut graph = Graph::new();
    let (node0, node1) = (
        graph.add_node("foo").expect("could not create foo"),
        graph.add_node("bar").expect("could not create bar"),
    );
    let output = graph
        .add_port(Direction::Output, node0, "foo.output")
        .expect("could not create foo.output");
    let input = graph
        .add_port(Direction::Input, node1, "bar.input")
        .expect("could not create bar.input");
    graph
        .configure_port(Direction::Output, node0, output, stereo())
        .expect("could not configure foo.output as stereo");
    graph
        .configure_port(Direction::Input, node1, input, stereo())
        .expect("could not configure bar.input as stereo");
    graph
        .connect((node0, output), (node1, input))
        .expect("could not connect foo.output -> bar.input");
    graph
        .configure_port(Direction::Input, node1, input, mono())
        .expect("could not reconfigure bar.input as mono");
    graph
        .connect((node0, output), (node1, input))
        .expect_err("connected nodes with invalid configurations");
}

#[test]
fn graph_error_variants() {
    let mut graph = Graph::new();
    let a = graph.add_node("a").unwrap();
    let b = graph.add_node("b").unwrap();
    let out_a = graph.add_port(Direction::Output, a, "out").unwrap();
    let in_b = graph.add_port(Direction::Input, b, "in").unwrap();

    // names longer than 32 bytes are refused
    assert_eq!(
        graph.add_node("a-name-that-is-far-too-long-to-fit-the-label"),
        Err(Error::StringCapacityError)
    );
    assert_eq!(
        graph.add_port(Direction::Input, b, "a-port-name-that-is-far-too-long-to-fit"),
        Err(Error::StringCapacityError)
    );
    // missing endpoints
    assert_eq!(
        graph.add_port(Direction::Input, NodeHandle(12345), "x"),
        Err(Error::NodeDoesNotExist)
    );
    assert_eq!(graph.node_name(NodeHandle(12345)), Err(Error::NodeDoesNotExist));
    assert_eq!(
        graph.port_name(Direction::Output, a, in_b),
        Err(Error::PortDoesNotExist)
    );
    // a connection must run output -> input
    assert_eq!(
        graph.connect((a, in_b), (b, out_a)),
        Err(Error::PortDoesNotExist)
    );
    // self loops are invalid
    let in_a = graph.add_port(Direction::Input, a, "in").unwrap();
    assert_eq!(graph.connect((a, out_a), (a, in_a)), Err(Error::InvalidConnection));
    // a double connect reports ConnectionAlreadyExists
    graph.connect((a, out_a), (b, in_b)).unwrap();
    assert_eq!(
        graph.connect((a, out_a), (b, in_b)),
        Err(Error::ConnectionAlreadyExists)
    );
    // a double disconnect reports ConnectionDoesNotExist
    graph.disconnect((a, out_a), (b, in_b)).unwrap();
    assert_eq!(
        graph.disconnect((a, out_a), (b, in_b)),
        Err(Error::ConnectionDoesNotExist)
    );
    // mismatched configurations cannot hold an edge, so disconnecting
    // across them is a missing connection, not a type error
    graph.configure_port(Direction::Output, a, out_a, stereo()).unwrap();
    assert_eq!(
        graph.disconnect((a, out_a), (b, in_b)),
        Err(Error::ConnectionDoesNotExist)
    );
}

#[test]
fn cycle_rejection_leaves_graph_unchanged() {
    // a 3-node chain; closing it into a cycle must fail and change nothing
    let mut graph = Graph::new();
    let a = graph.add_node("a").unwrap();
    let b = graph.add_node("b").unwrap();
    let c = graph.add_node("c").unwrap();
    let out_a = graph.add_port(Direction::Output, a, "out").unwrap();
    let in_b = graph.add_port(Direction::Input, b, "in").unwrap();
    let out_b = graph.add_port(Direction::Output, b, "out").unwrap();
    let in_c = graph.add_port(Direction::Input, c, "in").unwrap();
    let out_c = graph.add_port(Direction::Output, c, "out").unwrap();
    let in_a = graph.add_port(Direction::Input, a, "in").unwrap();
    graph.connect((a, out_a), (b, in_b)).unwrap();
    graph.connect((b, out_b), (c, in_c)).unwrap();

    let deps_before: Vec<_> = [a, b, c]
        .iter()
        .map(|n| (graph.deps_of(n.0), graph.dependents_of(n.0)))
        .collect();
    assert_eq!(graph.connect((c, out_c), (a, in_a)), Err(Error::InvalidConnection));
    let deps_after: Vec<_> = [a, b, c]
        .iter()
        .map(|n| (graph.deps_of(n.0), graph.dependents_of(n.0)))
        .collect();
    assert_eq!(deps_before, deps_after);

    // the legal direction down the chain is a parallel path, not a cycle
    graph.connect((a, out_a), (c, in_c)).unwrap();
}

#[test]
fn reconfigure_invalidates_edges() {
    // a stereo connection; reconfiguring the input strips every incident
    // edge and later stereo-to-mono connects are type errors
    let mut graph = Graph::new();
    let a = graph.add_node("a").unwrap();
    let b = graph.add_node("b").unwrap();
    let out_a = graph.add_port(Direction::Output, a, "out").unwrap();
    let in_b = graph.add_port(Direction::Input, b, "in").unwrap();
    graph.configure_port(Direction::Output, a, out_a, stereo()).unwrap();
    graph.configure_port(Direction::Input, b, in_b, stereo()).unwrap();
    graph.connect((a, out_a), (b, in_b)).unwrap();
    assert_eq!(graph.deps_of(b.0).len(), 1);

    graph.configure_port(Direction::Input, b, in_b, mono()).unwrap();
    assert_eq!(graph.deps_of(b.0).len(), 0);
    assert_eq!(graph.dependents_of(a.0).len(), 0);
    assert_eq!(graph.connect((a, out_a), (b, in_b)), Err(Error::PortConfigError));
}

#[test]
fn deleting_a_node_prunes_both_sides() {
    let mut graph = Graph::new();
    let a = graph.add_node("a").unwrap();
    let b = graph.add_node("b").unwrap();
    let c = graph.add_node("c").unwrap();
    let out_a = graph.add_port(Direction::Output, a, "out").unwrap();
    let in_b = graph.add_port(Direction::Input, b, "in").unwrap();
    let out_b = graph.add_port(Direction::Output, b, "out").unwrap();
    let in_c = graph.add_port(Direction::Input, c, "in").unwrap();
    graph.connect((a, out_a), (b, in_b)).unwrap();
    graph.connect((b, out_b), (c, in_c)).unwrap();

    graph.del_node(b).unwrap();
    assert_eq!(graph.dependents_of(a.0).len(), 0);
    assert_eq!(graph.deps_of(c.0).len(), 0);
}

#[test]
fn queries_report_names_and_ports() {
    let mut graph = Graph::new();
    let a = graph.add_node("alpha").unwrap();
    let p = graph.add_port(Direction::Input, a, "left").unwrap();
    let q = graph.add_port(Direction::Input, a, "right").unwrap();
    assert_eq!(graph.node_name(a).unwrap(), "alpha");
    assert_eq!(graph.port_name(Direction::Input, a, p).unwrap(), "left");
    let ins = graph.list_inputs(a).unwrap();
    assert_eq!(ins.len(), 2);
    assert_eq!(ins[0], p);
    assert_eq!(ins[1], q);
    assert_eq!(graph.list_outputs(a).unwrap().len(), 0);
}

#[test]
fn hashed_identities_are_stable() {
    // ids derive from names alone, so equal names collide by design
    let h1 = signal_graph::graph::hash_str("node-0");
    let h2 = signal_graph::graph::hash_str("node-0");
    let h3 = signal_graph::graph::hash_str("node-1");
    assert_eq!(h1, h2);
    assert_ne!(h1, h3);
}

#[test]
fn custom_configurations_type_ports() {
    let quad = custom_config(4, "quad").expect("tag fits");
    assert_eq!(quad.count(), 4);
    assert_eq!(quad.description(), "quad");
    assert!(custom_config(0, "quad").is_none());
    assert!(custom_config(2, "a-tag-that-is-much-too-long-to-fit-32-bytes").is_none());

    let mut graph = Graph::new();
    let a = graph.add_node("a").unwrap();
    let p = graph.add_port(Direction::Input, a, "in").unwrap();
    graph.configure_port(Direction::Input, a, p, quad).unwrap();
}

#[test]
fn entry_bindings_are_found_by_name() {
    let bindings = vec![(hash_str("left"), 3usize), (hash_str("right"), 5usize)];
    assert_eq!(get_input(&bindings, "left"), Some(3));
    assert_eq!(get_output(&bindings, "right"), Some(5));
    assert_eq!(get_input(&bindings, "center"), None);
}
