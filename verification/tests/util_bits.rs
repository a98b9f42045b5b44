//! Utilities: planar/interleaved conversion round trips, the shared flag,
//! and the node description builder.

use signal_graph::node_builder::{node, PortKind};
use signal_graph::util::{deinterleave, interleave, Flag};

#[test]
fn interleave_matches_layout() {
    // planar [l0 l1 l2, r0 r1 r2] -> interleaved [l0 r0 l1 r1 l2 r2]
    let input: Vec<i64> = vec![10, 11, 12, 20, 21, 22];
    let mut output: Vec<i64> = vec![0; 6];
    interleave(&input, &mut output, 2);
    assert_eq!(output, vec![10, 20, 11, 21, 12, 22]);
}

#[test]
fn deinterleave_matches_layout() {
    let input: Vec<i64> = vec![10, 20, 11, 21, 12, 22];
    let mut output: Vec<i64> = vec![0; 6];
    deinterleave(&input, &mut output, 2);
    assert_eq!(output, vec![10, 11, 12, 20, 21, 22]);
}

#[test]
fn interleave_round_trip() {
    let planar: Vec<i64> = (0..24).collect();
    let mut wire: Vec<i64> = vec![0; 24];
    let mut back: Vec<i64> = vec![0; 24];
    interleave(&planar, &mut wire, 4);
    deinterleave(&wire, &mut back, 4);
    assert_eq!(planar, back);
}

#[test]
fn flag_set_and_reset() {
    let flag = Flag::new();
    assert!(!flag.is_set());
    flag.set();
    assert!(flag.is_set());
    let other = flag.clone();
    other.reset();
    assert!(!flag.is_set());
}

#[test]
fn builder_collects_ports() {
    let n = node()
        .audio_input("in-l")
        .audio_input("in-r")
        .event_input("events")
        .audio_output("out")
        .event_output("meters")
        .build("gain");
    assert_eq!(&**n.name, "gain");
    assert_eq!(n.inputs.len(), 3);
    assert_eq!(n.outputs.len(), 2);
    assert_eq!(n.inputs[0].name, "in-l");
    assert!(matches!(n.inputs[2].kind, PortKind::Event));
    assert!(matches!(n.outputs[0].kind, PortKind::Audio));
}
