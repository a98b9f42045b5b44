//! End-to-end runs of the compiled plan: pass-through, summing, latency
//! compensation, capacity errors and determinism.

use std::collections::HashMap;

use signal_graph::buffer::DelBuffer;
use signal_graph::config::mono;
use signal_graph::graph::{Direction, Error, Graph, NodeHandle};
use signal_graph::sample::Sample;
use signal_graph::schedule::{BlockProcessor, PlaybackContext, Schedule};

/// A float sample: mixing is addition, silence is zero.
#[derive(Clone, Copy, Debug, PartialEq)]
struct F(f32);

impl Sample for F {
    fn spec_silence() -> F {
        F(0.0)
    }
    fn spec_mix(self, other: F) -> F {
        F(self.0 + other.0)
    }
    fn silence() -> F {
        F(0.0)
    }
    fn mix(self, other: F) -> F {
        F(self.0 + other.0)
    }
}

#[test]
fn passthrough_single_node() {
    // one node producing a sine; the block that comes out equals it exactly
    let mut graph = Graph::new();
    let root = graph.add_node("root").unwrap();
    let _out = graph.add_port(Direction::Output, root, "out").unwrap();
    let latency: HashMap<u64, u64> = HashMap::new();
    let mut schedule: Schedule<F> = graph.reschedule(root, &latency, 1024).unwrap();
    assert_eq!(schedule.last_node(), root.0);

    let sine: Vec<F> = (0..1024)
        .map(|i| F((2.0 * std::f32::consts::PI * 440.0 * (i as f32) / 48000.0).sin()))
        .collect();
    assert!(schedule.set_processor(root.0, BlockProcessor::Source(sine.clone())));

    let mut ctx: PlaybackContext<F> = PlaybackContext::new(1024, 48000, 1);
    schedule.eval(&mut ctx);
    for i in 0..1024 {
        assert_eq!(ctx.sample(0, i), sine[i]);
    }
}

#[test]
fn three_sources_sum() {
    // three constant producers into one consumer input: the consumer reads
    // the float-exact mix
    let mut graph = Graph::new();
    let mix = graph.add_node("mix").unwrap();
    let mix_in = graph.add_port(Direction::Input, mix, "in").unwrap();
    let _mix_out = graph.add_port(Direction::Output, mix, "out").unwrap();
    let mut sources = Vec::new();
    for name in ["s1", "s2", "s3"] {
        let s = graph.add_node(name).unwrap();
        let s_out = graph.add_port(Direction::Output, s, "out").unwrap();
        graph.connect((s, s_out), (mix, mix_in)).unwrap();
        sources.push(s);
    }
    let latency: HashMap<u64, u64> = HashMap::new();
    let mut schedule: Schedule<F> = graph.reschedule(mix, &latency, 1024).unwrap();
    for s in &sources {
        assert!(schedule.set_processor(s.0, BlockProcessor::Source(vec![F(0.25); 1024])));
    }
    assert!(schedule.set_processor(mix.0, BlockProcessor::Copy));

    let mut ctx: PlaybackContext<F> = PlaybackContext::new(1024, 48000, 1);
    schedule.eval(&mut ctx);
    for i in 0..1024 {
        assert_eq!(ctx.sample(0, i), F(0.75));
    }
}

#[test]
fn delay_alignment_compensates_shorter_path() {
    // source -> a (latency 128) -> sink and source -> b (latency 0) -> sink:
    // the scheduler delays the b path by 128, so an impulse arrives
    // doubled at frame 128
    let mut graph = Graph::new();
    let src = graph.add_node("src").unwrap();
    let src_out = graph.add_port(Direction::Output, src, "out").unwrap();
    let a = graph.add_node("a").unwrap();
    let a_in = graph.add_port(Direction::Input, a, "in").unwrap();
    let a_out = graph.add_port(Direction::Output, a, "out").unwrap();
    let b = graph.add_node("b").unwrap();
    let b_in = graph.add_port(Direction::Input, b, "in").unwrap();
    let b_out = graph.add_port(Direction::Output, b, "out").unwrap();
    let sink = graph.add_node("sink").unwrap();
    let sink_in = graph.add_port(Direction::Input, sink, "in").unwrap();
    let _sink_out = graph.add_port(Direction::Output, sink, "out").unwrap();
    graph.connect((src, src_out), (a, a_in)).unwrap();
    graph.connect((src, src_out), (b, b_in)).unwrap();
    graph.connect((a, a_out), (sink, sink_in)).unwrap();
    graph.connect((b, b_out), (sink, sink_in)).unwrap();

    let mut latency: HashMap<u64, u64> = HashMap::new();
    latency.insert(a.0, 128);
    latency.insert(b.0, 0);
    let mut schedule: Schedule<F> = graph.reschedule(sink, &latency, 1024).unwrap();

    let mut impulse = vec![F(0.0); 1024];
    impulse[0] = F(1.0);
    assert!(schedule.set_processor(src.0, BlockProcessor::Source(impulse)));
    // node a really does lag by its declared latency
    assert!(schedule.set_processor(a.0, BlockProcessor::Delay(DelBuffer::new(mono(), 1024, 128))));
    assert!(schedule.set_processor(b.0, BlockProcessor::Copy));
    assert!(schedule.set_processor(sink.0, BlockProcessor::Copy));

    let mut ctx: PlaybackContext<F> = PlaybackContext::new(1024, 48000, 1);
    schedule.eval(&mut ctx);
    for i in 0..1024 {
        let expected = if i == 128 { F(2.0) } else { F(0.0) };
        assert_eq!(ctx.sample(0, i), expected, "frame {}", i);
    }
}

#[test]
fn compensation_beyond_line_capacity_is_an_error() {
    // a latency gap wider than the delay line is a compile-time error
    let mut graph = Graph::new();
    let src = graph.add_node("src").unwrap();
    let src_out = graph.add_port(Direction::Output, src, "out").unwrap();
    let a = graph.add_node("a").unwrap();
    let a_in = graph.add_port(Direction::Input, a, "in").unwrap();
    let a_out = graph.add_port(Direction::Output, a, "out").unwrap();
    let sink = graph.add_node("sink").unwrap();
    let sink_in = graph.add_port(Direction::Input, sink, "in").unwrap();
    graph.connect((src, src_out), (a, a_in)).unwrap();
    graph.connect((src, src_out), (sink, sink_in)).unwrap();
    graph.connect((a, a_out), (sink, sink_in)).unwrap();

    let mut latency: HashMap<u64, u64> = HashMap::new();
    latency.insert(a.0, 5000);
    let r: Result<Schedule<i64>, Error> = graph.reschedule(sink, &latency, 256);
    assert_eq!(r.err().unwrap(), Error::DelayExceedsCapacity);
}

#[test]
fn missing_root_is_an_error() {
    let graph = Graph::new();
    let latency: HashMap<u64, u64> = HashMap::new();
    let r: Result<Schedule<i64>, Error> = graph.reschedule(NodeHandle(7), &latency, 64);
    assert_eq!(r.err().unwrap(), Error::NodeDoesNotExist);
}

#[test]
fn equal_inputs_give_bit_identical_output() {
    // the same graph, latencies and source data, compiled and run twice,
    // produce the same block bit for bit
    let mut outputs: Vec<Vec<i64>> = Vec::new();
    for _ in 0..2 {
        let mut graph = Graph::new();
        let mix = graph.add_node("mix").unwrap();
        let mix_in = graph.add_port(Direction::Input, mix, "in").unwrap();
        let _mix_out = graph.add_port(Direction::Output, mix, "out").unwrap();
        let s = graph.add_node("s").unwrap();
        let s_out = graph.add_port(Direction::Output, s, "out").unwrap();
        graph.connect((s, s_out), (mix, mix_in)).unwrap();
        let latency: HashMap<u64, u64> = HashMap::new();
        let mut schedule: Schedule<i64> = graph.reschedule(mix, &latency, 256).unwrap();
        let data: Vec<i64> = (0..256).map(|i| (i * i % 1000) as i64).collect();
        assert!(schedule.set_processor(s.0, BlockProcessor::Source(data)));
        assert!(schedule.set_processor(mix.0, BlockProcessor::Copy));
        let mut ctx: PlaybackContext<i64> = PlaybackContext::new(256, 48000, 1);
        schedule.eval(&mut ctx);
        outputs.push(ctx.data().clone());
    }
    assert_eq!(outputs[0], outputs[1]);
}

#[test]
fn extra_host_channels_are_silence() {
    // a mono root copied into a stereo host block: the second channel is
    // zero-filled
    let mut graph = Graph::new();
    let root = graph.add_node("root").unwrap();
    let _out = graph.add_port(Direction::Output, root, "out").unwrap();
    let latency: HashMap<u64, u64> = HashMap::new();
    let mut schedule: Schedule<i64> = graph.reschedule(root, &latency, 16).unwrap();
    assert!(schedule.set_processor(root.0, BlockProcessor::Source(vec![5; 16])));
    let mut ctx: PlaybackContext<i64> = PlaybackContext::new(16, 44100, 2);
    schedule.eval(&mut ctx);
    for i in 0..16 {
        assert_eq!(ctx.sample(0, i), 5);
        assert_eq!(ctx.sample(1, i), 0);
    }
}
