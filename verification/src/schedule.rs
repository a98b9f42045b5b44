//! The compiled execution plan. The scheduler walks the graph from a root
//! in topological order, propagates latency along the edges, assigns a
//! buffer to every connected port (a summing buffer where several edges
//! meet an input, a shared simple buffer where one producer feeds one
//! consumer) and realizes each latency compensation requirement as an
//! inserted delay stage. The executor drives the plan once per audio
//! block: it runs each entry's processor, prepares the touched buffers,
//! and copies the root's first output into the caller's block.

use vstd::prelude::*;

use crate::config::{ChannelConfiguration, Error as BufferError};
use crate::buffer::{
    DelBuffer, RefBuffer, SimpleBuffer, SumBuffer, delayed_channel, mixed_seq, shifted_line,
    silent_seq, MAX_DELAY_SIZE,
};
use crate::graph::{Direction, Edge, Error, Graph, NodeHandle, PortHandle, graph_wf, has_port};
use crate::sample::Sample;

verus! {

use std::collections::HashMap;

broadcast use vstd::std_specs::hash::group_hash_axioms;

/// One buffer of a schedule: simple storage or a summing accumulator.
/// Delay lines do not appear here; they live inside delay stages.
pub enum GraphBuffer<S: Sample> {
    /// Plain storage, shared between one producer and its consumers.
    Simple(SimpleBuffer<S>),
    /// A summing buffer: several producers write, the consumer reads the
    /// mix.
    Sum(SumBuffer<S>),
}

impl<S: Sample> GraphBuffer<S> {
    /// Structural soundness of the underlying buffer.
    pub open spec fn wf(&self) -> bool {
        match self {
            GraphBuffer::Simple(b) => b.wf(),
            GraphBuffer::Sum(b) => b.wf(),
        }
    }

    /// Channels of the underlying buffer.
    pub open spec fn spec_count(&self) -> usize {
        match self {
            GraphBuffer::Simple(b) => b.cfg().spec_count(),
            GraphBuffer::Sum(b) => b.cfg().spec_count(),
        }
    }

    /// Frames per block.
    pub open spec fn spec_frames(&self) -> usize {
        match self {
            GraphBuffer::Simple(b) => b.spec_frames(),
            GraphBuffer::Sum(b) => b.spec_frames(),
        }
    }

    /// What a reader of channel `c` sees (the accumulator for a summing
    /// buffer).
    pub open spec fn chan(&self, c: int) -> Seq<S> {
        match self {
            GraphBuffer::Simple(b) => b.channel(c),
            GraphBuffer::Sum(b) => b.acc_channel(c),
        }
    }

    /// What a writer of channel `c` fills (the scratch for a summing
    /// buffer; the storage itself for a simple one).
    pub open spec fn scratch_chan(&self, c: int) -> Seq<S> {
        match self {
            GraphBuffer::Simple(b) => b.channel(c),
            GraphBuffer::Sum(b) => b.scratch_channel(c),
        }
    }

    /// Whether this is a summing buffer (readers see an accumulator that
    /// writers do not touch directly).
    pub open spec fn is_summing(&self) -> bool {
        self is Sum
    }

    /// Number of channels.
    pub fn count(&self) -> (r: usize)
        ensures
            r == self.spec_count(),
    {
        match self {
            GraphBuffer::Simple(b) => b.get_channel_config().count(),
            GraphBuffer::Sum(b) => b.get_channel_config().count(),
        }
    }

    /// Frames per block.
    pub fn num_samples(&self) -> (r: usize)
        ensures
            r == self.spec_frames(),
    {
        match self {
            GraphBuffer::Simple(b) => b.num_samples(),
            GraphBuffer::Sum(b) => b.num_samples(),
        }
    }

    /// Read-only view of what a consumer sees on one channel.
    pub fn read_channel(&self, c: usize) -> (r: Result<&[S], BufferError>)
        requires
            self.wf(),
        ensures
            c < self.spec_count() ==> (r matches Ok(s) && s@ == self.chan(c as int) && s@.len()
                == self.spec_frames()),
            c >= self.spec_count() ==> r is Err,
    {
        match self {
            GraphBuffer::Simple(b) => b.get_channel(c),
            GraphBuffer::Sum(b) => b.get_channel(c),
        }
    }

    /// Overwrite one writable channel (the scratch for a summing buffer).
    pub fn write_channel(&mut self, c: usize, data: &[S]) -> (r: Result<(), BufferError>)
        requires
            old(self).wf(),
            data@.len() == old(self).spec_frames(),
        ensures
            final(self).wf(),
            final(self).spec_count() == old(self).spec_count(),
            final(self).spec_frames() == old(self).spec_frames(),
            final(self).is_summing() == old(self).is_summing(),
            c < old(self).spec_count() ==> r is Ok && final(self).scratch_chan(c as int) == data@
                && (forall|d: int|
                0 <= d < old(self).spec_count() && d != c ==> final(self).scratch_chan(d) == old(
                    self,
                ).scratch_chan(d)) && (forall|d: int|
                0 <= d < old(self).spec_count() ==> final(self).chan(d) == (if old(
                    self,
                ).is_summing() || d != c {
                    old(self).chan(d)
                } else {
                    data@
                })),
            c >= old(self).spec_count() ==> r == Result::<(), BufferError>::Err(
                BufferError::InvalidChannel(c),
            ) && *final(self) == *old(self),
    {
        match self {
            GraphBuffer::Simple(b) => b.write_channel(c, data),
            GraphBuffer::Sum(b) => b.write_channel(c, data),
        }
    }

    /// Between-block work: fold the scratch into the accumulator for a
    /// summing buffer; nothing for a simple one.
    pub fn prepare(&mut self)
        requires
            old(self).wf(),
        ensures
            final(self).wf(),
            final(self).spec_count() == old(self).spec_count(),
            final(self).spec_frames() == old(self).spec_frames(),
            final(self).is_summing() == old(self).is_summing(),
            !old(self).is_summing() ==> *final(self) == *old(self),
            old(self).is_summing() ==> (forall|d: int|
                0 <= d < old(self).spec_count() ==> final(self).chan(d) == mixed_seq(
                    old(self).chan(d),
                    old(self).scratch_chan(d),
                )),
            old(self).is_summing() ==> (forall|d: int|
                0 <= d < old(self).spec_count() ==> final(self).scratch_chan(d) == silent_seq::<
                    S,
                >(old(self).spec_frames() as nat)),
    {
        match self {
            GraphBuffer::Simple(b) => b.prepare(),
            GraphBuffer::Sum(b) => b.prepare(),
        }
    }

    /// Zero the writable region; a summing buffer's accumulated history
    /// is preserved.
    pub fn clear(&mut self)
        requires
            old(self).wf(),
        ensures
            final(self).wf(),
            final(self).spec_count() == old(self).spec_count(),
            final(self).spec_frames() == old(self).spec_frames(),
            final(self).is_summing() == old(self).is_summing(),
            forall|d: int|
                0 <= d < old(self).spec_count() ==> final(self).scratch_chan(d) == silent_seq::<
                    S,
                >(old(self).spec_frames() as nat),
            forall|d: int|
                0 <= d < old(self).spec_count() ==> final(self).chan(d) == (if old(
                    self,
                ).is_summing() {
                    old(self).chan(d)
                } else {
                    silent_seq::<S>(old(self).spec_frames() as nat)
                }),
    {
        match self {
            GraphBuffer::Simple(b) => b.clear(),
            GraphBuffer::Sum(b) => b.clear(),
        }
    }
}

/// The block the audio driver hands to a callback, in planar layout:
/// channel `c` occupies `c * buffer_size .. (c + 1) * buffer_size` of the
/// region. The embedding deinterleaves into this and interleaves out of
/// it.
pub struct PlaybackContext<S: Sample> {
    buffer_size: usize,
    sample_rate: u32,
    num_channels: usize,
    output: Vec<S>,
}

impl<S: Sample> PlaybackContext<S> {
    /// Structural soundness: one block per channel.
    pub closed spec fn wf(&self) -> bool {
        self.output@.len() == self.num_channels * self.buffer_size
    }

    /// Frames per block.
    pub closed spec fn spec_frames(&self) -> usize {
        self.buffer_size
    }

    /// Channel count of the block.
    pub closed spec fn spec_channels(&self) -> usize {
        self.num_channels
    }

    /// The sample rate of the stream.
    pub closed spec fn spec_rate(&self) -> u32 {
        self.sample_rate
    }

    /// The samples of channel `c`.
    pub closed spec fn chan(&self, c: int) -> Seq<S> {
        self.output@.subrange(c * self.buffer_size, c * self.buffer_size + self.buffer_size)
    }

    /// The whole planar region.
    pub closed spec fn flat(&self) -> Seq<S> {
        self.output@
    }

    /// A silent block for one callback.
    pub fn new(buffer_size: usize, sample_rate: u32, num_channels: usize) -> (r: PlaybackContext<
        S,
    >)
        requires
            num_channels * buffer_size <= usize::MAX,
        ensures
            r.wf(),
            r.spec_frames() == buffer_size,
            r.spec_channels() == num_channels,
            r.spec_rate() == sample_rate,
            forall|c: int|
                0 <= c < num_channels ==> r.chan(c) == silent_seq::<S>(buffer_size as nat),
    {
        let n: usize = num_channels * buffer_size;
        let output: Vec<S> = crate::sample::silence_vec(n);
        let r = PlaybackContext { buffer_size, sample_rate, num_channels, output };
        proof {
            assert forall|c: int| 0 <= c < num_channels implies r.chan(c) == silent_seq::<S>(
                buffer_size as nat,
            ) by {
                crate::buffer::lemma_channel_bounds(num_channels as int, buffer_size as int, c);
                assert(r.chan(c) =~= silent_seq::<S>(buffer_size as nat));
            }
        }
        r
    }

    /// Frames per block.
    pub fn frames(&self) -> (r: usize)
        ensures
            r == self.spec_frames(),
    {
        self.buffer_size
    }

    /// Channel count.
    pub fn channels(&self) -> (r: usize)
        ensures
            r == self.spec_channels(),
    {
        self.num_channels
    }

    /// Sample rate.
    pub fn rate(&self) -> (r: u32)
        ensures
            r == self.spec_rate(),
    {
        self.sample_rate
    }

    /// The length of every channel view is the block length.
    pub proof fn lemma_chan_len(&self, c: int)
        requires
            self.wf(),
            0 <= c < self.spec_channels(),
        ensures
            self.chan(c).len() == self.spec_frames(),
    {
        crate::buffer::lemma_channel_bounds(
            self.num_channels as int,
            self.buffer_size as int,
            c,
        );
    }

    /// One sample of the block.
    pub fn sample(&self, c: usize, i: usize) -> (r: S)
        requires
            self.wf(),
            c < self.spec_channels(),
            i < self.spec_frames(),
        ensures
            r == self.chan(c as int)[i as int],
    {
        let total: usize = self.output.len();
        proof {
            crate::buffer::lemma_channel_bounds(
                self.num_channels as int,
                self.buffer_size as int,
                c as int,
            );
            assert(c * self.buffer_size + i < total);
        }
        self.output[c * self.buffer_size + i]
    }

    /// Store one sample of the block.
    pub fn store(&mut self, c: usize, i: usize, v: S)
        requires
            old(self).wf(),
            c < old(self).spec_channels(),
            i < old(self).spec_frames(),
        ensures
            final(self).wf(),
            final(self).spec_channels() == old(self).spec_channels(),
            final(self).spec_frames() == old(self).spec_frames(),
            final(self).spec_rate() == old(self).spec_rate(),
            final(self).chan(c as int) == old(self).chan(c as int).update(i as int, v),
            forall|d: int|
                0 <= d < old(self).spec_channels() && d != c ==> final(self).chan(d) == old(self).chan(d),
    {
        let total: usize = self.output.len();
        proof {
            crate::buffer::lemma_channel_bounds(
                self.num_channels as int,
                self.buffer_size as int,
                c as int,
            );
            assert(c * self.buffer_size + i < total);
        }
        self.output[c * self.buffer_size + i] = v;
        proof {
            crate::buffer::lemma_planar_updates(
                old(self).output@,
                self.output@,
                self.num_channels as int,
                self.buffer_size as int,
                c as int,
            );
            assert(self.chan(c as int) =~= old(self).chan(c as int).update(i as int, v));
        }
    }

    /// The whole planar block.
    pub fn data(&self) -> (r: &Vec<S>)
        ensures
            r@ == self.flat(),
    {
        &self.output
    }

    /// Wrap the block in a reference buffer typed by the channel count:
    /// the buffer's storage is this block's planar region, channel by
    /// channel. Consumes the context; fails only when the channel count
    /// is zero (the region always holds exactly `channels * frames`
    /// samples here, so no other shortage can arise).
    pub fn get_buffer(self) -> (r: Result<RefBuffer<S>, BufferError>)
        requires
            self.wf(),
        ensures
            self.spec_channels() >= 1 ==> r is Ok,
            self.spec_channels() == 0 ==> r == Result::<RefBuffer<S>, BufferError>::Err(
                BufferError::StorageRequired,
            ),
            r matches Ok(b) ==> b.wf() && b.cfg().spec_count() == self.spec_channels()
                && b.spec_frames() == self.spec_frames() && b.storage() == self.flat() && (forall|
                c: int,
            |
                0 <= c < self.spec_channels() ==> b.channel(c) == self.chan(c)),
            r matches Ok(b) ==> b.cfg().spec_tag() == (if self.spec_channels() == 1 {
                "mono"@
            } else if self.spec_channels() == 2 {
                "stereo"@
            } else {
                "multi-mono"@
            }),
    {
        if self.num_channels == 0 {
            return Err(BufferError::StorageRequired);
        }
        let total: usize = self.output.len();
        proof {
            assert(self.num_channels * self.buffer_size <= usize::MAX);
            vstd::arithmetic::div_mod::lemma_div_multiples_vanish(
                self.buffer_size as int,
                self.num_channels as int,
            );
            assert((self.num_channels * self.buffer_size) as int / self.num_channels as int
                == self.buffer_size as int);
        }
        let config = if self.num_channels == 1 {
            crate::config::mono()
        } else if self.num_channels == 2 {
            crate::config::stereo()
        } else {
            crate::config::multi_mono(self.num_channels)
        };
        let ghost me = self;
        let r = RefBuffer::new(config, self.buffer_size, self.output);
        proof {
            if r is Ok {
                let b = r->Ok_0;
                assert(b.spec_frames() == me.spec_frames());
                assert forall|c: int| 0 <= c < me.spec_channels() implies b.channel(c) == me.chan(
                    c,
                ) by {
                    crate::buffer::lemma_ref_channel_in_storage(&b, c);
                }
            }
        }
        r
    }
}

/// A block padded with silence to the given length.
pub open spec fn padded_block<S: Sample>(data: Seq<S>, frames: nat) -> Seq<S> {
    Seq::new(
        frames,
        |i: int|
            if i < data.len() {
                data[i]
            } else {
                S::spec_silence()
            },
    )
}

/// Whether some binding of the list names buffer index `i`.
pub open spec fn binds(io: Seq<(u64, usize)>, i: int) -> bool {
    exists|k: int| 0 <= k < io.len() && (#[trigger] io[k]).1 == i
}

/// A buffer whose every writable channel was overwritten with `block`
/// (readers of a summing buffer still see the old accumulator).
pub open spec fn buf_filled<S: Sample>(a: GraphBuffer<S>, b: GraphBuffer<S>, block: Seq<S>) -> bool {
    &&& b.spec_count() == a.spec_count()
    &&& b.spec_frames() == a.spec_frames()
    &&& b.is_summing() == a.is_summing()
    &&& (forall|c: int| 0 <= c < a.spec_count() ==> #[trigger] b.scratch_chan(c) == block)
    &&& (forall|c: int|
        0 <= c < a.spec_count() ==> #[trigger] b.chan(c) == (if a.is_summing() {
            a.chan(c)
        } else {
            block
        }))
}

/// A buffer whose writable channels were overwritten with what a reader
/// of `src` saw, channel by channel, silence past `src`'s channel count.
pub open spec fn buf_copied<S: Sample>(
    a: GraphBuffer<S>,
    b: GraphBuffer<S>,
    src: GraphBuffer<S>,
) -> bool {
    &&& b.spec_count() == a.spec_count()
    &&& b.spec_frames() == a.spec_frames()
    &&& b.is_summing() == a.is_summing()
    &&& (forall|c: int|
        0 <= c < a.spec_count() ==> #[trigger] b.scratch_chan(c) == copy_block(
            src,
            c,
            a.spec_frames(),
        ))
    &&& (forall|c: int|
        0 <= c < a.spec_count() ==> #[trigger] b.chan(c) == (if a.is_summing() {
            a.chan(c)
        } else {
            copy_block(src, c, a.spec_frames())
        }))
}

/// What a copier hands to destination channel `c`: the source's readable
/// channel, or silence where the source has no such channel.
pub open spec fn copy_block<S: Sample>(src: GraphBuffer<S>, c: int, frames: usize) -> Seq<S> {
    if c < src.spec_count() {
        src.chan(c)
    } else {
        silent_seq::<S>(frames as nat)
    }
}

/// What a delay stage ingests on line channel `c`: the source's readable
/// channel where it has one, the stage's old scratch otherwise.
pub open spec fn delay_ingest<S: Sample>(d: DelBuffer<S>, src: GraphBuffer<S>, c: int) -> Seq<S> {
    if c < src.spec_count() {
        src.chan(c)
    } else {
        d.scratch_channel(c)
    }
}

/// The effect of one processor run on the processor itself and the buffer
/// list, per variant. Each clause pins the result, so the relation is a
/// function of the pre-state at the level of the channel views.
pub open spec fn proc_step_rel<S: Sample>(
    p: BlockProcessor<S>,
    p2: BlockProcessor<S>,
    bs: Seq<GraphBuffer<S>>,
    bs2: Seq<GraphBuffer<S>>,
    ins: Seq<(u64, usize)>,
    outs: Seq<(u64, usize)>,
    frames: usize,
) -> bool {
    match p {
        BlockProcessor::Idle => p2 == p && bs2 == bs,
        BlockProcessor::Source(data) => p2 == p && bs2.len() == bs.len() && (forall|i: int|
            0 <= i < bs.len() ==> (if binds(outs, i) {
                buf_filled(bs[i], #[trigger] bs2[i], padded_block(data@, frames as nat))
            } else {
                bs2[i] == bs[i]
            })),
        BlockProcessor::Copy => p2 == p && (if ins.len() > 0 && outs.len() > 0 && (ins[0].1 as int)
            < bs.len() && (outs[0].1 as int) < bs.len() {
            bs2.len() == bs.len() && (forall|i: int|
                0 <= i < bs.len() && i != outs[0].1 as int ==> #[trigger] bs2[i] == bs[i])
                && buf_copied(bs[outs[0].1 as int], bs2[outs[0].1 as int], bs[ins[0].1 as int])
        } else {
            bs2 == bs
        }),
        BlockProcessor::Delay(d) => delay_step_rel(d, p2, bs, bs2, ins, outs),
    }
}

/// The effect of a delay stage: its line ingests the source block, turns
/// by one block, and the delayed block lands on the destination's
/// writable channels.
pub open spec fn delay_step_rel<S: Sample>(
    d: DelBuffer<S>,
    p2: BlockProcessor<S>,
    bs: Seq<GraphBuffer<S>>,
    bs2: Seq<GraphBuffer<S>>,
    ins: Seq<(u64, usize)>,
    outs: Seq<(u64, usize)>,
) -> bool {
    if ins.len() > 0 && outs.len() > 0 && (ins[0].1 as int) < bs.len() && (outs[0].1 as int)
        < bs.len() {
        let src = bs[ins[0].1 as int];
        let di = outs[0].1 as int;
        let dst = bs[di];
        match p2 {
            BlockProcessor::Delay(d2) => {
                &&& d2.wf()
                &&& d2.cfg() == d.cfg()
                &&& d2.spec_frames() == d.spec_frames()
                &&& d2.spec_delay() == d.spec_delay()
                &&& d2.spec_head() as int == (d.spec_head() + d.spec_frames()) % (
                MAX_DELAY_SIZE as int)
                &&& (forall|c: int|
                    0 <= c < d.cfg().spec_count() ==> #[trigger] d2.scratch_channel(c)
                        == delayed_channel(
                        delay_ingest(d, src, c),
                        d.line_channel(c),
                        d.spec_head() as int,
                        d.spec_delay() as int,
                    ))
                &&& (forall|c: int|
                    0 <= c < d.cfg().spec_count() ==> #[trigger] d2.line_channel(c)
                        == shifted_line(
                        delay_ingest(d, src, c),
                        d.line_channel(c),
                        d.spec_head() as int,
                        d.spec_delay() as int,
                    ))
                &&& bs2.len() == bs.len()
                &&& (forall|i: int| 0 <= i < bs.len() && i != di ==> #[trigger] bs2[i] == bs[i])
                &&& bs2[di].spec_count() == dst.spec_count()
                &&& bs2[di].spec_frames() == dst.spec_frames()
                &&& bs2[di].is_summing() == dst.is_summing()
                &&& (forall|c: int|
                    0 <= c < dst.spec_count() ==> #[trigger] bs2[di].scratch_chan(c)
                        == delay_out_block(d2, c, dst.spec_frames()))
                &&& (forall|c: int|
                    0 <= c < dst.spec_count() ==> #[trigger] bs2[di].chan(c) == (
                    if dst.is_summing() {
                        dst.chan(c)
                    } else {
                        delay_out_block(d2, c, dst.spec_frames())
                    }))
            },
            _ => false,
        }
    } else {
        p2 == BlockProcessor::Delay(d) && bs2 == bs
    }
}

/// What a delay stage hands to destination channel `c`: its delayed line
/// channel, or silence where the line has no such channel.
pub open spec fn delay_out_block<S: Sample>(d2: DelBuffer<S>, c: int, frames: usize) -> Seq<S> {
    if c < d2.cfg().spec_count() {
        d2.scratch_channel(c)
    } else {
        silent_seq::<S>(frames as nat)
    }
}

/// One buffer prepared in place, the rest untouched (out-of-range indices
/// touch nothing).
pub open spec fn one_prep_rel<S: Sample>(a: Seq<GraphBuffer<S>>, b: Seq<GraphBuffer<S>>, i: int) -> bool {
    if 0 <= i < a.len() {
        b.len() == a.len() && (forall|j: int| 0 <= j < a.len() && j != i ==> #[trigger] b[j] == a[j])
            && prepared_rel(a[i], b[i])
    } else {
        b == a
    }
}

/// The prepared view of one buffer: a summing buffer folds its scratch
/// into the accumulator and silences the scratch; a simple buffer is
/// untouched.
pub open spec fn prepared_rel<S: Sample>(a: GraphBuffer<S>, b: GraphBuffer<S>) -> bool {
    if a.is_summing() {
        &&& b.spec_count() == a.spec_count()
        &&& b.spec_frames() == a.spec_frames()
        &&& b.is_summing()
        &&& (forall|c: int|
            0 <= c < a.spec_count() ==> #[trigger] b.chan(c) == mixed_seq(
                a.chan(c),
                a.scratch_chan(c),
            ))
        &&& (forall|c: int|
            0 <= c < a.spec_count() ==> #[trigger] b.scratch_chan(c) == silent_seq::<S>(
                a.spec_frames() as nat,
            ))
    } else {
        b == a
    }
}

/// The buffers after preparing each binding of `io` in list order.
pub open spec fn prep_list_rel<S: Sample>(
    bs: Seq<GraphBuffer<S>>,
    bs2: Seq<GraphBuffer<S>>,
    io: Seq<(u64, usize)>,
) -> bool
    decreases io.len(),
{
    if io.len() == 0 {
        bs2 == bs
    } else {
        exists|mid: Seq<GraphBuffer<S>>|
            prep_list_rel(bs, mid, io.drop_last()) && #[trigger] one_prep_rel(
                mid,
                bs2,
                io.last().1 as int,
            )
    }
}

/// One input binding handled: skipped when an output binding already
/// prepared its buffer, prepared in place otherwise.
pub open spec fn skip_or_prep<S: Sample>(
    mid: Seq<GraphBuffer<S>>,
    bs2: Seq<GraphBuffer<S>>,
    i: int,
    outs: Seq<(u64, usize)>,
) -> bool {
    if binds(outs, i) {
        bs2 == mid
    } else {
        one_prep_rel(mid, bs2, i)
    }
}

/// The buffers after preparing each input binding whose buffer was not
/// already prepared as an output, in list order.
pub open spec fn prep_skip_rel<S: Sample>(
    bs: Seq<GraphBuffer<S>>,
    bs2: Seq<GraphBuffer<S>>,
    ins: Seq<(u64, usize)>,
    outs: Seq<(u64, usize)>,
) -> bool
    decreases ins.len(),
{
    if ins.len() == 0 {
        bs2 == bs
    } else {
        exists|mid: Seq<GraphBuffer<S>>|
            prep_skip_rel(bs, mid, ins.drop_last(), outs) && #[trigger] skip_or_prep(
                mid,
                bs2,
                ins.last().1 as int,
                outs,
            )
    }
}

/// One schedule entry executed: its processor run over the buffers, then
/// its output bindings prepared in order, then its input bindings
/// prepared where not already covered by an output.
pub open spec fn entry_step_rel<S: Sample>(
    entry: ScheduleEntry,
    p: BlockProcessor<S>,
    p2: BlockProcessor<S>,
    bs: Seq<GraphBuffer<S>>,
    bs2: Seq<GraphBuffer<S>>,
    frames: usize,
) -> bool {
    exists|bmid: Seq<GraphBuffer<S>>, bmid2: Seq<GraphBuffer<S>>|
        #[trigger] proc_step_rel(p, p2, bs, bmid, entry.inputs@, entry.outputs@, frames)
            && #[trigger] prep_list_rel(bmid, bmid2, entry.outputs@) && prep_skip_rel(
            bmid2,
            bs2,
            entry.inputs@,
            entry.outputs@,
        )
}

/// The whole plan executed: entry after entry in order, each one stepping
/// its own processor and the buffers per `entry_step_rel`. Every step
/// relation pins its result at the level of the channel views (what each
/// buffer's readers and writers see).
pub open spec fn run_rel<S: Sample>(
    entries: Seq<ScheduleEntry>,
    ps: Seq<BlockProcessor<S>>,
    ps2: Seq<BlockProcessor<S>>,
    bs: Seq<GraphBuffer<S>>,
    bs2: Seq<GraphBuffer<S>>,
    frames: usize,
) -> bool
    decreases entries.len(),
{
    if entries.len() == 0 {
        ps2 == ps && bs2 == bs
    } else {
        exists|pmid: Seq<BlockProcessor<S>>, bmid: Seq<GraphBuffer<S>>|
            run_rel(entries.drop_last(), ps, pmid, bs, bmid, frames) && #[trigger] run_step_ok(
                entries,
                pmid,
                bmid,
                ps2,
                bs2,
                frames,
            )
    }
}

/// The final step of a run: the last entry's processor stepped, every
/// other processor untouched.
pub open spec fn run_step_ok<S: Sample>(
    entries: Seq<ScheduleEntry>,
    pmid: Seq<BlockProcessor<S>>,
    bmid: Seq<GraphBuffer<S>>,
    ps2: Seq<BlockProcessor<S>>,
    bs2: Seq<GraphBuffer<S>>,
    frames: usize,
) -> bool {
    &&& ps2.len() == pmid.len()
    &&& (entries.len() - 1 < pmid.len() ==> (forall|j: int|
        0 <= j < pmid.len() && j != entries.len() - 1 ==> #[trigger] ps2[j] == pmid[j])
        && entry_step_rel(
        entries.last(),
        pmid[entries.len() - 1],
        ps2[entries.len() - 1],
        bmid,
        bs2,
        frames,
    ))
    &&& (entries.len() - 1 >= pmid.len() ==> ps2 == pmid && bs2 == bmid)
}

/// One more entry executed extends a partial run.
proof fn lemma_run_rel_step<S: Sample>(
    entries: Seq<ScheduleEntry>,
    k: int,
    ps: Seq<BlockProcessor<S>>,
    pmid: Seq<BlockProcessor<S>>,
    ps2: Seq<BlockProcessor<S>>,
    bs: Seq<GraphBuffer<S>>,
    bmid: Seq<GraphBuffer<S>>,
    bs2: Seq<GraphBuffer<S>>,
    frames: usize,
)
    requires
        0 <= k < entries.len(),
        run_rel(entries.take(k), ps, pmid, bs, bmid, frames),
        ps2.len() == pmid.len(),
        k < pmid.len(),
        forall|j: int| 0 <= j < pmid.len() && j != k ==> ps2[j] == pmid[j],
        entry_step_rel(entries[k], pmid[k], ps2[k], bmid, bs2, frames),
    ensures
        run_rel(entries.take(k + 1), ps, ps2, bs, bs2, frames),
{
    let tk1 = entries.take(k + 1);
    assert(tk1.drop_last() =~= entries.take(k));
    assert(tk1.last() == entries[k]);
    assert(tk1.len() == k + 1);
    assert(run_rel(tk1.drop_last(), ps, pmid, bs, bmid, frames));
    assert(run_step_ok(tk1, pmid, bmid, ps2, bs2, frames));
    assert(run_rel(tk1, ps, ps2, bs, bs2, frames));
}

/// Buffers of a schedule: all sound, all sized to the block length.
pub open spec fn buffers_wf<S: Sample>(bs: Seq<GraphBuffer<S>>, frames: usize) -> bool {
    forall|i: int| 0 <= i < bs.len() ==> (#[trigger] bs[i]).wf() && bs[i].spec_frames() == frames
}

/// Channel counts preserved index by index.
pub open spec fn buffers_shape<S: Sample>(a: Seq<GraphBuffer<S>>, b: Seq<GraphBuffer<S>>) -> bool {
    b.len() == a.len() && (forall|i: int|
        0 <= i < a.len() ==> (#[trigger] b[i]).spec_count() == a[i].spec_count())
}

/// Every port-to-buffer binding points into the buffer list.
pub open spec fn io_valid(io: Seq<(u64, usize)>, n: int) -> bool {
    forall|i: int| 0 <= i < io.len() ==> (#[trigger] io[i]).1 < n
}

/// A block processor: what one schedule entry does to the buffers. The
/// closed set covers silence, a stored block source, a copier (also used
/// as the pass-through node body) and a scheduler-inserted delay stage
/// that realizes latency compensation.
pub enum BlockProcessor<S: Sample> {
    /// Does nothing; the default body of a node without a supplied
    /// processor.
    Idle,
    /// Writes its stored block (padded with silence) to every channel of
    /// every bound output.
    Source(Vec<S>),
    /// Copies the first bound input to the first bound output, channel by
    /// channel.
    Copy,
    /// Copies the first bound input to the first bound output through a
    /// delay line, so the output lags by the line's configured delay.
    Delay(DelBuffer<S>),
}

impl<S: Sample> BlockProcessor<S> {
    /// Structural soundness of a processor, relative to the block length.
    pub open spec fn wf(&self, frames: usize) -> bool {
        match self {
            BlockProcessor::Delay(d) => d.wf() && d.spec_frames() == frames,
            _ => true,
        }
    }

    /// Run the processor over the bound buffers for one block, using
    /// `scratch` as the staging block (no allocation happens here). The
    /// final processor and buffers are exactly one `proc_step_rel` step
    /// of the initial ones.
    pub fn process(
        &mut self,
        buffers: &mut Vec<GraphBuffer<S>>,
        inputs: &Vec<(u64, usize)>,
        outputs: &Vec<(u64, usize)>,
        frames: usize,
        scratch: &mut Vec<S>,
    )
        requires
            old(self).wf(frames),
            buffers_wf(old(buffers)@, frames),
            io_valid(inputs@, old(buffers)@.len() as int),
            io_valid(outputs@, old(buffers)@.len() as int),
            old(scratch)@.len() == frames,
        ensures
            final(self).wf(frames),
            buffers_wf(final(buffers)@, frames),
            buffers_shape(old(buffers)@, final(buffers)@),
            final(scratch)@.len() == frames,
            proc_step_rel(
                *old(self),
                *final(self),
                old(buffers)@,
                final(buffers)@,
                inputs@,
                outputs@,
                frames,
            ),
    {
        match self {
            BlockProcessor::Idle => {},
            BlockProcessor::Source(data) => {
                source_fill(data, buffers, outputs, frames, scratch);
            },
            BlockProcessor::Copy => {
                copy_first_io(buffers, inputs, outputs, frames, scratch);
            },
            BlockProcessor::Delay(d) => {
                delay_transfer(d, buffers, inputs, outputs, frames, scratch);
            },
        }
    }
}

/// Write the padded source block to every channel of every bound output
/// buffer, staging the block in `scratch`.
fn source_fill<S: Sample>(
    data: &Vec<S>,
    buffers: &mut Vec<GraphBuffer<S>>,
    outputs: &Vec<(u64, usize)>,
    frames: usize,
    scratch: &mut Vec<S>,
)
    requires
        buffers_wf(old(buffers)@, frames),
        io_valid(outputs@, old(buffers)@.len() as int),
        old(scratch)@.len() == frames,
    ensures
        buffers_wf(final(buffers)@, frames),
        buffers_shape(old(buffers)@, final(buffers)@),
        final(scratch)@.len() == frames,
        final(buffers)@.len() == old(buffers)@.len(),
        forall|i: int|
            0 <= i < old(buffers)@.len() ==> (if binds(outputs@, i) {
                buf_filled(
                    old(buffers)@[i],
                    #[trigger] final(buffers)@[i],
                    padded_block(data@, frames as nat),
                )
            } else {
                final(buffers)@[i] == old(buffers)@[i]
            }),
{
    let mut i: usize = 0;
    while i < frames
        invariant
            i <= frames,
            scratch@.len() == frames,
            buffers@ == old(buffers)@,
            forall|j: int|
                0 <= j < i ==> #[trigger] scratch@[j] == padded_block(data@, frames as nat)[j],
        decreases frames - i,
    {
        if i < data.len() {
            let v: S = data[i];
            scratch[i] = v;
        } else {
            scratch[i] = S::silence();
        }
        i = i + 1;
    }
    proof {
        assert(scratch@ =~= padded_block(data@, frames as nat));
    }
    let ghost blk = scratch@;
    let mut oi: usize = 0;
    while oi < outputs.len()
        invariant
            oi <= outputs@.len(),
            scratch@ == blk,
            blk == padded_block(data@, frames as nat),
            scratch@.len() == frames,
            buffers@.len() == old(buffers)@.len(),
            buffers_wf(buffers@, frames),
            buffers_shape(old(buffers)@, buffers@),
            io_valid(outputs@, old(buffers)@.len() as int),
            forall|i2: int|
                0 <= i2 < buffers@.len() ==> (if binds(outputs@.take(oi as int), i2) {
                    buf_filled(old(buffers)@[i2], #[trigger] buffers@[i2], blk)
                } else {
                    buffers@[i2] == old(buffers)@[i2]
                }),
        decreases outputs@.len() - oi,
    {
        let ghost pre = buffers@;
        let bi: usize = outputs[oi].1;
        fill_all_channels(buffers, bi, frames, scratch);
        proof {
            assert(buf_filled(pre[bi as int], buffers@[bi as int], blk));
            lemma_binds_extend(outputs@, oi as int, outputs@.take(oi as int), outputs@.take(oi + 1));
            assert forall|i2: int| 0 <= i2 < buffers@.len() implies (if binds(
                outputs@.take(oi + 1),
                i2,
            ) {
                buf_filled(old(buffers)@[i2], #[trigger] buffers@[i2], blk)
            } else {
                buffers@[i2] == old(buffers)@[i2]
            }) by {
                if i2 == bi {
                    assert(binds(outputs@.take(oi + 1), i2)) by {
                        assert(outputs@.take(oi + 1)[oi as int] == outputs@[oi as int]);
                    }
                    if binds(outputs@.take(oi as int), i2) {
                        assert(buf_filled(old(buffers)@[i2], pre[i2], blk));
                        assert(buf_filled(old(buffers)@[i2], buffers@[i2], blk));
                    } else {
                        assert(pre[i2] == old(buffers)@[i2]);
                    }
                } else {
                    assert(buffers@[i2] == pre[i2]);
                }
            }
        }
        oi = oi + 1;
    }
    proof {
        assert(outputs@.take(outputs@.len() as int) =~= outputs@);
    }
}

/// Overwrite every channel of one buffer with the staged block.
fn fill_all_channels<S: Sample>(
    buffers: &mut Vec<GraphBuffer<S>>,
    bi: usize,
    frames: usize,
    scratch: &Vec<S>,
)
    requires
        buffers_wf(old(buffers)@, frames),
        bi < old(buffers)@.len(),
        scratch@.len() == frames,
    ensures
        buffers_wf(final(buffers)@, frames),
        buffers_shape(old(buffers)@, final(buffers)@),
        final(buffers)@.len() == old(buffers)@.len(),
        forall|i2: int|
            0 <= i2 < final(buffers)@.len() && i2 != bi ==> #[trigger] final(buffers)@[i2] == old(
                buffers,
            )@[i2],
        buf_filled(old(buffers)@[bi as int], final(buffers)@[bi as int], scratch@),
{
    let ghost pre = buffers@;
    let ghost blk = scratch@;
    let nchan: usize = buffers[bi].count();
    let mut c: usize = 0;
    while c < nchan
        invariant
            c <= nchan,
            bi < buffers@.len(),
            buffers@.len() == pre.len(),
            nchan == pre[bi as int].spec_count(),
            scratch@ == blk,
            scratch@.len() == frames,
            buffers_wf(buffers@, frames),
            buffers_shape(pre, buffers@),
            forall|i2: int|
                0 <= i2 < buffers@.len() && i2 != bi ==> #[trigger] buffers@[i2] == pre[i2],
            buffers@[bi as int].spec_count() == pre[bi as int].spec_count(),
            buffers@[bi as int].spec_frames() == pre[bi as int].spec_frames(),
            buffers@[bi as int].is_summing() == pre[bi as int].is_summing(),
            forall|d: int|
                0 <= d < c ==> #[trigger] buffers@[bi as int].scratch_chan(d) == blk,
            forall|d: int|
                0 <= d < c ==> #[trigger] buffers@[bi as int].chan(d) == (
                if pre[bi as int].is_summing() {
                    pre[bi as int].chan(d)
                } else {
                    blk
                }),
            forall|d: int|
                c <= d < nchan ==> #[trigger] buffers@[bi as int].chan(d) == pre[bi as int].chan(
                    d,
                ),
            forall|d: int|
                c <= d < nchan ==> #[trigger] buffers@[bi as int].scratch_chan(d)
                    == pre[bi as int].scratch_chan(d),
        decreases nchan - c,
    {
        let ghost mid = buffers@;
        let b = vstd::std_specs::vec::vec_index_mut(buffers, bi);
        let _ = b.write_channel(c, scratch.as_slice());
        proof {
            let bnew = buffers@[bi as int];
            assert(buffers@ == mid.update(bi as int, bnew));
            assert(bnew.scratch_chan(c as int) == blk);
            assert forall|i2: int|
                0 <= i2 < buffers@.len() && i2 != bi implies #[trigger] buffers@[i2] == pre[i2] by {
                assert(buffers@[i2] == mid[i2]);
            }
            assert forall|d: int| 0 <= d < c + 1 implies #[trigger] buffers@[bi as int].scratch_chan(
                d,
            ) == blk by {
                if d < c {
                    assert(mid[bi as int].scratch_chan(d) == blk);
                    assert(bnew.scratch_chan(d) == mid[bi as int].scratch_chan(d));
                }
            }
            assert forall|d: int| 0 <= d < c + 1 implies #[trigger] buffers@[bi as int].chan(d) == (
            if pre[bi as int].is_summing() {
                pre[bi as int].chan(d)
            } else {
                blk
            }) by {
                if d < c {
                    assert(bnew.chan(d) == mid[bi as int].chan(d));
                }
            }
            assert forall|d: int| c + 1 <= d < nchan implies #[trigger] buffers@[bi as int].chan(d)
                == pre[bi as int].chan(d) by {
                assert(bnew.chan(d) == mid[bi as int].chan(d));
            }
            assert forall|d: int| c + 1 <= d < nchan implies #[trigger] buffers@[bi as int].scratch_chan(
                d,
            ) == pre[bi as int].scratch_chan(d) by {
                assert(bnew.scratch_chan(d) == mid[bi as int].scratch_chan(d));
            }
        }
        c = c + 1;
    }
    proof {
        assert forall|d: int|
            0 <= d < pre[bi as int].spec_count() implies #[trigger] buffers@[bi as int].scratch_chan(
            d,
        ) == blk && buffers@[bi as int].chan(d) == (if pre[bi as int].is_summing() {
            pre[bi as int].chan(d)
        } else {
            blk
        }) by {}
    }
}

/// Fill the staging block with what a reader of `buffers[src]` sees on
/// channel `c`, silence where the buffer has no such channel.
fn fill_scratch_from<S: Sample>(
    buffers: &Vec<GraphBuffer<S>>,
    src: usize,
    c: usize,
    frames: usize,
    scratch: &mut Vec<S>,
)
    requires
        src < buffers@.len(),
        buffers@[src as int].wf(),
        buffers@[src as int].spec_frames() == frames,
        old(scratch)@.len() == frames,
    ensures
        final(scratch)@.len() == frames,
        final(scratch)@ == copy_block(buffers@[src as int], c as int, frames),
{
    match buffers[src].read_channel(c) {
        Ok(sl) => {
            let mut i: usize = 0;
            while i < frames
                invariant
                    i <= frames,
                    sl@ == buffers@[src as int].chan(c as int),
                    sl@.len() == frames,
                    scratch@.len() == frames,
                    forall|j: int| 0 <= j < i ==> #[trigger] scratch@[j] == sl@[j],
                decreases frames - i,
            {
                let v: S = *vstd::slice::slice_index_get(sl, i);
                scratch[i] = v;
                i = i + 1;
            }
            proof {
                assert(scratch@ =~= buffers@[src as int].chan(c as int));
            }
        },
        Err(_) => {
            fill_scratch_silence(frames, scratch);
        },
    }
}

/// Fill the staging block with the delayed line channel `c` of a delay
/// stage's state.
fn fill_scratch_from_delay<S: Sample>(
    d: &DelBuffer<S>,
    c: usize,
    frames: usize,
    scratch: &mut Vec<S>,
)
    requires
        d.wf(),
        d.spec_frames() == frames,
        c < d.cfg().spec_count(),
        old(scratch)@.len() == frames,
    ensures
        final(scratch)@.len() == frames,
        final(scratch)@ == d.scratch_channel(c as int),
{
    match d.get_channel(c) {
        Ok(sl) => {
            let mut i: usize = 0;
            while i < frames
                invariant
                    i <= frames,
                    sl@ == d.scratch_channel(c as int),
                    sl@.len() == frames,
                    scratch@.len() == frames,
                    forall|j: int| 0 <= j < i ==> #[trigger] scratch@[j] == sl@[j],
                decreases frames - i,
            {
                let v: S = *vstd::slice::slice_index_get(sl, i);
                scratch[i] = v;
                i = i + 1;
            }
            proof {
                assert(scratch@ =~= d.scratch_channel(c as int));
            }
        },
        Err(_) => {
            proof {
                assert(false);
            }
        },
    }
}

/// Fill the staging block with silence.
fn fill_scratch_silence<S: Sample>(frames: usize, scratch: &mut Vec<S>)
    requires
        old(scratch)@.len() == frames,
    ensures
        final(scratch)@.len() == frames,
        final(scratch)@ == silent_seq::<S>(frames as nat),
{
    let mut i: usize = 0;
    while i < frames
        invariant
            i <= frames,
            scratch@.len() == frames,
            forall|j: int| 0 <= j < i ==> #[trigger] scratch@[j] == S::spec_silence(),
        decreases frames - i,
    {
        scratch[i] = S::silence();
        i = i + 1;
    }
    proof {
        assert(scratch@ =~= silent_seq::<S>(frames as nat));
    }
}

/// Extending a binding list by one entry binds exactly the old indices
/// and the new entry's buffer.
proof fn lemma_binds_extend(
    io: Seq<(u64, usize)>,
    k: int,
    tk0: Seq<(u64, usize)>,
    tk1: Seq<(u64, usize)>,
)
    requires
        0 <= k < io.len(),
        tk0 == io.take(k),
        tk1 == io.take(k + 1),
    ensures
        forall|i: int| #[trigger] binds(tk1, i) <==> binds(tk0, i) || io[k].1 == i,
{
    assert(tk1.drop_last() =~= tk0);
    assert forall|i: int| #[trigger] binds(tk1, i) implies binds(tk0, i) || io[k].1 == i by {
        let q = choose|q: int| 0 <= q < tk1.len() && tk1[q].1 == i;
        if q < k {
            assert(tk0[q].1 == i);
        } else {
            assert(tk1[q] == io[k]);
        }
    }
    assert forall|i: int| binds(tk0, i) || io[k].1 == i implies #[trigger] binds(tk1, i) by {
        if binds(tk0, i) {
            let q = choose|q: int| 0 <= q < tk0.len() && tk0[q].1 == i;
            assert(tk1[q].1 == i);
        } else {
            assert(tk1[k].1 == i);
        }
    }
}

/// Copy the first bound input of an entry to its first bound output,
/// channel by channel up to the output's channel count (silence where the
/// input has fewer channels), staging each block in `scratch`.
fn copy_first_io<S: Sample>(
    buffers: &mut Vec<GraphBuffer<S>>,
    inputs: &Vec<(u64, usize)>,
    outputs: &Vec<(u64, usize)>,
    frames: usize,
    scratch: &mut Vec<S>,
)
    requires
        buffers_wf(old(buffers)@, frames),
        io_valid(inputs@, old(buffers)@.len() as int),
        io_valid(outputs@, old(buffers)@.len() as int),
        old(scratch)@.len() == frames,
    ensures
        buffers_wf(final(buffers)@, frames),
        buffers_shape(old(buffers)@, final(buffers)@),
        final(scratch)@.len() == frames,
        proc_step_rel(
            BlockProcessor::<S>::Copy,
            BlockProcessor::<S>::Copy,
            old(buffers)@,
            final(buffers)@,
            inputs@,
            outputs@,
            frames,
        ),
{
    if inputs.len() == 0 || outputs.len() == 0 {
        return ;
    }
    let src: usize = inputs[0].1;
    let dst: usize = outputs[0].1;
    let ghost src0 = buffers@[src as int];
    let ghost pre = buffers@;
    let nchan: usize = buffers[dst].count();
    let mut c: usize = 0;
    while c < nchan
        invariant
            c <= nchan,
            src < buffers@.len(),
            dst < buffers@.len(),
            buffers@.len() == pre.len(),
            src0 == pre[src as int],
            nchan == pre[dst as int].spec_count(),
            scratch@.len() == frames,
            buffers_wf(buffers@, frames),
            buffers_shape(pre, buffers@),
            forall|i2: int|
                0 <= i2 < buffers@.len() && i2 != dst ==> #[trigger] buffers@[i2] == pre[i2],
            buffers@[dst as int].spec_count() == pre[dst as int].spec_count(),
            buffers@[dst as int].spec_frames() == pre[dst as int].spec_frames(),
            buffers@[dst as int].is_summing() == pre[dst as int].is_summing(),
            forall|e: int|
                0 <= e < c ==> #[trigger] buffers@[dst as int].scratch_chan(e) == copy_block(
                    src0,
                    e,
                    frames,
                ),
            forall|e: int|
                0 <= e < c ==> #[trigger] buffers@[dst as int].chan(e) == (
                if pre[dst as int].is_summing() {
                    pre[dst as int].chan(e)
                } else {
                    copy_block(src0, e, frames)
                }),
            forall|e: int|
                c <= e < nchan ==> #[trigger] buffers@[dst as int].chan(e) == pre[dst as int].chan(
                    e,
                ),
            forall|e: int|
                c <= e < nchan ==> #[trigger] buffers@[dst as int].scratch_chan(e)
                    == pre[dst as int].scratch_chan(e),
        decreases nchan - c,
    {
        proof {
            // reading channel c of the source sees its original block even
            // when source and destination coincide: channels from c on are
            // untouched, and a summing source is read from its accumulator,
            // which writers never touch
            assert(buffers@[src as int].spec_count() == src0.spec_count());
            if (c as int) < src0.spec_count() {
                if src == dst {
                    assert(buffers@[src as int].chan(c as int) == src0.chan(c as int));
                } else {
                    assert(buffers@[src as int] == src0);
                }
            }
            assert(copy_block(buffers@[src as int], c as int, frames) == copy_block(
                src0,
                c as int,
                frames,
            ));
        }
        fill_scratch_from(buffers, src, c, frames, scratch);
        proof {
            assert(scratch@ == copy_block(src0, c as int, frames));
        }
        let ghost mid = buffers@;
        let b = vstd::std_specs::vec::vec_index_mut(buffers, dst);
        let _ = b.write_channel(c, scratch.as_slice());
        proof {
            let bnew = buffers@[dst as int];
            assert(buffers@ == mid.update(dst as int, bnew));
            assert(bnew.scratch_chan(c as int) == copy_block(src0, c as int, frames));
            assert forall|i2: int|
                0 <= i2 < buffers@.len() && i2 != dst implies #[trigger] buffers@[i2] == pre[i2] by {
                assert(buffers@[i2] == mid[i2]);
            }
            assert forall|e: int| 0 <= e < c + 1 implies #[trigger] buffers@[dst as int].scratch_chan(
                e,
            ) == copy_block(src0, e, frames) by {
                if e < c {
                    assert(mid[dst as int].scratch_chan(e) == copy_block(src0, e, frames));
                    assert(bnew.scratch_chan(e) == mid[dst as int].scratch_chan(e));
                }
            }
            assert forall|e: int| 0 <= e < c + 1 implies #[trigger] buffers@[dst as int].chan(e)
                == (if pre[dst as int].is_summing() {
                pre[dst as int].chan(e)
            } else {
                copy_block(src0, e, frames)
            }) by {
                if e < c {
                    assert(bnew.chan(e) == mid[dst as int].chan(e));
                }
            }
            assert forall|e: int| c + 1 <= e < nchan implies #[trigger] buffers@[dst as int].chan(e)
                == pre[dst as int].chan(e) by {
                assert(bnew.chan(e) == mid[dst as int].chan(e));
            }
            assert forall|e: int| c + 1 <= e < nchan implies #[trigger] buffers@[dst as int].scratch_chan(
                e,
            ) == pre[dst as int].scratch_chan(e) by {
                assert(bnew.scratch_chan(e) == mid[dst as int].scratch_chan(e));
            }
        }
        c = c + 1;
    }
    proof {
        assert forall|e: int|
            0 <= e < pre[dst as int].spec_count() implies #[trigger] buffers@[dst as int].scratch_chan(
            e,
        ) == copy_block(src0, e, frames) && buffers@[dst as int].chan(e) == (
        if pre[dst as int].is_summing() {
            pre[dst as int].chan(e)
        } else {
            copy_block(src0, e, frames)
        }) by {}
        assert(buf_copied(pre[dst as int], buffers@[dst as int], src0));
    }
}

/// Run a delay stage: ingest the source's channels into the line, turn it
/// by one block, and write the delayed block to the destination.
fn delay_transfer<S: Sample>(
    d: &mut DelBuffer<S>,
    buffers: &mut Vec<GraphBuffer<S>>,
    inputs: &Vec<(u64, usize)>,
    outputs: &Vec<(u64, usize)>,
    frames: usize,
    scratch: &mut Vec<S>,
)
    requires
        old(d).wf(),
        old(d).spec_frames() == frames,
        buffers_wf(old(buffers)@, frames),
        io_valid(inputs@, old(buffers)@.len() as int),
        io_valid(outputs@, old(buffers)@.len() as int),
        old(scratch)@.len() == frames,
    ensures
        final(d).wf(),
        final(d).spec_frames() == frames,
        buffers_wf(final(buffers)@, frames),
        buffers_shape(old(buffers)@, final(buffers)@),
        final(scratch)@.len() == frames,
        delay_step_rel(
            *old(d),
            BlockProcessor::Delay(*final(d)),
            old(buffers)@,
            final(buffers)@,
            inputs@,
            outputs@,
        ),
{
    if inputs.len() == 0 || outputs.len() == 0 {
        return ;
    }
    let src: usize = inputs[0].1;
    let dst: usize = outputs[0].1;
    let ghost src0 = buffers@[src as int];
    let ghost d0 = *d;
    let nchan: usize = buffers[src].count();
    let mut c: usize = 0;
    while c < nchan
        invariant
            c <= nchan,
            src < buffers@.len(),
            buffers@ == old(buffers)@,
            src0 == buffers@[src as int],
            nchan == src0.spec_count(),
            scratch@.len() == frames,
            buffers_wf(buffers@, frames),
            d.wf() && d.spec_frames() == frames,
            d.cfg() == d0.cfg(),
            d.spec_frames() == d0.spec_frames(),
            d.spec_delay() == d0.spec_delay(),
            d.spec_head() == d0.spec_head(),
            forall|c2: int|
                0 <= c2 < d0.cfg().spec_count() ==> #[trigger] d.line_channel(c2)
                    == d0.line_channel(c2),
            forall|c2: int|
                0 <= c2 < d0.cfg().spec_count() ==> #[trigger] d.scratch_channel(c2) == (if c2 < c
                    && c2 < src0.spec_count() {
                    src0.chan(c2)
                } else {
                    d0.scratch_channel(c2)
                }),
        decreases nchan - c,
    {
        fill_scratch_from(buffers, src, c, frames, scratch);
        proof {
            assert(scratch@ == copy_block(src0, c as int, frames));
        }
        let ghost dmid = *d;
        let _ = d.write_channel(c, scratch.as_slice());
        proof {
            assert forall|c2: int| 0 <= c2 < d0.cfg().spec_count() implies #[trigger] d.scratch_channel(
                c2,
            ) == (if c2 < c + 1 && c2 < src0.spec_count() {
                src0.chan(c2)
            } else {
                d0.scratch_channel(c2)
            }) by {
                if c2 != c {
                    assert(d.scratch_channel(c2) == dmid.scratch_channel(c2));
                }
            }
        }
        c = c + 1;
    }
    proof {
        assert forall|c2: int| 0 <= c2 < d0.cfg().spec_count() implies #[trigger] d.scratch_channel(
            c2,
        ) == delay_ingest(d0, src0, c2) by {}
    }
    let ghost dpre = *d;
    d.prepare();
    let ghost d2 = *d;
    proof {
        assert forall|c2: int| 0 <= c2 < d0.cfg().spec_count() implies #[trigger] d2.scratch_channel(
            c2,
        ) == delayed_channel(
            delay_ingest(d0, src0, c2),
            d0.line_channel(c2),
            d0.spec_head() as int,
            d0.spec_delay() as int,
        ) && d2.line_channel(c2) == shifted_line(
            delay_ingest(d0, src0, c2),
            d0.line_channel(c2),
            d0.spec_head() as int,
            d0.spec_delay() as int,
        ) by {
            assert(d2.scratch_channel(c2) == delayed_channel(
                dpre.scratch_channel(c2),
                dpre.line_channel(c2),
                dpre.spec_head() as int,
                dpre.spec_delay() as int,
            ));
        }
    }
    let ghost pre = buffers@;
    let dst_chan: usize = buffers[dst].count();
    let mut c2: usize = 0;
    while c2 < dst_chan
        invariant
            c2 <= dst_chan,
            dst < buffers@.len(),
            buffers@.len() == pre.len(),
            dst_chan == pre[dst as int].spec_count(),
            scratch@.len() == frames,
            d.wf() && d.spec_frames() == frames,
            *d == d2,
            buffers_wf(buffers@, frames),
            buffers_shape(pre, buffers@),
            forall|i2: int|
                0 <= i2 < buffers@.len() && i2 != dst ==> #[trigger] buffers@[i2] == pre[i2],
            buffers@[dst as int].spec_count() == pre[dst as int].spec_count(),
            buffers@[dst as int].spec_frames() == pre[dst as int].spec_frames(),
            buffers@[dst as int].is_summing() == pre[dst as int].is_summing(),
            forall|e: int|
                0 <= e < c2 ==> #[trigger] buffers@[dst as int].scratch_chan(e) == delay_out_block(
                    d2,
                    e,
                    frames,
                ),
            forall|e: int|
                0 <= e < c2 ==> #[trigger] buffers@[dst as int].chan(e) == (
                if pre[dst as int].is_summing() {
                    pre[dst as int].chan(e)
                } else {
                    delay_out_block(d2, e, frames)
                }),
            forall|e: int|
                c2 <= e < dst_chan ==> #[trigger] buffers@[dst as int].chan(e)
                    == pre[dst as int].chan(e),
            forall|e: int|
                c2 <= e < dst_chan ==> #[trigger] buffers@[dst as int].scratch_chan(e)
                    == pre[dst as int].scratch_chan(e),
        decreases dst_chan - c2,
    {
        let dcount: usize = d.get_channel_config().count();
        if c2 < dcount {
            fill_scratch_from_delay(d, c2, frames, scratch);
        } else {
            fill_scratch_silence(frames, scratch);
        }
        proof {
            assert(scratch@ == delay_out_block(d2, c2 as int, frames));
        }
        let ghost mid = buffers@;
        let b = vstd::std_specs::vec::vec_index_mut(buffers, dst);
        let _ = b.write_channel(c2, scratch.as_slice());
        proof {
            let bnew = buffers@[dst as int];
            assert(buffers@ == mid.update(dst as int, bnew));
            assert(bnew.scratch_chan(c2 as int) == delay_out_block(d2, c2 as int, frames));
            assert forall|i2: int|
                0 <= i2 < buffers@.len() && i2 != dst implies #[trigger] buffers@[i2] == pre[i2] by {
                assert(buffers@[i2] == mid[i2]);
            }
            assert forall|e: int| 0 <= e < c2 + 1 implies #[trigger] buffers@[dst as int].scratch_chan(
                e,
            ) == delay_out_block(d2, e, frames) by {
                if e < c2 {
                    assert(mid[dst as int].scratch_chan(e) == delay_out_block(d2, e, frames));
                    assert(bnew.scratch_chan(e) == mid[dst as int].scratch_chan(e));
                }
            }
            assert forall|e: int| 0 <= e < c2 + 1 implies #[trigger] buffers@[dst as int].chan(e)
                == (if pre[dst as int].is_summing() {
                pre[dst as int].chan(e)
            } else {
                delay_out_block(d2, e, frames)
            }) by {
                if e < c2 {
                    assert(bnew.chan(e) == mid[dst as int].chan(e));
                }
            }
            assert forall|e: int| c2 + 1 <= e < dst_chan implies #[trigger] buffers@[dst as int].chan(
                e,
            ) == pre[dst as int].chan(e) by {
                assert(bnew.chan(e) == mid[dst as int].chan(e));
            }
            assert forall|e: int| c2 + 1 <= e < dst_chan implies #[trigger] buffers@[dst as int].scratch_chan(
                e,
            ) == pre[dst as int].scratch_chan(e) by {
                assert(bnew.scratch_chan(e) == mid[dst as int].scratch_chan(e));
            }
        }
        c2 = c2 + 1;
    }
    proof {
        assert(delay_step_rel(
            d0,
            BlockProcessor::Delay(d2),
            old(buffers)@,
            buffers@,
            inputs@,
            outputs@,
        ));
    }
}

/// One entry of the plan: the node it stands for, its processor's bound
/// ports, and whether it is a scheduler-inserted transfer stage rather
/// than a graph node.
pub struct ScheduleEntry {
    pub node: u64,
    pub is_stage: bool,
    pub stage_target: u64,
    pub inputs: Vec<(u64, usize)>,
    pub outputs: Vec<(u64, usize)>,
}

/// A compiled, immutable execution plan: entries in topological order with
/// their processors, the buffers they exchange, and the buffer holding the
/// root's first output.
pub struct Schedule<S: Sample> {
    entries: Vec<ScheduleEntry>,
    processors: Vec<BlockProcessor<S>>,
    buffers: Vec<GraphBuffer<S>>,
    scratch: Vec<S>,
    max_buffer_size: usize,
    root_buffer: usize,
    lat_acc: Ghost<Map<u64, u64>>,
    lat_arr: Ghost<Map<u64, u64>>,
}

impl<S: Sample> Schedule<S> {
    /// Structural soundness: parallel entry and processor lists, every
    /// port binding inside the buffer list, every buffer and processor
    /// sized to the block length, and a designated root buffer.
    pub closed spec fn wf(&self) -> bool {
        &&& self.entries@.len() == self.processors@.len()
        &&& self.entries@.len() >= 1
        &&& buffers_wf(self.buffers@, self.max_buffer_size)
        &&& self.root_buffer < self.buffers@.len()
        &&& self.max_buffer_size >= 1
        &&& self.scratch@.len() == self.max_buffer_size
        &&& (forall|i: int|
            0 <= i < self.entries@.len() ==> io_valid(
                (#[trigger] self.entries@[i]).inputs@,
                self.buffers@.len() as int,
            ) && io_valid(self.entries@[i].outputs@, self.buffers@.len() as int))
        &&& (forall|i: int|
            0 <= i < self.processors@.len() ==> (#[trigger] self.processors@[i]).wf(
                self.max_buffer_size,
            ))
    }

    /// Frames per block the plan was compiled for.
    pub closed spec fn spec_frames(&self) -> usize {
        self.max_buffer_size
    }

    /// The node of the final entry (the graph root).
    pub closed spec fn spec_last_node(&self) -> u64 {
        self.entries@.last().node
    }

    /// The emission order of the plan: the nodes its entries stand for,
    /// transfer stages left out.
    pub closed spec fn spec_node_order(&self) -> Seq<u64> {
        node_seq(self.entries@)
    }

    /// The plan's entries (nodes and transfer stages, in execution
    /// order).
    pub closed spec fn spec_entries(&self) -> Seq<ScheduleEntry> {
        self.entries@
    }

    /// The processors, parallel to the entries.
    pub closed spec fn spec_processors(&self) -> Seq<BlockProcessor<S>> {
        self.processors@
    }

    /// The buffer list the entries exchange blocks through.
    pub closed spec fn spec_buffers(&self) -> Seq<GraphBuffer<S>> {
        self.buffers@
    }

    /// The accumulated latency the compiler recorded for each emitted
    /// node.
    pub closed spec fn spec_acc(&self) -> Map<u64, u64> {
        self.lat_acc@
    }

    /// The arrival bound the compiler recorded for each emitted node.
    pub closed spec fn spec_arr(&self) -> Map<u64, u64> {
        self.lat_arr@
    }

    /// Every transfer stage realizes exactly the compensation its edge
    /// asks for: a delay stage from producer `node` into consumer
    /// `stage_target` carries a line of `arr[target] - acc[node]` frames,
    /// and a plain copy stage stands only where that difference is zero.
    pub closed spec fn spec_stage_delays_ok(&self) -> bool {
        stages_match(self.entries@, self.processors@, self.lat_acc@, self.lat_arr@)
    }

    /// What the root buffer holds on channel `c`.
    pub closed spec fn root_chan(&self, c: int) -> Seq<S> {
        self.buffers@[self.root_buffer as int].chan(c)
    }

    /// Channel count of the root buffer.
    pub closed spec fn spec_root_count(&self) -> usize {
        self.buffers@[self.root_buffer as int].spec_count()
    }

    /// The index of the buffer holding the root's first output (what
    /// `eval` copies out).
    pub closed spec fn spec_root_buffer(&self) -> usize {
        self.root_buffer
    }

    /// Frames per block.
    pub fn frames(&self) -> (r: usize)
        ensures
            r == self.spec_frames(),
    {
        self.max_buffer_size
    }

    /// The node identity of the final entry.
    pub fn last_node(&self) -> (r: u64)
        requires
            self.wf(),
        ensures
            r == self.spec_last_node(),
    {
        self.entries[self.entries.len() - 1].node
    }

    /// Replace the processor of the first non-stage entry standing for
    /// `node`. Returns false, and changes nothing, when no such entry
    /// exists.
    pub fn set_processor(&mut self, node: u64, p: BlockProcessor<S>) -> (r: bool)
        requires
            old(self).wf(),
            p.wf(old(self).spec_frames()),
        ensures
            final(self).wf(),
            final(self).spec_frames() == old(self).spec_frames(),
            final(self).spec_last_node() == old(self).spec_last_node(),
            final(self).spec_root_count() == old(self).spec_root_count(),
            old(self).spec_stage_delays_ok() ==> final(self).spec_stage_delays_ok(),
            final(self).spec_entries() == old(self).spec_entries(),
            final(self).spec_buffers() == old(self).spec_buffers(),
            r == exists|i: int|
                0 <= i < old(self).spec_entries().len() && !(
                #[trigger] old(self).spec_entries()[i]).is_stage && old(self).spec_entries()[i].node
                    == node,
            !r ==> *final(self) == *old(self),
            r ==> exists|i: int|
                0 <= i < old(self).spec_entries().len() && !(
                #[trigger] old(self).spec_entries()[i]).is_stage && old(self).spec_entries()[i].node
                    == node && (forall|j: int|
                    0 <= j < i ==> (#[trigger] old(self).spec_entries()[j]).is_stage || old(
                        self,
                    ).spec_entries()[j].node != node) && final(self).spec_processors() == old(
                    self,
                ).spec_processors().update(i, p),
    {
        let mut i: usize = 0;
        let mut placed = p;
        while i < self.entries.len()
            invariant
                i <= self.entries@.len(),
                self.wf(),
                placed.wf(self.spec_frames()),
                self.entries@ == old(self).entries@,
                self.buffers@ == old(self).buffers@,
                self.max_buffer_size == old(self).max_buffer_size,
                self.root_buffer == old(self).root_buffer,
                self.processors@.len() == old(self).processors@.len(),
                old(self).spec_stage_delays_ok() ==> self.spec_stage_delays_ok(),
                self.processors@ == old(self).processors@,
                self.lat_acc == old(self).lat_acc,
                self.lat_arr == old(self).lat_arr,
                *self == *old(self),
                placed == p,
                forall|j: int|
                    0 <= j < i ==> (#[trigger] self.entries@[j]).is_stage || self.entries@[j].node
                        != node,
                forall|j: int|
                    0 <= j < self.processors@.len() ==> (#[trigger] self.processors@[j]).wf(
                        self.max_buffer_size,
                    ),
            decreases self.entries@.len() - i,
        {
            if !self.entries[i].is_stage && self.entries[i].node == node {
                proof {
                    assert(!(old(self).spec_entries()[i as int]).is_stage && old(
                        self,
                    ).spec_entries()[i as int].node == node);
                }
                let ghost pre_procs = self.processors@;
                self.processors[i] = placed;
                proof {
                    if old(self).spec_stage_delays_ok() {
                        assert forall|j: int|
                            0 <= j < self.entries@.len() && j < self.processors@.len() && (
                            #[trigger] self.entries@[j]).is_stage implies (match self.processors@[j] {
                            BlockProcessor::Delay(d) => d.spec_delay() as u64 == sat_sub_spec(
                                self.lat_arr@[self.entries@[j].stage_target],
                                self.lat_acc@[self.entries@[j].node],
                            ) && sat_sub_spec(
                                self.lat_arr@[self.entries@[j].stage_target],
                                self.lat_acc@[self.entries@[j].node],
                            ) > 0,
                            _ => sat_sub_spec(
                                self.lat_arr@[self.entries@[j].stage_target],
                                self.lat_acc@[self.entries@[j].node],
                            ) == 0,
                        }) by {
                            assert(j != i);
                            assert(self.processors@[j] == pre_procs[j]);
                        }
                        assert(self.spec_stage_delays_ok());
                    }
                }
                return true;
            }
            i = i + 1;
        }
        false
    }

    /// Drive the compiled plan for one block: run each entry's processor
    /// in order, prepare the buffers it touched, and copy the root's
    /// first output into the caller's block (missing channels are filled
    /// with silence).
    pub fn eval(&mut self, ctx: &mut PlaybackContext<S>)
        requires
            old(self).wf(),
            old(ctx).wf(),
            old(ctx).spec_frames() == old(self).spec_frames(),
        ensures
            final(self).wf(),
            final(self).spec_frames() == old(self).spec_frames(),
            final(ctx).wf(),
            final(ctx).spec_frames() == old(ctx).spec_frames(),
            final(ctx).spec_channels() == old(ctx).spec_channels(),
            final(ctx).spec_rate() == old(ctx).spec_rate(),
            forall|c: int, i: int|
                0 <= c < old(ctx).spec_channels() && 0 <= i < old(ctx).spec_frames() ==> (
                #[trigger] final(ctx).chan(c)[i]) == (if c < final(self).spec_root_count() {
                    final(self).root_chan(c)[i]
                } else {
                    S::spec_silence()
                }),
            final(self).spec_entries() == old(self).spec_entries(),
            run_rel(
                old(self).spec_entries(),
                old(self).spec_processors(),
                final(self).spec_processors(),
                old(self).spec_buffers(),
                final(self).spec_buffers(),
                old(self).spec_frames(),
            ),
    {
        let frames: usize = self.max_buffer_size;
        let n_entries: usize = self.entries.len();
        proof {
            assert(self.entries@.take(0) =~= Seq::<ScheduleEntry>::empty());
        }
        let mut idx: usize = 0;
        while idx < n_entries
            invariant
                idx <= n_entries,
                n_entries == self.entries@.len(),
                self.wf(),
                self.max_buffer_size == old(self).spec_frames(),
                frames == self.max_buffer_size,
                self.buffers@.len() == old(self).buffers@.len(),
                self.root_buffer == old(self).root_buffer,
                self.entries@ == old(self).entries@,
                run_rel(
                    self.entries@.take(idx as int),
                    old(self).processors@,
                    self.processors@,
                    old(self).buffers@,
                    self.buffers@,
                    frames,
                ),
            decreases n_entries - idx,
        {
            let ghost procs0 = self.processors@;
            let ghost bufs0 = self.buffers@;
            let ghost pre_procs = self.processors@;
            let meta_inputs: &Vec<(u64, usize)> = &self.entries[idx].inputs;
            let meta_outputs: &Vec<(u64, usize)> = &self.entries[idx].outputs;
            let mut tmp: BlockProcessor<S> = BlockProcessor::Idle;
            core::mem::swap(
                vstd::std_specs::vec::vec_index_mut(&mut self.processors, idx),
                &mut tmp,
            );
            proof {
                assert(self.processors@ =~= pre_procs.update(idx as int, BlockProcessor::Idle));
                assert(tmp == pre_procs[idx as int]);
                assert(tmp.wf(frames));
            }
            tmp.process(&mut self.buffers, meta_inputs, meta_outputs, frames, &mut self.scratch);
            let ghost bufs_after_proc = self.buffers@;
            core::mem::swap(
                vstd::std_specs::vec::vec_index_mut(&mut self.processors, idx),
                &mut tmp,
            );
            proof {
                assert forall|j: int| 0 <= j < self.processors@.len() implies (
                #[trigger] self.processors@[j]).wf(self.max_buffer_size) by {
                    if j != idx {
                        assert(self.processors@[j] == pre_procs[j]);
                    }
                }
                assert(self.processors@ =~= procs0.update(idx as int, self.processors@[idx as int]));
                assert(proc_step_rel(
                    procs0[idx as int],
                    self.processors@[idx as int],
                    bufs0,
                    bufs_after_proc,
                    self.entries@[idx as int].inputs@,
                    self.entries@[idx as int].outputs@,
                    frames,
                ));
            }
            // prepare each touched buffer exactly once
            let ghost procs_after = self.processors@;
            proof {
                assert(meta_outputs@.take(0) =~= Seq::<(u64, usize)>::empty());
                assert(prep_list_rel(bufs_after_proc, self.buffers@, meta_outputs@.take(0)));
            }
            let mut oi: usize = 0;
            while oi < meta_outputs.len()
                invariant
                    oi <= meta_outputs@.len(),
                    io_valid(meta_outputs@, self.buffers@.len() as int),
                    buffers_wf(self.buffers@, frames),
                    self.buffers@.len() == old(self).buffers@.len(),
                    self.entries@ == old(self).entries@,
                    self.processors@ == procs_after,
                    self.max_buffer_size == old(self).spec_frames(),
                    self.root_buffer == old(self).root_buffer,
                    self.scratch@.len() == frames,
                    prep_list_rel(bufs_after_proc, self.buffers@, meta_outputs@.take(oi as int)),
                decreases meta_outputs@.len() - oi,
            {
                let ghost pre_bufs = self.buffers@;
                let bi: usize = meta_outputs[oi].1;
                let b = vstd::std_specs::vec::vec_index_mut(&mut self.buffers, bi);
                b.prepare();
                proof {
                    assert forall|j: int| 0 <= j < self.buffers@.len() implies (
                    #[trigger] self.buffers@[j]).wf() && self.buffers@[j].spec_frames()
                        == frames by {
                        if j != bi {
                            assert(self.buffers@[j] == pre_bufs[j]);
                        }
                    }
                    assert(prepared_rel(pre_bufs[bi as int], self.buffers@[bi as int])) by {
                        if !pre_bufs[bi as int].is_summing() {
                            assert(self.buffers@[bi as int] == pre_bufs[bi as int]);
                        }
                    }
                    assert(one_prep_rel(pre_bufs, self.buffers@, bi as int));
                    assert(meta_outputs@.take(oi + 1).drop_last() =~= meta_outputs@.take(
                        oi as int,
                    ));
                    assert(meta_outputs@.take(oi + 1).last() == meta_outputs@[oi as int]);
                    assert(prep_list_rel(
                        bufs_after_proc,
                        self.buffers@,
                        meta_outputs@.take(oi + 1),
                    ));
                }
                oi = oi + 1;
            }
            let ghost bufs_after_outs = self.buffers@;
            proof {
                assert(meta_outputs@.take(meta_outputs@.len() as int) =~= meta_outputs@);
                assert(prep_list_rel(bufs_after_proc, bufs_after_outs, meta_outputs@));
                assert(meta_inputs@.take(0) =~= Seq::<(u64, usize)>::empty());
                assert(prep_skip_rel(
                    bufs_after_outs,
                    self.buffers@,
                    meta_inputs@.take(0),
                    meta_outputs@,
                ));
            }
            let mut ii: usize = 0;
            while ii < meta_inputs.len()
                invariant
                    ii <= meta_inputs@.len(),
                    io_valid(meta_inputs@, self.buffers@.len() as int),
                    io_valid(meta_outputs@, self.buffers@.len() as int),
                    buffers_wf(self.buffers@, frames),
                    self.buffers@.len() == old(self).buffers@.len(),
                    self.entries@ == old(self).entries@,
                    self.processors@ == procs_after,
                    self.max_buffer_size == old(self).spec_frames(),
                    self.root_buffer == old(self).root_buffer,
                    self.scratch@.len() == frames,
                    prep_skip_rel(
                        bufs_after_outs,
                        self.buffers@,
                        meta_inputs@.take(ii as int),
                        meta_outputs@,
                    ),
                decreases meta_inputs@.len() - ii,
            {
                let ghost pre_bufs = self.buffers@;
                let bi: usize = meta_inputs[ii].1;
                let skip: bool = io_list_has_buffer(meta_outputs, bi);
                proof {
                    assert(skip == binds(meta_outputs@, bi as int));
                }
                if !skip {
                    let b = vstd::std_specs::vec::vec_index_mut(&mut self.buffers, bi);
                    b.prepare();
                    proof {
                        assert forall|j: int| 0 <= j < self.buffers@.len() implies (
                        #[trigger] self.buffers@[j]).wf() && self.buffers@[j].spec_frames()
                            == frames by {
                            if j != bi {
                                assert(self.buffers@[j] == pre_bufs[j]);
                            }
                        }
                        assert(prepared_rel(pre_bufs[bi as int], self.buffers@[bi as int])) by {
                            if !pre_bufs[bi as int].is_summing() {
                                assert(self.buffers@[bi as int] == pre_bufs[bi as int]);
                            }
                        }
                        assert(one_prep_rel(pre_bufs, self.buffers@, bi as int));
                    }
                }
                proof {
                    assert(skip_or_prep(pre_bufs, self.buffers@, bi as int, meta_outputs@));
                    assert(meta_inputs@.take(ii + 1).drop_last() =~= meta_inputs@.take(ii as int));
                    assert(meta_inputs@.take(ii + 1).last() == meta_inputs@[ii as int]);
                    assert(skip_or_prep(
                        pre_bufs,
                        self.buffers@,
                        meta_inputs@.take(ii + 1).last().1 as int,
                        meta_outputs@,
                    ));
                    assert(prep_skip_rel(
                        bufs_after_outs,
                        self.buffers@,
                        meta_inputs@.take(ii + 1),
                        meta_outputs@,
                    ));
                }
                ii = ii + 1;
            }
            proof {
                assert(self.entries@.len() == self.processors@.len());
                assert(buffers_wf(self.buffers@, self.max_buffer_size));
                assert(self.scratch@.len() == self.max_buffer_size);
                assert(self.root_buffer < self.buffers@.len());
                assert(forall|i: int|
                    0 <= i < self.entries@.len() ==> io_valid(
                        (#[trigger] self.entries@[i]).inputs@,
                        self.buffers@.len() as int,
                    ) && io_valid(self.entries@[i].outputs@, self.buffers@.len() as int));
                assert(self.wf());
                assert(meta_inputs@.take(meta_inputs@.len() as int) =~= meta_inputs@);
                assert(prep_skip_rel(bufs_after_outs, self.buffers@, meta_inputs@, meta_outputs@));
                assert(meta_inputs@ == self.entries@[idx as int].inputs@);
                assert(meta_outputs@ == self.entries@[idx as int].outputs@);
                assert(entry_step_rel(
                    self.entries@[idx as int],
                    procs0[idx as int],
                    self.processors@[idx as int],
                    bufs0,
                    self.buffers@,
                    frames,
                ));
                lemma_run_rel_step(
                    self.entries@,
                    idx as int,
                    old(self).processors@,
                    procs0,
                    self.processors@,
                    old(self).buffers@,
                    bufs0,
                    self.buffers@,
                    frames,
                );
            }
            idx = idx + 1;
        }
        proof {
            assert(self.entries@.take(n_entries as int) =~= self.entries@);
            assert(run_rel(
                old(self).spec_entries(),
                old(self).spec_processors(),
                self.processors@,
                old(self).spec_buffers(),
                self.buffers@,
                frames,
            ));
        }
        // copy the root buffer out, truncating or zero-filling channels
        let nchan: usize = ctx.channels();
        let root_count: usize = self.buffers[self.root_buffer].count();
        let mut c: usize = 0;
        while c < nchan
            invariant
                c <= nchan,
                nchan == old(ctx).spec_channels(),
                self.wf(),
                frames == self.max_buffer_size,
                self.max_buffer_size == old(self).spec_frames(),
                root_count == self.spec_root_count(),
                ctx.wf(),
                ctx.spec_frames() == old(ctx).spec_frames(),
                ctx.spec_channels() == old(ctx).spec_channels(),
                ctx.spec_rate() == old(ctx).spec_rate(),
                ctx.spec_frames() == frames,
                forall|c2: int, i: int|
                    0 <= c2 < c && 0 <= i < frames ==> (#[trigger] ctx.chan(c2)[i]) == (if c2
                        < self.spec_root_count() {
                        self.root_chan(c2)[i]
                    } else {
                        S::spec_silence()
                    }),
            decreases nchan - c,
        {
            let ghost pre_chans = Seq::new(nchan as nat, |c2: int| ctx.chan(c2));
            proof {
                ctx.lemma_chan_len(c as int);
                assert forall|c2: int, i: int|
                    0 <= c2 < c && 0 <= i < frames implies (#[trigger] pre_chans[c2][i]) == (if c2
                        < self.spec_root_count() {
                        self.root_chan(c2)[i]
                    } else {
                        S::spec_silence()
                    }) by {
                    assert(pre_chans[c2] == ctx.chan(c2));
                }
            }
            if c < root_count {
                let sl: &[S] = match self.buffers[self.root_buffer].read_channel(c) {
                    Ok(s) => s,
                    Err(_) => {
                        proof {
                            assert(false);
                        }
                        self.scratch.as_slice()
                    },
                };
                let mut i: usize = 0;
                while i < frames
                    invariant
                        i <= frames,
                        c < nchan,
                        nchan == ctx.spec_channels(),
                        sl@ == self.root_chan(c as int),
                        sl@.len() == frames,
                        ctx.wf(),
                        ctx.spec_frames() == frames,
                        ctx.spec_channels() == old(ctx).spec_channels(),
                        ctx.spec_rate() == old(ctx).spec_rate(),
                        pre_chans.len() == nchan,
                        forall|c2: int|
                            0 <= c2 < nchan && c2 != c ==> #[trigger] ctx.chan(c2) == pre_chans[c2],
                        forall|j: int|
                            0 <= j < i ==> (#[trigger] ctx.chan(c as int)[j]) == sl@[j],
                    decreases frames - i,
                {
                    let ghost before = *ctx;
                    let v: S = *vstd::slice::slice_index_get(sl, i);
                    ctx.store(c, i, v);
                    proof {
                        before.lemma_chan_len(c as int);
                        ctx.lemma_chan_len(c as int);
                        assert(ctx.chan(c as int) == before.chan(c as int).update(
                            i as int,
                            sl@[i as int],
                        ));
                        assert forall|j: int| 0 <= j < i + 1 implies (#[trigger] ctx.chan(
                            c as int,
                        )[j]) == sl@[j] by {
                            if j < i {
                                assert(before.chan(c as int)[j] == sl@[j]);
                            }
                        }
                        assert forall|c2: int| 0 <= c2 < nchan && c2 != c implies #[trigger] ctx.chan(
                            c2,
                        ) == pre_chans[c2] by {
                            assert(before.chan(c2) == pre_chans[c2]);
                        }
                    }
                    i = i + 1;
                }
                proof {
                    assert forall|c2: int, i2: int|
                        0 <= c2 < c + 1 && 0 <= i2 < frames implies (#[trigger] ctx.chan(
                        c2,
                    )[i2]) == (if c2 < self.spec_root_count() {
                        self.root_chan(c2)[i2]
                    } else {
                        S::spec_silence()
                    }) by {
                        if c2 < c {
                            assert(ctx.chan(c2) == pre_chans[c2]);
                            assert(pre_chans[c2][i2] == (if c2 < self.spec_root_count() {
                                self.root_chan(c2)[i2]
                            } else {
                                S::spec_silence()
                            }));
                        } else {
                            assert(ctx.chan(c as int)[i2] == sl@[i2]);
                        }
                    }
                }
            } else {
                let mut i: usize = 0;
                while i < frames
                    invariant
                        i <= frames,
                        c < nchan,
                        nchan == ctx.spec_channels(),
                        ctx.wf(),
                        ctx.spec_frames() == frames,
                        ctx.spec_channels() == old(ctx).spec_channels(),
                        ctx.spec_rate() == old(ctx).spec_rate(),
                        pre_chans.len() == nchan,
                        forall|c2: int|
                            0 <= c2 < nchan && c2 != c ==> #[trigger] ctx.chan(c2) == pre_chans[c2],
                        forall|j: int|
                            0 <= j < i ==> (#[trigger] ctx.chan(c as int)[j]) == S::spec_silence(),
                    decreases frames - i,
                {
                    let ghost before = *ctx;
                    ctx.store(c, i, S::silence());
                    proof {
                        before.lemma_chan_len(c as int);
                        ctx.lemma_chan_len(c as int);
                        assert(ctx.chan(c as int) == before.chan(c as int).update(
                            i as int,
                            S::spec_silence(),
                        ));
                        assert forall|j: int| 0 <= j < i + 1 implies (#[trigger] ctx.chan(
                            c as int,
                        )[j]) == S::spec_silence() by {
                            if j < i {
                                assert(before.chan(c as int)[j] == S::spec_silence());
                            }
                        }
                        assert forall|c2: int| 0 <= c2 < nchan && c2 != c implies #[trigger] ctx.chan(
                            c2,
                        ) == pre_chans[c2] by {
                            assert(before.chan(c2) == pre_chans[c2]);
                        }
                    }
                    i = i + 1;
                }
                proof {
                    assert forall|c2: int, i2: int|
                        0 <= c2 < c + 1 && 0 <= i2 < frames implies (#[trigger] ctx.chan(
                        c2,
                    )[i2]) == (if c2 < self.spec_root_count() {
                        self.root_chan(c2)[i2]
                    } else {
                        S::spec_silence()
                    }) by {
                        if c2 < c {
                            assert(ctx.chan(c2) == pre_chans[c2]);
                            assert(pre_chans[c2][i2] == (if c2 < self.spec_root_count() {
                                self.root_chan(c2)[i2]
                            } else {
                                S::spec_silence()
                            }));
                        } else {
                            assert(ctx.chan(c as int)[i2] == S::spec_silence());
                        }
                    }
                }
            }
            c = c + 1;
        }
    }
}

/// Copy a port-to-buffer binding list.
fn copy_io_list(v: &Vec<(u64, usize)>) -> (r: Vec<(u64, usize)>)
    ensures
        r@ == v@,
{
    let mut r: Vec<(u64, usize)> = Vec::new();
    let mut i: usize = 0;
    while i < v.len()
        invariant
            i <= v@.len(),
            r@ == v@.take(i as int),
        decreases v@.len() - i,
    {
        let (p, b) = v[i];
        r.push((p, b));
        proof {
            assert(r@ =~= v@.take(i + 1));
        }
        i = i + 1;
    }
    proof {
        assert(v@.take(v@.len() as int) =~= v@);
    }
    r
}

/// Whether some binding of the list names buffer `bi`.
fn io_list_has_buffer(v: &Vec<(u64, usize)>, bi: usize) -> (r: bool)
    ensures
        r == exists|i: int| 0 <= i < v@.len() && (#[trigger] v@[i]).1 == bi,
{
    let mut i: usize = 0;
    while i < v.len()
        invariant
            i <= v@.len(),
            forall|j: int| 0 <= j < i ==> (#[trigger] v@[j]).1 != bi,
        decreases v@.len() - i,
    {
        if v[i].1 == bi {
            return true;
        }
        i = i + 1;
    }
    false
}

/// The allocation bound the scheduler asks of port widths: with blocks of
/// at most `MAX_DELAY_SIZE` frames, every buffer then fits comfortably in
/// address space.
pub open spec fn ports_bounded(g: Map<u64, crate::graph::NodeView>) -> bool {
    &&& (forall|n: u64, i: int|
        g.dom().contains(n) && 0 <= i < g[n].inputs.len() ==> (#[trigger] g[n].inputs[i]).count
            <= 0x10000)
    &&& (forall|n: u64, i: int|
        g.dom().contains(n) && 0 <= i < g[n].outputs.len() ==> (#[trigger] g[n].outputs[i]).count
            <= 0x10000)
}

/// The graph nodes the entries stand for, stages left out, in plan order.
pub open spec fn node_seq(s: Seq<ScheduleEntry>) -> Seq<u64>
    decreases s.len(),
{
    if s.len() == 0 {
        Seq::empty()
    } else {
        let rest = node_seq(s.drop_last());
        if s.last().is_stage {
            rest
        } else {
            rest.push(s.last().node)
        }
    }
}

proof fn lemma_node_seq_push(s: Seq<ScheduleEntry>, e: ScheduleEntry)
    ensures
        !e.is_stage ==> node_seq(s.push(e)) == node_seq(s).push(e.node),
        e.is_stage ==> node_seq(s.push(e)) == node_seq(s),
{
    assert(s.push(e).drop_last() =~= s);
    assert(s.push(e).last() == e);
}

/// An emission order is topological: every dependency of an emitted node
/// is emitted strictly earlier.
pub open spec fn topo_sorted(g: Map<u64, crate::graph::NodeView>, order: Seq<u64>) -> bool {
    forall|k: int, j: int|
        0 <= k < order.len() && 0 <= j < g[order[k]].deps.len() ==> order.take(k).contains(
            (#[trigger] g[order[k]].deps[j]).node,
        )
}

/// Saturating sum of two frame counts.
pub open spec fn sat_add_spec(a: u64, b: u64) -> u64 {
    if a + b > u64::MAX {
        u64::MAX
    } else {
        (a + b) as u64
    }
}

/// The declared latency of a node: the caller's entry, or zero.
pub open spec fn lat_of(lat: Map<u64, u64>, n: u64) -> u64 {
    if lat.dom().contains(n) {
        lat[n]
    } else {
        0
    }
}

/// Greatest accumulated latency among the first `j` dependencies of `n`.
pub open spec fn deps_max_to(
    g: Map<u64, crate::graph::NodeView>,
    n: u64,
    acc: Map<u64, u64>,
    j: int,
) -> u64
    decreases j,
{
    if j <= 0 {
        0
    } else if acc[g[n].deps[j - 1].node] > deps_max_to(g, n, acc, j - 1) {
        acc[g[n].deps[j - 1].node]
    } else {
        deps_max_to(g, n, acc, j - 1)
    }
}

/// The arrival bound of a node: the greatest accumulated latency among
/// everything feeding it.
pub open spec fn arriving_of(
    g: Map<u64, crate::graph::NodeView>,
    n: u64,
    acc: Map<u64, u64>,
) -> u64 {
    deps_max_to(g, n, acc, g[n].deps.len() as int)
}

/// The latency records satisfy the propagation equations: for every
/// emitted node, `arr` is the arrival bound over its dependencies and
/// `acc` adds the node's own latency.
pub open spec fn latency_fixpoint(
    g: Map<u64, crate::graph::NodeView>,
    order: Seq<u64>,
    acc: Map<u64, u64>,
    arr: Map<u64, u64>,
    lat: Map<u64, u64>,
) -> bool {
    forall|k: int|
        0 <= k < order.len() ==> arr[#[trigger] order[k]] == arriving_of(g, order[k], acc)
            && acc[order[k]] == sat_add_spec(arr[order[k]], lat_of(lat, order[k]))
}

/// The arrival bound only looks at the dependencies' records, so it is
/// stable under extending the record map.
proof fn lemma_deps_max_stable(
    g: Map<u64, crate::graph::NodeView>,
    n: u64,
    acc1: Map<u64, u64>,
    acc2: Map<u64, u64>,
    j: int,
)
    requires
        forall|x: u64| #[trigger] acc1.dom().contains(x) ==> acc2.dom().contains(x) && acc2[x]
            == acc1[x],
        forall|j2: int|
            0 <= j2 < j ==> acc1.dom().contains((#[trigger] g[n].deps[j2]).node),
    ensures
        deps_max_to(g, n, acc2, j) == deps_max_to(g, n, acc1, j),
    decreases j,
{
    if j > 0 {
        lemma_deps_max_stable(g, n, acc1, acc2, j - 1);
        assert(acc1.dom().contains(g[n].deps[j - 1].node));
    }
}

/// With every node latency zero, the propagation equations force every
/// arrival bound and accumulated latency of the emitted order to zero.
proof fn lemma_zero_latency_records(
    g: Map<u64, crate::graph::NodeView>,
    order: Seq<u64>,
    acc: Map<u64, u64>,
    arr: Map<u64, u64>,
    lat: Map<u64, u64>,
    j: int,
)
    requires
        topo_sorted(g, order),
        latency_fixpoint(g, order, acc, arr, lat),
        forall|n: u64| #[trigger] lat_of(lat, n) == 0,
        0 <= j <= order.len(),
    ensures
        forall|k: int| 0 <= k < j ==> acc[#[trigger] order[k]] == 0 && arr[order[k]] == 0,
    decreases j,
{
    if j > 0 {
        lemma_zero_latency_records(g, order, acc, arr, lat, j - 1);
        let k = j - 1;
        let n = order[k];
        assert(arr[n] == arriving_of(g, n, acc));
        lemma_deps_max_zero(g, order, acc, n, k, g[n].deps.len() as int);
        assert(lat_of(lat, n) == 0);
        assert(acc[n] == sat_add_spec(arr[n], lat_of(lat, n)));
        assert forall|k2: int| 0 <= k2 < j implies acc[#[trigger] order[k2]] == 0 && arr[order[k2]]
            == 0 by {
            if k2 < j - 1 {
            }
        }
    }
}

/// The arrival bound over dependencies whose records are all zero is
/// zero.
proof fn lemma_deps_max_zero(
    g: Map<u64, crate::graph::NodeView>,
    order: Seq<u64>,
    acc: Map<u64, u64>,
    n: u64,
    k: int,
    jj: int,
)
    requires
        topo_sorted(g, order),
        0 <= k < order.len(),
        order[k] == n,
        0 <= jj <= g[n].deps.len(),
        forall|k2: int| 0 <= k2 < k ==> acc[#[trigger] order[k2]] == 0,
    ensures
        deps_max_to(g, n, acc, jj) == 0,
    decreases jj,
{
    if jj > 0 {
        lemma_deps_max_zero(g, order, acc, n, k, jj - 1);
        let y = g[n].deps[jj - 1].node;
        assert(order.take(k).contains(y));
        let m = choose|m: int| 0 <= m < order.take(k).len() && order.take(k)[m] == y;
        assert(order[m] == y);
        assert(acc[y] == 0);
    }
}

/// Reachability along dependencies is transitive.
proof fn lemma_reach_trans(g: Map<u64, crate::graph::NodeView>, a: u64, b: u64, c: u64)
    requires
        crate::graph::reaches_up(g, a, b),
        crate::graph::reaches_up(g, b, c),
    ensures
        crate::graph::reaches_up(g, a, c),
{
    assert forall|s: Set<u64>| #[trigger] crate::graph::dep_closed(g, s) && s.contains(a) implies s
        .contains(c) by {
        assert(s.contains(b));
    }
}

/// The compensation a two-input node asks of its feeds: the later feed
/// needs none, the earlier one exactly the difference of the two
/// accumulated latencies. The accumulated latency of a chain is the sum
/// of its nodes' latencies by the propagation equations, so for two
/// chains this is the difference of the path latencies.
pub proof fn lemma_latency_compensation(
    g: Map<u64, crate::graph::NodeView>,
    order: Seq<u64>,
    acc: Map<u64, u64>,
    arr: Map<u64, u64>,
    lat: Map<u64, u64>,
    k: int,
)
    requires
        latency_fixpoint(g, order, acc, arr, lat),
        0 <= k < order.len(),
        g[order[k]].deps.len() == 2,
    ensures
        ({
            let d = order[k];
            let a1 = acc[g[d].deps[0].node];
            let a2 = acc[g[d].deps[1].node];
            let delta1 = if arr[d] < a1 { 0u64 } else { (arr[d] - a1) as u64 };
            let delta2 = if arr[d] < a2 { 0u64 } else { (arr[d] - a2) as u64 };
            &&& (delta1 == 0 || delta2 == 0)
            &&& (a1 >= a2 ==> delta1 == 0 && delta2 == a1 - a2)
            &&& (a2 >= a1 ==> delta2 == 0 && delta1 == a2 - a1)
        }),
{
    let d = order[k];
    assert(arr[d] == arriving_of(g, d, acc));
    assert(deps_max_to(g, d, acc, 2) == if acc[g[d].deps[1].node] > deps_max_to(g, d, acc, 1) {
        acc[g[d].deps[1].node]
    } else {
        deps_max_to(g, d, acc, 1)
    });
    assert(deps_max_to(g, d, acc, 0) == 0);
    assert(deps_max_to(g, d, acc, 1) == if acc[g[d].deps[0].node] > deps_max_to(g, d, acc, 0) {
        acc[g[d].deps[0].node]
    } else {
        deps_max_to(g, d, acc, 0)
    });
}

/// Each transfer stage in the lists realizes its edge's compensation
/// relative to the latency records: a delay stage carries exactly
/// `arr[target] - acc[producer]` frames (necessarily positive), anything
/// else stands only where that difference is zero.
pub open spec fn stages_match<S: Sample>(
    entries: Seq<ScheduleEntry>,
    procs: Seq<BlockProcessor<S>>,
    acc: Map<u64, u64>,
    arr: Map<u64, u64>,
) -> bool {
    forall|i: int|
        0 <= i < entries.len() && i < procs.len() && (#[trigger] entries[i]).is_stage ==> (
        match procs[i] {
            BlockProcessor::Delay(d) => d.spec_delay() as u64 == sat_sub_spec(
                arr[entries[i].stage_target],
                acc[entries[i].node],
            ) && sat_sub_spec(arr[entries[i].stage_target], acc[entries[i].node]) > 0,
            _ => sat_sub_spec(arr[entries[i].stage_target], acc[entries[i].node]) == 0,
        })
}

/// The compensation an emitted edge from producer `n` into consumer
/// `target` asks for.
pub open spec fn edge_delta(acc: Map<u64, u64>, arr: Map<u64, u64>, n: u64, target: u64) -> u64 {
    sat_sub_spec(arr[target], acc[n])
}

/// Entry `i` of the plan is a delay stage from producer `n` into consumer
/// `target` carrying exactly `delta` frames.
pub open spec fn stage_covers<S: Sample>(
    entries: Seq<ScheduleEntry>,
    procs: Seq<BlockProcessor<S>>,
    i: int,
    n: u64,
    target: u64,
    delta: u64,
) -> bool {
    &&& 0 <= i < entries.len()
    &&& i < procs.len()
    &&& entries[i].is_stage
    &&& entries[i].node == n
    &&& entries[i].stage_target == target
    &&& (procs[i] matches BlockProcessor::Delay(d) && d.spec_delay() as u64 == delta)
}

/// Every emitted edge that needs compensation has a delay stage carrying
/// exactly its skew: for each non-root emitted node and each of its
/// emitted consumers whose arrival bound exceeds the producer's
/// accumulated latency, some stage covers the edge.
pub open spec fn stages_complete<S: Sample>(
    g: Map<u64, crate::graph::NodeView>,
    order: Seq<u64>,
    entries: Seq<ScheduleEntry>,
    procs: Seq<BlockProcessor<S>>,
    acc: Map<u64, u64>,
    arr: Map<u64, u64>,
) -> bool {
    forall|k: int, j: int|
        0 <= k < order.len() - 1 && 0 <= j < g[order[k]].dependents.len() && acc.dom().contains(
            (#[trigger] g[order[k]].dependents[j]).node,
        ) && edge_delta(acc, arr, order[k], g[order[k]].dependents[j].node) > 0 ==> exists|i: int|
            #[trigger] stage_covers(
                entries,
                procs,
                i,
                order[k],
                g[order[k]].dependents[j].node,
                edge_delta(acc, arr, order[k], g[order[k]].dependents[j].node),
            )
}

/// Some binding in the list names port `p`.
pub open spec fn binds_port(outs: Seq<(u64, usize)>, p: u64) -> bool {
    exists|w: int| 0 <= w < outs.len() && (#[trigger] outs[w]).0 == p
}

/// Every emitted node other than the root has, in its plan entry, an
/// output binding for each output port that feeds an emitted consumer:
/// no produced signal is left without a buffer.
pub open spec fn outputs_bound(
    g: Map<u64, crate::graph::NodeView>,
    order: Seq<u64>,
    entries: Seq<ScheduleEntry>,
    acc: Map<u64, u64>,
) -> bool {
    forall|k: int, j: int|
        0 <= k < order.len() - 1 && 0 <= j < g[order[k]].dependents.len() && acc.dom().contains(
            (#[trigger] g[order[k]].dependents[j]).node,
        ) ==> exists|i: int|
            0 <= i < entries.len() && !(#[trigger] entries[i]).is_stage && entries[i].node
                == order[k] && binds_port(entries[i].outputs@, g[order[k]].dependents[j].local_port)
}

/// Every stage entry of a plan reads exactly one buffer and writes
/// exactly one, and the buffer it reads is one of the producing node's
/// own output bindings: the stage taps the producer's signal as written,
/// it is not fed separately.
pub open spec fn stage_input_shared(entries: Seq<ScheduleEntry>) -> bool {
    forall|i: int|
        0 <= i < entries.len() && (#[trigger] entries[i]).is_stage ==> entries[i].inputs@.len()
            == 1 && entries[i].outputs@.len() == 1 && exists|pe: int|
            0 <= pe < entries.len() && !(#[trigger] entries[pe]).is_stage && entries[pe].node
                == entries[i].node && entries[pe].outputs@.contains(entries[i].inputs@[0])
}

/// Some port among the first `upto` of the list carries identity `p`.
pub open spec fn port_seen(ids: Seq<PortHandle>, upto: int, p: u64) -> bool {
    exists|q: int| 0 <= q < upto && (#[trigger] ids[q]).0 == p
}

/// Entry `i` of the plan copies a collected stage record and carries its
/// processor.
pub open spec fn entry_copied<S: Sample>(
    entries: Seq<ScheduleEntry>,
    procs: Seq<BlockProcessor<S>>,
    i: int,
    se: ScheduleEntry,
    sp: BlockProcessor<S>,
) -> bool {
    &&& 0 <= i < entries.len()
    &&& i < procs.len()
    &&& entries[i].is_stage == se.is_stage
    &&& entries[i].node == se.node
    &&& entries[i].stage_target == se.stage_target
    &&& entries[i].inputs@ == se.inputs@
    &&& entries[i].outputs@ == se.outputs@
    &&& procs[i] == sp
}

/// The bookkeeping of the topological walk is consistent: emitted nodes
/// exist, appear once, latency records exist for exactly them, and every
/// dependency of an emitted node is emitted.
pub open spec fn walk_ok(
    g: Map<u64, crate::graph::NodeView>,
    order: Seq<u64>,
    acc: Map<u64, u64>,
    arr: Map<u64, u64>,
) -> bool {
    &&& order.no_duplicates()
    &&& (forall|k: int| 0 <= k < order.len() ==> g.dom().contains(#[trigger] order[k]))
    &&& (forall|k: int| 0 <= k < order.len() ==> acc.dom().contains(#[trigger] order[k]))
    &&& (forall|k: int| 0 <= k < order.len() ==> arr.dom().contains(#[trigger] order[k]))
    &&& (forall|x: u64| #[trigger] acc.dom().contains(x) ==> order.contains(x))
    &&& (forall|x: u64| #[trigger] arr.dom().contains(x) ==> order.contains(x))
    &&& (forall|k: int, j: int|
        0 <= k < order.len() && 0 <= j < g[order[k]].deps.len() ==> acc.dom().contains(
            (#[trigger] g[order[k]].deps[j]).node,
        ))
    &&& topo_sorted(g, order)
}

impl Graph {
    /// Visit `node` after all of its dependencies, recording arrival and
    /// accumulated latency and appending it to the topological order.
    fn visit_node(
        &self,
        node: u64,
        order: &mut Vec<u64>,
        acc: &mut HashMap<u64, u64>,
        arr: &mut HashMap<u64, u64>,
        latency: &HashMap<u64, u64>,
        Ghost(r0): Ghost<Map<u64, nat>>,
    )
        requires
            graph_wf(self@),
            crate::graph::rank_ok(self@, r0),
            self@.dom().contains(node),
            walk_ok(self@, old(order)@, old(acc)@, old(arr)@),
            latency_fixpoint(self@, old(order)@, old(acc)@, old(arr)@, latency@),
        ensures
            walk_ok(self@, final(order)@, final(acc)@, final(arr)@),
            latency_fixpoint(self@, final(order)@, final(acc)@, final(arr)@, latency@),
            old(order)@.is_prefix_of(final(order)@),
            forall|x: u64|
                #[trigger] old(acc)@.dom().contains(x) ==> final(acc)@.dom().contains(x) && final(acc)@[x] == old(acc)@[x],
            forall|x: u64|
                #[trigger] old(arr)@.dom().contains(x) ==> final(arr)@.dom().contains(x) && final(arr)@[x] == old(arr)@[x],
            forall|x: u64|
                #[trigger] final(acc)@.dom().contains(x) && !old(acc)@.dom().contains(x)
                    ==> r0[x] <= r0[node],
            forall|x: u64|
                #[trigger] final(acc)@.dom().contains(x) && !old(acc)@.dom().contains(x)
                    ==> crate::graph::reaches_up(self@, node, x),
            final(acc)@.dom().contains(node),
            old(acc)@.dom().contains(node) ==> final(order)@ == old(order)@ && final(acc)@ == old(acc)@ && final(arr)@ == old(arr)@,
            !old(acc)@.dom().contains(node) ==> final(order)@.len() > 0 && final(order)@.last()
                == node,
        decreases r0[node],
    {
        if acc.contains_key(&node) {
            return ;
        }
        let deps: Vec<Edge> = self.deps_of(node);
        let mut arriving: u64 = 0;
        let mut i: usize = 0;
        while i < deps.len()
            invariant
                graph_wf(self@),
                crate::graph::rank_ok(self@, r0),
                self@.dom().contains(node),
                deps@ == self@[node].deps,
                i <= deps@.len(),
                walk_ok(self@, order@, acc@, arr@),
                latency_fixpoint(self@, order@, acc@, arr@, latency@),
                old(order)@.is_prefix_of(order@),
                forall|x: u64|
                    #[trigger] old(acc)@.dom().contains(x) ==> acc@.dom().contains(x) && acc@[x]
                        == old(acc)@[x],
                forall|x: u64|
                    #[trigger] old(arr)@.dom().contains(x) ==> arr@.dom().contains(x) && arr@[x]
                        == old(arr)@[x],
                forall|x: u64|
                    #[trigger] acc@.dom().contains(x) && !old(acc)@.dom().contains(x) ==> r0[x]
                        < r0[node],
                forall|x: u64|
                    #[trigger] acc@.dom().contains(x) && !old(acc)@.dom().contains(x)
                        ==> crate::graph::reaches_up(self@, node, x),
                !acc@.dom().contains(node),
                forall|j: int| 0 <= j < i ==> acc@.dom().contains((#[trigger] deps@[j]).node),
            decreases deps@.len() - i,
        {
            let e: Edge = deps[i];
            proof {
                assert(self@[node].deps[i as int] == e);
                assert(self@.dom().contains(e.node));
                assert(r0[e.node] < r0[node]);
            }
            let ghost acc_before = acc@;
            self.visit_node(e.node, order, acc, arr, latency, Ghost(r0));
            proof {
                if !acc@.dom().contains(node) {
                } else {
                    assert(r0[node] <= r0[e.node]);
                    assert(false);
                }
                crate::graph::lemma_reach_self(self@, node);
                crate::graph::lemma_reach_one_step(self@, node, i as int);
                assert forall|x: u64|
                    #[trigger] acc@.dom().contains(x) && !old(acc)@.dom().contains(x) implies
                    crate::graph::reaches_up(self@, node, x) by {
                    if acc_before.dom().contains(x) {
                    } else {
                        assert(crate::graph::reaches_up(self@, e.node, x));
                        lemma_reach_trans(self@, node, e.node, x);
                    }
                }
            }
            i = i + 1;
        }
        let mut j: usize = 0;
        while j < deps.len()
            invariant
                j <= deps@.len(),
                deps@ == self@[node].deps,
                forall|k: int| 0 <= k < deps@.len() ==> acc@.dom().contains(
                    (#[trigger] deps@[k]).node,
                ),
                arriving == deps_max_to(self@, node, acc@, j as int),
            decreases deps@.len() - j,
        {
            let e: Edge = deps[j];
            proof {
                assert(acc@.dom().contains((deps@[j as int]).node));
            }
            let a: u64 = match acc.get(&e.node) {
                Some(v) => *v,
                None => 0,
            };
            if a > arriving {
                arriving = a;
            }
            j = j + 1;
        }
        let lat: u64 = match latency.get(&node) {
            Some(v) => *v,
            None => 0,
        };
        let total: u64 = if lat > u64::MAX - arriving {
            u64::MAX
        } else {
            arriving + lat
        };
        let ghost pre_order = order@;
        let ghost pre_acc = acc@;
        let ghost pre_arr = arr@;
        proof {
            assert(arriving == arriving_of(self@, node, pre_acc));
            assert(total == sat_add_spec(arriving, lat_of(latency@, node)));
        }
        arr.insert(node, arriving);
        let _ = acc.insert(node, total);
        order.push(node);
        proof {
            assert forall|k2: int| 0 <= k2 < order@.len() implies arr@[#[trigger] order@[k2]]
                == arriving_of(self@, order@[k2], acc@) && acc@[order@[k2]] == sat_add_spec(
                arr@[order@[k2]],
                lat_of(latency@, order@[k2]),
            ) by {
                let m = order@[k2];
                if k2 < order@.len() - 1 {
                    assert(m == pre_order[k2]);
                    assert(pre_acc.dom().contains(m));
                    assert(m != node);
                    assert(arr@[m] == pre_arr[m] && acc@[m] == pre_acc[m]);
                    assert forall|j2: int|
                        0 <= j2 < self@[m].deps.len() implies pre_acc.dom().contains(
                        (#[trigger] self@[m].deps[j2]).node,
                    ) by {
                        assert(pre_acc.dom().contains(self@[pre_order[k2]].deps[j2].node));
                    }
                    lemma_deps_max_stable(
                        self@,
                        m,
                        pre_acc,
                        acc@,
                        self@[m].deps.len() as int,
                    );
                } else {
                    assert(m == node);
                    assert(arr@[node] == arriving && acc@[node] == total);
                    assert forall|j2: int|
                        0 <= j2 < self@[node].deps.len() implies pre_acc.dom().contains(
                        (#[trigger] self@[node].deps[j2]).node,
                    ) by {
                    }
                    lemma_deps_max_stable(
                        self@,
                        node,
                        pre_acc,
                        acc@,
                        self@[node].deps.len() as int,
                    );
                }
            }
        }
        proof {
            crate::graph::lemma_reach_self(self@, node);
            assert(order@ == pre_order.push(node));
            assert(order@.last() == node);
            assert(pre_order.is_prefix_of(order@)) by {
                assert(order@.take(pre_order.len() as int) =~= pre_order);
            }
            assert(order@.no_duplicates()) by {
                assert forall|a: int, b: int|
                    0 <= a < order@.len() && 0 <= b < order@.len() && a != b implies order@[a]
                    != order@[b] by {
                    if a < order@.len() - 1 && b < order@.len() - 1 {
                    } else if a < order@.len() - 1 {
                        assert(order@[b] == node);
                        assert(acc@.dom().contains(order@[a])) by {
                            assert(pre_acc.dom().contains(pre_order[a]));
                        }
                        if order@[a] == node {
                            assert(pre_acc.dom().contains(node));
                        }
                    } else if b < order@.len() - 1 {
                        assert(order@[a] == node);
                        if order@[b] == node {
                            assert(pre_acc.dom().contains(node));
                        }
                    }
                }
            }
            assert forall|k: int, j2: int|
                0 <= k < order@.len() && 0 <= j2 < self@[order@[k]].deps.len() implies acc@.dom()
                .contains((#[trigger] self@[order@[k]].deps[j2]).node) by {
                if k < order@.len() - 1 {
                    assert(pre_acc.dom().contains(self@[pre_order[k]].deps[j2].node));
                } else {
                    assert(order@[k] == node);
                    assert(pre_acc.dom().contains(self@[node].deps[j2].node));
                }
            }
            assert forall|k: int, j2: int|
                0 <= k < order@.len() && 0 <= j2 < self@[order@[k]].deps.len() implies order@.take(
                k,
            ).contains((#[trigger] self@[order@[k]].deps[j2]).node) by {
                let y = self@[order@[k]].deps[j2].node;
                if k < order@.len() - 1 {
                    assert(pre_order.take(k).contains(y));
                    assert(order@.take(k) =~= pre_order.take(k));
                } else {
                    assert(order@[k] == node);
                    assert(pre_acc.dom().contains(y));
                    assert(pre_order.contains(y));
                    assert(order@.take(k) =~= pre_order);
                }
            }
        }
    }
}

/// Bindings valid for a shorter buffer list are valid for a longer one.
proof fn lemma_io_valid_mono(io: Seq<(u64, usize)>, a: int, b: int)
    requires
        io_valid(io, a),
        a <= b,
    ensures
        io_valid(io, b),
{
}

/// Every recorded input-port binding points into the buffer list.
pub open spec fn assigned_ok(a: Map<u64, Vec<(u64, usize)>>, n: int) -> bool {
    forall|d: u64, j: int|
        a.dom().contains(d) && 0 <= j < a[d]@.len() ==> (#[trigger] a[d]@[j]).1 < n
}

/// `a - b`, floored at zero.
pub open spec fn sat_sub_spec(a: u64, b: u64) -> u64 {
    if a < b {
        0u64
    } else {
        (a - b) as u64
    }
}

/// `a - b`, floored at zero.
fn sat_sub(a: u64, b: u64) -> (r: u64)
    ensures
        r == sat_sub_spec(a, b),
{
    if a < b {
        0
    } else {
        a - b
    }
}

/// How many edges of the list end at local port `p`.
fn count_local(v: &Vec<Edge>, p: u64) -> usize {
    let mut count: usize = 0;
    let mut i: usize = 0;
    while i < v.len()
        invariant
            i <= v@.len(),
            count <= i,
        decreases v@.len() - i,
    {
        if v[i].local_port == p {
            count = count + 1;
        }
        i = i + 1;
    }
    count
}

/// Get (or create and record) the buffer of one consumer input port: a
/// summing buffer where several edges meet, plain storage otherwise.
fn ensure_input_buffer<S: Sample>(
    g: &Graph,
    assigned: &mut HashMap<u64, Vec<(u64, usize)>>,
    buffers: &mut Vec<GraphBuffer<S>>,
    dn: u64,
    dp: u64,
    sum: bool,
    max_buffer_size: usize,
) -> (r: usize)
    requires
        graph_wf(g@),
        g@.dom().contains(dn),
        ports_bounded(g@),
        1 <= max_buffer_size <= MAX_DELAY_SIZE,
        buffers_wf(old(buffers)@, max_buffer_size),
        assigned_ok(old(assigned)@, old(buffers)@.len() as int),
    ensures
        buffers_wf(final(buffers)@, max_buffer_size),
        final(buffers)@.len() >= old(buffers)@.len(),
        r < final(buffers)@.len(),
        assigned_ok(final(assigned)@, final(buffers)@.len() as int),
{
    let existing: Option<usize> = match assigned.get(&dn) {
        Some(lst) => {
            let mut found: Option<usize> = None;
            let mut i: usize = 0;
            while i < lst.len()
                invariant
                    i <= lst@.len(),
                    assigned@.dom().contains(dn),
                    lst@ == assigned@[dn]@,
                    assigned_ok(assigned@, buffers@.len() as int),
                    found matches Some(x) ==> x < buffers@.len(),
                decreases lst@.len() - i,
            {
                if lst[i].0 == dp {
                    proof {
                        assert(assigned@[dn]@[i as int].1 < buffers@.len());
                    }
                    found = Some(lst[i].1);
                }
                i = i + 1;
            }
            found
        },
        None => None,
    };
    match existing {
        Some(idx) => idx,
        None => {
            let config: ChannelConfiguration = match g.port_config(Direction::Input, dn, dp) {
                Some(c) => c,
                None => crate::config::mono(),
            };
            proof {
                if has_port(g@[dn].inputs, dp) {
                    let pi = crate::graph::port_idx(g@[dn].inputs, dp);
                    assert(g@[dn].inputs[pi].count <= 0x10000);
                }
                assert(config.spec_count() <= 0x10000);
                assert(config.spec_count() * max_buffer_size <= 0x10000 * 4096)
                    by (nonlinear_arith)
                    requires
                        config.spec_count() <= 0x10000,
                        max_buffer_size <= 4096,
                ;
            }
            let b: GraphBuffer<S> = if sum {
                GraphBuffer::Sum(SumBuffer::new(config, max_buffer_size))
            } else {
                GraphBuffer::Simple(SimpleBuffer::new(config, max_buffer_size))
            };
            let ghost pre_bufs = buffers@;
            buffers.push(b);
            let idx: usize = buffers.len() - 1;
            let mut lst: Vec<(u64, usize)> = match assigned.remove(&dn) {
                Some(l) => l,
                None => Vec::new(),
            };
            let ghost pre_assigned = assigned@;
            lst.push((dp, idx));
            assigned.insert(dn, lst);
            proof {
                assert forall|i: int| 0 <= i < buffers@.len() implies (
                #[trigger] buffers@[i]).wf() && buffers@[i].spec_frames() == max_buffer_size by {
                    if i < pre_bufs.len() {
                        assert(buffers@[i] == pre_bufs[i]);
                    }
                }
                assert forall|d: u64, j: int|
                    assigned@.dom().contains(d) && 0 <= j < assigned@[d]@.len() implies (
                #[trigger] assigned@[d]@[j]).1 < buffers@.len() by {
                    if d != dn {
                        assert(pre_assigned.dom().contains(d) && pre_assigned[d]@ == assigned@[d]@);
                        assert(old(assigned)@[d]@[j].1 < pre_bufs.len());
                    } else {
                        if j < assigned@[dn]@.len() - 1 {
                            assert(old(assigned)@.dom().contains(dn) ==> old(assigned)@[dn]@[j].1
                                < pre_bufs.len());
                        }
                    }
                }
            }
            idx
        },
    }
}

impl Graph {
    /// Compile the graph into an execution plan rooted at `root`: entries
    /// in topological order, one buffer per connected port, a summing
    /// buffer where several edges meet an input, a shared buffer where one
    /// producer feeds one plain consumer, and a copy or delay stage for
    /// every other edge (the delay realizing that edge's latency
    /// compensation). Fails with `NodeDoesNotExist` when the root is
    /// missing and with `DelayExceedsCapacity` when a compensation exceeds
    /// the delay line.
    #[verifier::rlimit(60)]
    #[verifier::spinoff_prover]
    pub fn reschedule<S: Sample>(
        &self,
        root: NodeHandle,
        latency: &HashMap<u64, u64>,
        max_buffer_size: usize,
    ) -> (r: Result<Schedule<S>, Error>)
        requires
            graph_wf(self@),
            ports_bounded(self@),
            1 <= max_buffer_size <= MAX_DELAY_SIZE,
        ensures
            !self@.dom().contains(root.0) ==> r == Result::<Schedule<S>, Error>::Err(
                Error::NodeDoesNotExist,
            ),
            r matches Ok(s) ==> s.wf() && s.spec_frames() == max_buffer_size && s.spec_last_node()
                == root.0,
            r matches Ok(s) ==> (s.spec_entries().last().outputs@.len() > 0
                ==> s.spec_entries().last().outputs@[0].1 == s.spec_root_buffer()),
            r matches Ok(s) ==> s.spec_node_order().len() >= 1 && s.spec_node_order().last()
                == root.0 && s.spec_node_order().no_duplicates() && topo_sorted(
                self@,
                s.spec_node_order(),
            ) && (forall|k: int|
                0 <= k < s.spec_node_order().len() ==> self@.dom().contains(
                    #[trigger] s.spec_node_order()[k],
                )),
            r matches Ok(s) ==> latency_fixpoint(
                self@,
                s.spec_node_order(),
                s.spec_acc(),
                s.spec_arr(),
                latency@,
            ),
            r matches Ok(s) ==> s.spec_stage_delays_ok(),
            r matches Ok(s) ==> stages_complete(
                self@,
                s.spec_node_order(),
                s.spec_entries(),
                s.spec_processors(),
                s.spec_acc(),
                s.spec_arr(),
            ),
            r matches Ok(s) ==> stage_input_shared(s.spec_entries()),
            r matches Ok(s) ==> outputs_bound(
                self@,
                s.spec_node_order(),
                s.spec_entries(),
                s.spec_acc(),
            ),
            self@.dom().contains(root.0) && (forall|n: u64| #[trigger] lat_of(latency@, n) == 0)
                ==> r is Ok,
            r matches Ok(s) ==> forall|k: int|
                0 <= k < s.spec_node_order().len() ==> crate::graph::reaches_up(
                    self@,
                    root.0,
                    #[trigger] s.spec_node_order()[k],
                ),
            self@.dom().contains(root.0) ==> (r is Ok || r == Result::<Schedule<S>, Error>::Err(
                Error::DelayExceedsCapacity,
            )),
    {
        if !self.node_exists(root.0) {
            return Err(Error::NodeDoesNotExist);
        }
        let ghost r0 = choose|r0: Map<u64, nat>| crate::graph::rank_ok(self@, r0);
        let mut order: Vec<u64> = Vec::new();
        let mut acc: HashMap<u64, u64> = HashMap::new();
        let mut arr: HashMap<u64, u64> = HashMap::new();
        self.visit_node(root.0, &mut order, &mut acc, &mut arr, latency, Ghost(r0));
        proof {
            assert forall|k: int| 0 <= k < order@.len() implies crate::graph::reaches_up(
                self@,
                root.0,
                #[trigger] order@[k],
            ) by {
                assert(acc@.dom().contains(order@[k]));
            }
        }
        let mut buffers: Vec<GraphBuffer<S>> = Vec::new();
        let mut entries: Vec<ScheduleEntry> = Vec::new();
        let mut procs: Vec<BlockProcessor<S>> = Vec::new();
        let mut assigned: HashMap<u64, Vec<(u64, usize)>> = HashMap::new();
        let mut root_buffer: usize = 0;
        let mut have_root_buf: bool = false;
        let n_order: usize = order.len();
        let mut oi: usize = 0;
        while oi < n_order
            invariant
                graph_wf(self@),
                ports_bounded(self@),
                1 <= max_buffer_size <= MAX_DELAY_SIZE,
                n_order == order@.len(),
                n_order >= 1,
                order@.last() == root.0,
                oi <= n_order,
                walk_ok(self@, order@, acc@, arr@),
                entries@.len() == procs@.len(),
                entries@.len() >= oi,
                node_seq(entries@) == order@.take(oi as int),
                stages_match(entries@, procs@, acc@, arr@),
                buffers_wf(buffers@, max_buffer_size),
                assigned_ok(assigned@, buffers@.len() as int),
                forall|i: int|
                    0 <= i < entries@.len() ==> io_valid(
                        (#[trigger] entries@[i]).inputs@,
                        buffers@.len() as int,
                    ) && io_valid(entries@[i].outputs@, buffers@.len() as int),
                forall|i: int|
                    0 <= i < procs@.len() ==> (#[trigger] procs@[i]).wf(max_buffer_size),
                oi >= 1 ==> entries@.len() >= 1 && entries@.last().node == order@[oi - 1],
                self@.dom().contains(root.0),
                latency_fixpoint(self@, order@, acc@, arr@, latency@),
                forall|k: int|
                    0 <= k < order@.len() ==> crate::graph::reaches_up(
                        self@,
                        root.0,
                        #[trigger] order@[k],
                    ),
                oi < n_order ==> !have_root_buf,
                oi == n_order ==> have_root_buf && root_buffer < buffers@.len(),
                oi == n_order ==> (entries@.last().outputs@.len() > 0 ==> entries@.last().outputs@[0].1
                    == root_buffer),
                forall|k: int, j: int|
                    0 <= k < oi && k < n_order - 1 && 0 <= j
                        < self@[order@[k]].dependents.len() && acc@.dom().contains(
                        (#[trigger] self@[order@[k]].dependents[j]).node,
                    ) && edge_delta(acc@, arr@, order@[k], self@[order@[k]].dependents[j].node)
                        > 0 ==> exists|i: int| #[trigger] stage_covers(
                        entries@,
                        procs@,
                        i,
                        order@[k],
                        self@[order@[k]].dependents[j].node,
                        edge_delta(acc@, arr@, order@[k], self@[order@[k]].dependents[j].node),
                    ),
                stage_input_shared(entries@),
                forall|k: int, j: int|
                    0 <= k < oi && k < n_order - 1 && 0 <= j
                        < self@[order@[k]].dependents.len() && acc@.dom().contains(
                        (#[trigger] self@[order@[k]].dependents[j]).node,
                    ) ==> exists|i: int|
                        0 <= i < entries@.len() && !(#[trigger] entries@[i]).is_stage
                            && entries@[i].node == order@[k] && binds_port(
                            entries@[i].outputs@,
                            self@[order@[k]].dependents[j].local_port,
                        ),
            decreases n_order - oi,
        {
            let ghost len0 = buffers@.len() as int;
            let ghost entries_o0 = entries@;
            let ghost procs_o0 = procs@;
            proof {
                assert forall|k: int, j: int|
                    0 <= k < oi && k < n_order - 1 && 0 <= j
                        < self@[order@[k]].dependents.len() && acc@.dom().contains(
                        (#[trigger] self@[order@[k]].dependents[j]).node,
                    ) && edge_delta(acc@, arr@, order@[k], self@[order@[k]].dependents[j].node)
                        > 0 implies exists|i: int| #[trigger] stage_covers(
                    entries_o0,
                    procs_o0,
                    i,
                    order@[k],
                    self@[order@[k]].dependents[j].node,
                    edge_delta(acc@, arr@, order@[k], self@[order@[k]].dependents[j].node),
                ) by {
                    let i0 = choose|i0: int| #[trigger] stage_covers(
                        entries@,
                        procs@,
                        i0,
                        order@[k],
                        self@[order@[k]].dependents[j].node,
                        edge_delta(acc@, arr@, order@[k], self@[order@[k]].dependents[j].node),
                    );
                    assert(stage_covers(
                        entries_o0,
                        procs_o0,
                        i0,
                        order@[k],
                        self@[order@[k]].dependents[j].node,
                        edge_delta(acc@, arr@, order@[k], self@[order@[k]].dependents[j].node),
                    ));
                }
                assert forall|k: int, j: int|
                    0 <= k < oi && k < n_order - 1 && 0 <= j
                        < self@[order@[k]].dependents.len() && acc@.dom().contains(
                        (#[trigger] self@[order@[k]].dependents[j]).node,
                    ) implies exists|i: int|
                    0 <= i < entries_o0.len() && !(#[trigger] entries_o0[i]).is_stage
                        && entries_o0[i].node == order@[k] && binds_port(
                        entries_o0[i].outputs@,
                        self@[order@[k]].dependents[j].local_port,
                    ) by {
                    let i0 = choose|i0: int|
                        0 <= i0 < entries@.len() && !(#[trigger] entries@[i0]).is_stage
                            && entries@[i0].node == order@[k] && binds_port(
                            entries@[i0].outputs@,
                            self@[order@[k]].dependents[j].local_port,
                        );
                    assert(0 <= i0 < entries_o0.len() && !entries_o0[i0].is_stage
                        && entries_o0[i0].node == order@[k] && binds_port(
                        entries_o0[i0].outputs@,
                        self@[order@[k]].dependents[j].local_port,
                    ));
                }
                assert forall|i2: int|
                    0 <= i2 < entries_o0.len() && (#[trigger] entries_o0[i2]).is_stage implies
                    entries_o0[i2].inputs@.len() == 1 && entries_o0[i2].outputs@.len() == 1
                        && exists|pe: int|
                        0 <= pe < entries_o0.len() && !(#[trigger] entries_o0[pe]).is_stage
                            && entries_o0[pe].node == entries_o0[i2].node
                            && entries_o0[pe].outputs@.contains(entries_o0[i2].inputs@[0]) by {
                    assert(entries@[i2].is_stage);
                    let pe0 = choose|pe0: int|
                        0 <= pe0 < entries@.len() && !(#[trigger] entries@[pe0]).is_stage
                            && entries@[pe0].node == entries@[i2].node
                            && entries@[pe0].outputs@.contains(entries@[i2].inputs@[0]);
                    assert(!entries_o0[pe0].is_stage && entries_o0[pe0].node
                        == entries_o0[i2].node && entries_o0[pe0].outputs@.contains(
                        entries_o0[i2].inputs@[0],
                    ));
                }
            }
            let n: u64 = order[oi];
            proof {
                assert(self@.dom().contains(order@[oi as int]));
                assert(acc@.dom().contains(order@[oi as int]));
            }
            let ins: Vec<(u64, usize)> = match assigned.get(&n) {
                Some(l) => {
                    let c = copy_io_list(l);
                    proof {
                        assert forall|i: int| 0 <= i < c@.len() implies (#[trigger] c@[i]).1
                            < buffers@.len() as int by {
                            assert(assigned@[n]@[i].1 < buffers@.len());
                        }
                    }
                    c
                },
                None => Vec::new(),
            };
            let mut outs: Vec<(u64, usize)> = Vec::new();
            let mut stage_entries: Vec<ScheduleEntry> = Vec::new();
            let mut stage_procs: Vec<BlockProcessor<S>> = Vec::new();
            let out_ids: Vec<PortHandle> = match self.list_outputs(NodeHandle(n)) {
                Ok(v) => v,
                Err(_) => Vec::new(),
            };
            if oi + 1 == n_order {
                // the root: give its first output port (or a stand-in) a
                // buffer for the executor to copy out; nothing downstream
                // of the root is emitted, so no transfer stages follow it
                let config: ChannelConfiguration = if out_ids.len() > 0 {
                    match self.port_config(Direction::Output, n, out_ids[0].0) {
                        Some(c) => c,
                        None => crate::config::mono(),
                    }
                } else {
                    crate::config::mono()
                };
                proof {
                    if out_ids@.len() > 0 && has_port(self@[n].outputs, out_ids@[0].0) {
                        let pi = crate::graph::port_idx(self@[n].outputs, out_ids@[0].0);
                        assert(self@[n].outputs[pi].count <= 0x10000);
                    }
                    assert(config.spec_count() <= 0x10000);
                    assert(config.spec_count() * max_buffer_size <= 0x10000 * 4096)
                        by (nonlinear_arith)
                        requires
                            config.spec_count() <= 0x10000,
                            max_buffer_size <= 4096,
                    ;
                }
                let ghost pre_bufs = buffers@;
                buffers.push(GraphBuffer::Simple(SimpleBuffer::new(config, max_buffer_size)));
                root_buffer = buffers.len() - 1;
                have_root_buf = true;
                if out_ids.len() > 0 {
                    outs.push((out_ids[0].0, root_buffer));
                }
                proof {
                    assert(io_valid(outs@, buffers@.len() as int));
                }
                proof {
                    assert forall|i: int| 0 <= i < buffers@.len() implies (
                    #[trigger] buffers@[i]).wf() && buffers@[i].spec_frames()
                        == max_buffer_size by {
                        if i < pre_bufs.len() {
                            assert(buffers@[i] == pre_bufs[i]);
                        }
                    }
                }
            } else {
                let deps_out: Vec<Edge> = self.dependents_of(n);
                let mut pp: usize = 0;
                while pp < out_ids.len()
                    invariant
                        graph_wf(self@),
                        ports_bounded(self@),
                        1 <= max_buffer_size <= MAX_DELAY_SIZE,
                        pp <= out_ids@.len(),
                        self@.dom().contains(n),
                        self@.dom().contains(root.0),
                        deps_out@ == self@[n].dependents,
                        len0 <= buffers@.len() as int,
                        latency_fixpoint(self@, order@, acc@, arr@, latency@),
                        walk_ok(self@, order@, acc@, arr@),
                        buffers_wf(buffers@, max_buffer_size),
                        assigned_ok(assigned@, buffers@.len() as int),
                        io_valid(outs@, buffers@.len() as int),
                        stage_entries@.len() == stage_procs@.len(),
                        stages_match(stage_entries@, stage_procs@, acc@, arr@),
                        acc@.dom().contains(n),
                        forall|i: int|
                            0 <= i < stage_entries@.len() ==> io_valid(
                                (#[trigger] stage_entries@[i]).inputs@,
                                buffers@.len() as int,
                            ) && io_valid(stage_entries@[i].outputs@, buffers@.len() as int),
                        forall|i: int|
                            0 <= i < stage_procs@.len() ==> (#[trigger] stage_procs@[i]).wf(
                                max_buffer_size,
                            ),
                        forall|i: int|
                            0 <= i < stage_entries@.len() ==> (#[trigger] stage_entries@[i]).node
                                == n && stage_entries@[i].is_stage,
                        forall|j: int|
                            0 <= j < deps_out@.len() && port_seen(
                                out_ids@,
                                pp as int,
                                (#[trigger] deps_out@[j]).local_port,
                            ) && acc@.dom().contains(deps_out@[j].node) && edge_delta(
                                acc@,
                                arr@,
                                n,
                                deps_out@[j].node,
                            ) > 0 ==> exists|i: int| #[trigger] stage_covers(
                                stage_entries@,
                                stage_procs@,
                                i,
                                n,
                                deps_out@[j].node,
                                edge_delta(acc@, arr@, n, deps_out@[j].node),
                            ),
                        forall|i2: int|
                            0 <= i2 < stage_entries@.len() ==> (
                            #[trigger] stage_entries@[i2]).inputs@.len() == 1
                                && stage_entries@[i2].outputs@.len() == 1 && outs@.contains(
                                stage_entries@[i2].inputs@[0],
                            ),
                        forall|j: int|
                            0 <= j < deps_out@.len() && port_seen(
                                out_ids@,
                                pp as int,
                                (#[trigger] deps_out@[j]).local_port,
                            ) && acc@.dom().contains(deps_out@[j].node) ==> binds_port(
                                outs@,
                                deps_out@[j].local_port,
                            ),
                    decreases out_ids@.len() - pp,
                {
                    let p: u64 = out_ids[pp].0;
                    let ghost se_pp = stage_entries@;
                    let ghost sp_pp = stage_procs@;
                    let ghost outs_pp = outs@;
                    proof {
                        assert(forall|i2: int|
                            0 <= i2 < se_pp.len() ==> (#[trigger] se_pp[i2]).inputs@.len() == 1
                                && se_pp[i2].outputs@.len() == 1 && outs_pp.contains(
                                se_pp[i2].inputs@[0],
                            ));
                        assert(forall|j: int|
                            0 <= j < deps_out@.len() && port_seen(
                                out_ids@,
                                pp as int,
                                (#[trigger] deps_out@[j]).local_port,
                            ) && acc@.dom().contains(deps_out@[j].node) ==> binds_port(
                                outs_pp,
                                deps_out@[j].local_port,
                            ));
                        assert forall|j: int|
                            0 <= j < deps_out@.len() && port_seen(
                                out_ids@,
                                pp as int,
                                (#[trigger] deps_out@[j]).local_port,
                            ) && acc@.dom().contains(deps_out@[j].node) && edge_delta(
                                acc@,
                                arr@,
                                n,
                                deps_out@[j].node,
                            ) > 0 implies exists|i: int| #[trigger] stage_covers(
                            se_pp,
                            sp_pp,
                            i,
                            n,
                            deps_out@[j].node,
                            edge_delta(acc@, arr@, n, deps_out@[j].node),
                        ) by {
                            let i0 = choose|i0: int| #[trigger] stage_covers(
                                stage_entries@,
                                stage_procs@,
                                i0,
                                n,
                                deps_out@[j].node,
                                edge_delta(acc@, arr@, n, deps_out@[j].node),
                            );
                            assert(stage_covers(
                                se_pp,
                                sp_pp,
                                i0,
                                n,
                                deps_out@[j].node,
                                edge_delta(acc@, arr@, n, deps_out@[j].node),
                            ));
                        }
                    }
                    let mut candidates: Vec<Edge> = Vec::new();
                    let mut di: usize = 0;
                    while di < deps_out.len()
                        invariant
                            di <= deps_out@.len(),
                            deps_out@ == self@[n].dependents,
                            graph_wf(self@),
                            self@.dom().contains(n),
                            walk_ok(self@, order@, acc@, arr@),
                            forall|i: int|
                                0 <= i < candidates@.len() ==> self@.dom().contains(
                                    (#[trigger] candidates@[i]).node,
                                ) && acc@.dom().contains(candidates@[i].node) && arr@.dom()
                                    .contains(candidates@[i].node),
                            forall|j: int|
                                0 <= j < di && (#[trigger] deps_out@[j]).local_port == p
                                    && acc@.dom().contains(deps_out@[j].node)
                                    ==> candidates@.contains(deps_out@[j]),
                        decreases deps_out@.len() - di,
                    {
                        let ghost cand0 = candidates@;
                        let e: Edge = deps_out[di];
                        if e.local_port == p && acc.contains_key(&e.node) {
                            proof {
                                assert(self@[n].dependents[di as int] == e);
                                assert(self@.dom().contains(e.node));
                                assert(acc@.dom().contains(e.node));
                                let ki = choose|ki: int|
                                    0 <= ki < order@.len() && order@[ki] == e.node;
                                assert(arr@.dom().contains(order@[ki]));
                            }
                            candidates.push(e);
                        }
                        proof {
                            assert forall|j: int|
                                0 <= j < di + 1 && (#[trigger] deps_out@[j]).local_port == p
                                    && acc@.dom().contains(deps_out@[j].node) implies candidates@.contains(
                                deps_out@[j],
                            ) by {
                                if j < di {
                                    let q = choose|q: int|
                                        0 <= q < cand0.len() && cand0[q] == deps_out@[j];
                                    assert(candidates@[q] == deps_out@[j]);
                                } else {
                                    assert(candidates@.last() == deps_out@[j]);
                                }
                            }
                        }
                        di = di + 1;
                    }
                    let mut direct: bool = false;
                    if candidates.len() == 1 {
                        let e: Edge = candidates[0];
                        let src_acc: u64 = match acc.get(&n) {
                            Some(v) => *v,
                            None => 0,
                        };
                        let dst_arr: u64 = match arr.get(&e.node) {
                            Some(v) => *v,
                            None => 0,
                        };
                        let delta: u64 = sat_sub(dst_arr, src_acc);
                        let dst_deps: Vec<Edge> = self.deps_of(e.node);
                        let indeg: usize = count_local(&dst_deps, e.remote_port);
                        if delta == 0 && indeg == 1 {
                            proof {
                                assert(candidates@[0] == e);
                                assert(src_acc == acc@[n]);
                                assert(dst_arr == arr@[e.node]);
                                assert(edge_delta(acc@, arr@, n, candidates@[0].node) == 0);
                            }
                            let bi: usize = ensure_input_buffer(
                                self,
                                &mut assigned,
                                &mut buffers,
                                e.node,
                                e.remote_port,
                                false,
                                max_buffer_size,
                            );
                            let ghost outs_d0 = outs@;
                            outs.push((p, bi));
                            proof {
                                assert forall|w: int| 0 <= w < outs_d0.len() implies (
                                #[trigger] outs@[w]) == outs_d0[w] by {}
                                assert(outs@.last().0 == p);
                                assert(binds_port(outs@, p));
                            }
                            direct = true;
                        }
                    }
                    if !direct && candidates.len() > 0 {
                        let config: ChannelConfiguration = match self.port_config(
                            Direction::Output,
                            n,
                            p,
                        ) {
                            Some(c) => c,
                            None => crate::config::mono(),
                        };
                        proof {
                            if has_port(self@[n].outputs, p) {
                                let pi = crate::graph::port_idx(self@[n].outputs, p);
                                assert(self@[n].outputs[pi].count <= 0x10000);
                            }
                            assert(config.spec_count() <= 0x10000);
                            assert(config.spec_count() * max_buffer_size <= 0x10000 * 4096)
                                by (nonlinear_arith)
                                requires
                                    config.spec_count() <= 0x10000,
                                    max_buffer_size <= 4096,
                            ;
                        }
                        let ghost pre_bufs = buffers@;
                        buffers.push(
                            GraphBuffer::Simple(SimpleBuffer::new(config, max_buffer_size)),
                        );
                        let own: usize = buffers.len() - 1;
                        let ghost outs_c0 = outs@;
                        outs.push((p, own));
                        proof {
                            assert(outs@.last() == (p, own));
                            assert(outs@.contains((p, own)));
                            assert(binds_port(outs@, p));
                            assert forall|w: int| 0 <= w < outs_c0.len() implies (
                            #[trigger] outs@[w]) == outs_c0[w] by {}
                        }
                        proof {
                            assert forall|i: int| 0 <= i < buffers@.len() implies (
                            #[trigger] buffers@[i]).wf() && buffers@[i].spec_frames()
                                == max_buffer_size by {
                                if i < pre_bufs.len() {
                                    assert(buffers@[i] == pre_bufs[i]);
                                }
                            }
                        }
                        let mut ci: usize = 0;
                        while ci < candidates.len()
                            invariant
                                ci <= candidates@.len(),
                                graph_wf(self@),
                                ports_bounded(self@),
                                1 <= max_buffer_size <= MAX_DELAY_SIZE,
                                self@.dom().contains(n),
                                self@.dom().contains(root.0),
                                len0 <= buffers@.len() as int,
                                latency_fixpoint(self@, order@, acc@, arr@, latency@),
                                own < buffers@.len(),
                                walk_ok(self@, order@, acc@, arr@),
                                buffers_wf(buffers@, max_buffer_size),
                                assigned_ok(assigned@, buffers@.len() as int),
                                io_valid(outs@, buffers@.len() as int),
                                stage_entries@.len() == stage_procs@.len(),
                                stages_match(stage_entries@, stage_procs@, acc@, arr@),
                                acc@.dom().contains(n),
                                forall|i: int|
                                    0 <= i < candidates@.len() ==> self@.dom().contains(
                                        (#[trigger] candidates@[i]).node,
                                    ) && acc@.dom().contains(candidates@[i].node) && arr@.dom()
                                        .contains(candidates@[i].node),
                                forall|i: int|
                                    0 <= i < stage_entries@.len() ==> io_valid(
                                        (#[trigger] stage_entries@[i]).inputs@,
                                        buffers@.len() as int,
                                    ) && io_valid(stage_entries@[i].outputs@, buffers@.len() as int),
                                forall|i: int|
                                    0 <= i < stage_procs@.len() ==> (
                                    #[trigger] stage_procs@[i]).wf(max_buffer_size),
                                forall|i: int|
                                    0 <= i < stage_entries@.len() ==> (
                                    #[trigger] stage_entries@[i]).node == n
                                        && stage_entries@[i].is_stage,
                                se_pp.len() <= stage_entries@.len(),
                                sp_pp.len() <= stage_procs@.len(),
                                forall|i2: int|
                                    0 <= i2 < se_pp.len() ==> (#[trigger] stage_entries@[i2])
                                        == se_pp[i2],
                                forall|i2: int|
                                    0 <= i2 < sp_pp.len() ==> (#[trigger] stage_procs@[i2])
                                        == sp_pp[i2],
                                forall|c2: int|
                                    0 <= c2 < ci && edge_delta(
                                        acc@,
                                        arr@,
                                        n,
                                        (#[trigger] candidates@[c2]).node,
                                    ) > 0 ==> exists|i: int| #[trigger] stage_covers(
                                        stage_entries@,
                                        stage_procs@,
                                        i,
                                        n,
                                        candidates@[c2].node,
                                        edge_delta(acc@, arr@, n, candidates@[c2].node),
                                    ),
                                outs@.contains((p, own)),
                                forall|i2: int|
                                    0 <= i2 < se_pp.len() ==> (#[trigger] stage_entries@[i2]).inputs@.len()
                                        == 1 && stage_entries@[i2].outputs@.len() == 1
                                        && outs_pp.contains(stage_entries@[i2].inputs@[0]),
                                forall|i2: int|
                                    se_pp.len() <= i2 < stage_entries@.len() ==> (
                                    #[trigger] stage_entries@[i2]).inputs@.len() == 1
                                        && stage_entries@[i2].outputs@.len() == 1
                                        && stage_entries@[i2].inputs@[0] == (p, own),
                            decreases candidates@.len() - ci,
                        {
                            let e: Edge = candidates[ci];
                            let ghost se_ci = stage_entries@;
                            let ghost sp_ci = stage_procs@;
                            proof {
                                assert(candidates@[ci as int] == e);
                                assert(acc@.dom().contains(e.node) && arr@.dom().contains(e.node));
                            }
                            let src_acc: u64 = match acc.get(&n) {
                                Some(v) => *v,
                                None => 0,
                            };
                            let dst_arr: u64 = match arr.get(&e.node) {
                                Some(v) => *v,
                                None => 0,
                            };
                            proof {
                                assert(src_acc == acc@[n]);
                                assert(dst_arr == arr@[e.node]);
                            }
                            let delta: u64 = sat_sub(dst_arr, src_acc);
                            let dst_deps: Vec<Edge> = self.deps_of(e.node);
                            let indeg: usize = count_local(&dst_deps, e.remote_port);
                            let bi: usize = ensure_input_buffer(
                                self,
                                &mut assigned,
                                &mut buffers,
                                e.node,
                                e.remote_port,
                                indeg >= 2,
                                max_buffer_size,
                            );
                            let mut s_in: Vec<(u64, usize)> = Vec::new();
                            s_in.push((p, own));
                            let mut s_out: Vec<(u64, usize)> = Vec::new();
                            s_out.push((e.remote_port, bi));
                            let ghost s_in_v = s_in@;
                            let ghost s_out_v = s_out@;
                            if delta == 0 {
                                stage_entries.push(
                                    ScheduleEntry {
                                        node: n,
                                        is_stage: true,
                                        stage_target: e.node,
                                        inputs: s_in,
                                        outputs: s_out,
                                    },
                                );
                                stage_procs.push(BlockProcessor::Copy);
                            } else {
                                if delta >= (MAX_DELAY_SIZE as u64) {
                                    proof {
                                        // with an all-zero latency map no
                                        // compensation can reach the cap
                                        if forall|n2: u64| #[trigger] lat_of(latency@, n2) == 0 {
                                            assert(acc@.dom().contains(e.node));
                                            assert(order@.contains(e.node));
                                            let m = choose|m: int|
                                                0 <= m < order@.len() && order@[m] == e.node;
                                            lemma_zero_latency_records(
                                                self@,
                                                order@,
                                                acc@,
                                                arr@,
                                                latency@,
                                                order@.len() as int,
                                            );
                                            assert(arr@[order@[m]] == 0);
                                            assert(false);
                                        }
                                    }
                                    return Err(Error::DelayExceedsCapacity);
                                }
                                let dcfg: ChannelConfiguration = match self.port_config(
                                    Direction::Input,
                                    e.node,
                                    e.remote_port,
                                ) {
                                    Some(c) => c,
                                    None => crate::config::mono(),
                                };
                                proof {
                                    if has_port(self@[e.node].inputs, e.remote_port) {
                                        let pi = crate::graph::port_idx(
                                            self@[e.node].inputs,
                                            e.remote_port,
                                        );
                                        assert(self@[e.node].inputs[pi].count <= 0x10000);
                                    }
                                    assert(dcfg.spec_count() <= 0x10000);
                                    assert(dcfg.spec_count() * max_buffer_size + dcfg.spec_count()
                                        * MAX_DELAY_SIZE <= 0x10000 * 4096 + 0x10000 * 4096)
                                        by (nonlinear_arith)
                                        requires
                                            dcfg.spec_count() <= 0x10000,
                                            max_buffer_size <= 4096,
                                            MAX_DELAY_SIZE == 4096,
                                    ;
                                }
                                let line: DelBuffer<S> = DelBuffer::new(
                                    dcfg,
                                    max_buffer_size,
                                    delta as usize,
                                );
                                stage_entries.push(
                                    ScheduleEntry {
                                        node: n,
                                        is_stage: true,
                                        stage_target: e.node,
                                        inputs: s_in,
                                        outputs: s_out,
                                    },
                                );
                                stage_procs.push(BlockProcessor::Delay(line));
                            }
                            proof {
                                assert(delta == edge_delta(acc@, arr@, n, e.node));
                                assert(s_in_v.len() == 1 && s_in_v[0] == (p, own));
                                assert(s_out_v.len() == 1);
                                assert(stage_entries@.last().inputs@ == s_in_v);
                                assert(stage_entries@.last().outputs@ == s_out_v);
                                assert forall|i2: int|
                                    se_pp.len() <= i2 < stage_entries@.len() implies (
                                #[trigger] stage_entries@[i2]).inputs@.len() == 1
                                    && stage_entries@[i2].outputs@.len() == 1
                                    && stage_entries@[i2].inputs@[0] == (p, own) by {
                                    if i2 < stage_entries@.len() - 1 {
                                        assert(stage_entries@[i2] == se_ci[i2]);
                                    }
                                }
                                assert forall|i2: int| 0 <= i2 < se_pp.len() implies (
                                #[trigger] stage_entries@[i2]) == se_pp[i2] by {
                                    assert(stage_entries@[i2] == se_ci[i2]);
                                }
                                assert forall|i2: int| 0 <= i2 < sp_pp.len() implies (
                                #[trigger] stage_procs@[i2]) == sp_pp[i2] by {
                                    assert(stage_procs@[i2] == sp_ci[i2]);
                                }
                                assert forall|c2: int|
                                    0 <= c2 < ci + 1 && edge_delta(
                                        acc@,
                                        arr@,
                                        n,
                                        (#[trigger] candidates@[c2]).node,
                                    ) > 0 implies exists|i: int| #[trigger] stage_covers(
                                    stage_entries@,
                                    stage_procs@,
                                    i,
                                    n,
                                    candidates@[c2].node,
                                    edge_delta(acc@, arr@, n, candidates@[c2].node),
                                ) by {
                                    if c2 < ci {
                                        let i0 = choose|i0: int| #[trigger] stage_covers(
                                            se_ci,
                                            sp_ci,
                                            i0,
                                            n,
                                            candidates@[c2].node,
                                            edge_delta(acc@, arr@, n, candidates@[c2].node),
                                        );
                                        assert(stage_entries@[i0] == se_ci[i0]);
                                        assert(stage_procs@[i0] == sp_ci[i0]);
                                        assert(stage_covers(
                                            stage_entries@,
                                            stage_procs@,
                                            i0,
                                            n,
                                            candidates@[c2].node,
                                            edge_delta(acc@, arr@, n, candidates@[c2].node),
                                        ));
                                    } else {
                                        assert(candidates@[c2] == e);
                                        let iL = stage_entries@.len() - 1;
                                        assert(stage_covers(
                                            stage_entries@,
                                            stage_procs@,
                                            iL,
                                            n,
                                            e.node,
                                            edge_delta(acc@, arr@, n, e.node),
                                        ));
                                    }
                                }
                            }
                            ci = ci + 1;
                        }
                        proof {
                            assert forall|i2: int|
                                0 <= i2 < stage_entries@.len() implies (
                            #[trigger] stage_entries@[i2]).inputs@.len() == 1
                                && stage_entries@[i2].outputs@.len() == 1 && outs@.contains(
                                stage_entries@[i2].inputs@[0],
                            ) by {
                                if i2 < se_pp.len() {
                                    assert(stage_entries@[i2] == se_pp[i2]);
                                    let w = choose|w: int|
                                        0 <= w < outs_pp.len() && outs_pp[w]
                                            == se_pp[i2].inputs@[0];
                                    assert(outs@[w] == se_pp[i2].inputs@[0]);
                                } else {
                                    assert(stage_entries@[i2].inputs@[0] == (p, own));
                                    assert(outs@.contains((p, own)));
                                }
                            }
                        }
                    }
                    proof {
                        assert forall|w: int| 0 <= w < outs_pp.len() implies (
                        #[trigger] outs@[w]) == outs_pp[w] by {}
                        assert forall|i2: int|
                            0 <= i2 < stage_entries@.len() implies (
                        #[trigger] stage_entries@[i2]).inputs@.len() == 1
                            && stage_entries@[i2].outputs@.len() == 1 && outs@.contains(
                            stage_entries@[i2].inputs@[0],
                        ) by {
                            if i2 < se_pp.len() {
                                assert(stage_entries@[i2] == se_pp[i2]);
                                let w = choose|w: int|
                                    0 <= w < outs_pp.len() && outs_pp[w] == se_pp[i2].inputs@[0];
                                assert(outs@[w] == se_pp[i2].inputs@[0]);
                            } else {
                                assert(stage_entries@[i2].inputs@.len() == 1
                                    && stage_entries@[i2].outputs@.len() == 1
                                    && outs@.contains(stage_entries@[i2].inputs@[0]));
                            }
                        }
                        assert forall|j: int|
                            0 <= j < deps_out@.len() && port_seen(
                                out_ids@,
                                pp + 1,
                                (#[trigger] deps_out@[j]).local_port,
                            ) && acc@.dom().contains(deps_out@[j].node) implies binds_port(
                            outs@,
                            deps_out@[j].local_port,
                        ) by {
                            let lp = deps_out@[j].local_port;
                            let q = choose|q: int|
                                0 <= q < pp + 1 && (#[trigger] out_ids@[q]).0 == lp;
                            if q < pp as int {
                                assert(port_seen(out_ids@, pp as int, lp));
                                assert(binds_port(outs_pp, lp));
                                let w = choose|w: int|
                                    0 <= w < outs_pp.len() && (#[trigger] outs_pp[w]).0 == lp;
                                assert(outs@[w] == outs_pp[w]);
                                assert(binds_port(outs@, lp));
                            } else {
                                assert(lp == p);
                                assert(candidates@.contains(deps_out@[j]));
                                assert(candidates@.len() > 0);
                                assert(binds_port(outs@, p));
                            }
                        }
                        assert forall|j: int|
                            0 <= j < deps_out@.len() && port_seen(
                                out_ids@,
                                pp + 1,
                                (#[trigger] deps_out@[j]).local_port,
                            ) && acc@.dom().contains(deps_out@[j].node) && edge_delta(
                                acc@,
                                arr@,
                                n,
                                deps_out@[j].node,
                            ) > 0 implies exists|i: int| #[trigger] stage_covers(
                            stage_entries@,
                            stage_procs@,
                            i,
                            n,
                            deps_out@[j].node,
                            edge_delta(acc@, arr@, n, deps_out@[j].node),
                        ) by {
                            let lp = deps_out@[j].local_port;
                            let dd = edge_delta(acc@, arr@, n, deps_out@[j].node);
                            let q = choose|q: int|
                                0 <= q < pp + 1 && (#[trigger] out_ids@[q]).0 == lp;
                            if q < pp as int {
                                assert(port_seen(out_ids@, pp as int, lp));
                                let i0 = choose|i0: int| #[trigger] stage_covers(
                                    se_pp,
                                    sp_pp,
                                    i0,
                                    n,
                                    deps_out@[j].node,
                                    dd,
                                );
                                assert(stage_entries@[i0] == se_pp[i0]);
                                assert(stage_procs@[i0] == sp_pp[i0]);
                                assert(stage_covers(
                                    stage_entries@,
                                    stage_procs@,
                                    i0,
                                    n,
                                    deps_out@[j].node,
                                    dd,
                                ));
                            } else {
                                assert(lp == p);
                                assert(candidates@.contains(deps_out@[j]));
                                let c2 = choose|c2: int|
                                    0 <= c2 < candidates@.len() && candidates@[c2]
                                        == deps_out@[j];
                                if direct {
                                    assert(edge_delta(acc@, arr@, n, candidates@[0].node) == 0);
                                    assert(false);
                                } else {
                                    assert(stage_covers(
                                        stage_entries@,
                                        stage_procs@,
                                        choose|i: int| #[trigger] stage_covers(
                                            stage_entries@,
                                            stage_procs@,
                                            i,
                                            n,
                                            candidates@[c2].node,
                                            edge_delta(acc@, arr@, n, candidates@[c2].node),
                                        ),
                                        n,
                                        deps_out@[j].node,
                                        dd,
                                    ));
                                }
                            }
                        }
                    }
                    pp = pp + 1;
                }
            }
            proof {
                assert forall|i: int|
                    0 <= i < entries@.len() implies io_valid(
                    (#[trigger] entries@[i]).inputs@,
                    buffers@.len() as int,
                ) && io_valid(entries@[i].outputs@, buffers@.len() as int) by {
                    lemma_io_valid_mono(entries@[i].inputs@, len0, buffers@.len() as int);
                    lemma_io_valid_mono(entries@[i].outputs@, len0, buffers@.len() as int);
                }
                lemma_io_valid_mono(ins@, len0, buffers@.len() as int);
            }
            let ghost entries_snap = entries@;
            let ghost outs_final = outs@;
            entries.push(
                ScheduleEntry { node: n, is_stage: false, stage_target: 0, inputs: ins, outputs: outs },
            );
            procs.push(BlockProcessor::Idle);
            proof {
                lemma_node_seq_push(
                    entries_snap,
                    ScheduleEntry {
                        node: n,
                        is_stage: false,
                        stage_target: 0,
                        inputs: ins,
                        outputs: outs,
                    },
                );
                assert(node_seq(entries@) == order@.take(oi as int).push(n));
                assert(order@.take(oi + 1) =~= order@.take(oi as int).push(order@[oi as int]));
            }
            let ghost fse = stage_entries@;
            let ghost fsp = stage_procs@;
            let mut si: usize = 0;
            let n_stages: usize = stage_entries.len();
            proof {
                assert(stage_entries@.len() == stage_procs@.len());
                assert(!entries@[entries_o0.len() as int].is_stage);
                assert(entries@[entries_o0.len() as int].node == n);
                assert(entries@[entries_o0.len() as int].outputs@ == outs_final);
                assert forall|i2: int| 0 <= i2 < entries_o0.len() implies (
                #[trigger] entries@[i2]) == entries_o0[i2] by {
                    assert(entries@[i2] == entries_snap[i2]);
                }
                assert(procs@.len() == procs_o0.len() + 1);
                assert forall|i2: int| 0 <= i2 < procs_o0.len() implies (#[trigger] procs@[i2])
                    == procs_o0[i2] by {}
            }
            while si < n_stages
                invariant
                    si <= n_stages,
                    n_stages == stage_entries@.len(),
                    stage_entries@.len() == stage_procs@.len(),
                    entries@.len() == procs@.len(),
                    entries@.len() >= 1,
                    entries@.len() >= oi + 1,
                    node_seq(entries@) == order@.take(oi + 1),
                    entries@.last().node == n,
                    oi + 1 == n_order ==> n_stages == 0,
                    oi + 1 == n_order ==> (entries@.last().outputs@.len() > 0
                        ==> entries@.last().outputs@[0].1 == root_buffer),
                    oi + 1 == n_order ==> have_root_buf && root_buffer < buffers@.len(),
                    stages_match(entries@, procs@, acc@, arr@),
                    forall|i: int|
                        si <= i < stage_entries@.len() && i < stage_procs@.len() ==> (match (
                        #[trigger] stage_procs@[i]) {
                            BlockProcessor::Delay(d) => d.spec_delay() as u64 == sat_sub_spec(
                                arr@[stage_entries@[i].stage_target],
                                acc@[stage_entries@[i].node],
                            ) && sat_sub_spec(
                                arr@[stage_entries@[i].stage_target],
                                acc@[stage_entries@[i].node],
                            ) > 0,
                            _ => sat_sub_spec(
                                arr@[stage_entries@[i].stage_target],
                                acc@[stage_entries@[i].node],
                            ) == 0,
                        }),
                    forall|i: int|
                        0 <= i < stage_entries@.len() ==> (#[trigger] stage_entries@[i]).is_stage,
                    buffers_wf(buffers@, max_buffer_size),
                    forall|i: int|
                        0 <= i < entries@.len() ==> io_valid(
                            (#[trigger] entries@[i]).inputs@,
                            buffers@.len() as int,
                        ) && io_valid(entries@[i].outputs@, buffers@.len() as int),
                    forall|i: int|
                        0 <= i < procs@.len() ==> (#[trigger] procs@[i]).wf(max_buffer_size),
                    forall|i: int|
                        0 <= i < stage_entries@.len() ==> io_valid(
                            (#[trigger] stage_entries@[i]).inputs@,
                            buffers@.len() as int,
                        ) && io_valid(stage_entries@[i].outputs@, buffers@.len() as int),
                    forall|i: int|
                        0 <= i < stage_procs@.len() ==> (#[trigger] stage_procs@[i]).wf(
                            max_buffer_size,
                        ),
                    forall|i: int|
                        0 <= i < stage_entries@.len() ==> (#[trigger] stage_entries@[i]).node == n,
                    stage_entries@ == fse,
                    stage_procs@.len() == fsp.len(),
                    forall|i2: int|
                        si <= i2 < fsp.len() ==> (#[trigger] stage_procs@[i2]) == fsp[i2],
                    entries_o0.len() <= entries@.len(),
                    forall|i2: int|
                        0 <= i2 < entries_o0.len() ==> (#[trigger] entries@[i2]) == entries_o0[i2],
                    procs_o0.len() <= procs@.len(),
                    forall|i2: int|
                        0 <= i2 < procs_o0.len() ==> (#[trigger] procs@[i2]) == procs_o0[i2],
                    entries@.len() == entries_o0.len() + 1 + si,
                    !(entries@[entries_o0.len() as int]).is_stage,
                    entries@[entries_o0.len() as int].node == n,
                    entries@[entries_o0.len() as int].outputs@ == outs_final,
                    forall|s2: int|
                        #![trigger fse[s2]]
                        0 <= s2 < si ==> entry_copied(
                            entries@,
                            procs@,
                            entries_o0.len() + 1 + s2,
                            fse[s2],
                            fsp[s2],
                        ),
                decreases n_stages - si,
            {
                let se: ScheduleEntry = ScheduleEntry {
                    node: stage_entries[si].node,
                    is_stage: true,
                    stage_target: stage_entries[si].stage_target,
                    inputs: copy_io_list(&stage_entries[si].inputs),
                    outputs: copy_io_list(&stage_entries[si].outputs),
                };
                let mut sp: BlockProcessor<S> = BlockProcessor::Idle;
                core::mem::swap(
                    vstd::std_specs::vec::vec_index_mut(&mut stage_procs, si),
                    &mut sp,
                );
                let ghost spv = sp;
                let ghost entries_snap2 = entries@;
                let ghost procs_snap2 = procs@;
                let ghost se_snap = se;
                entries.push(se);
                procs.push(sp);
                proof {
                    lemma_node_seq_push(entries_snap2, se_snap);
                    assert(spv == fsp[si as int]);
                    assert(entries@[entries_o0.len() as int]
                        == entries_snap2[entries_o0.len() as int]);
                    assert forall|i2: int| 0 <= i2 < entries_o0.len() implies (
                    #[trigger] entries@[i2]) == entries_o0[i2] by {
                        assert(entries@[i2] == entries_snap2[i2]);
                    }
                    assert forall|i2: int| 0 <= i2 < procs_o0.len() implies (
                    #[trigger] procs@[i2]) == procs_o0[i2] by {
                        assert(procs@[i2] == procs_snap2[i2]);
                    }
                    assert forall|s2: int| #![trigger fse[s2]] 0 <= s2 < si + 1 implies entry_copied(
                        entries@,
                        procs@,
                        entries_o0.len() + 1 + s2,
                        fse[s2],
                        fsp[s2],
                    ) by {
                        let i0 = entries_o0.len() + 1 + s2;
                        if s2 < si {
                            assert(entry_copied(entries_snap2, procs_snap2, i0, fse[s2], fsp[s2]));
                            assert(entries@[i0] == entries_snap2[i0]);
                            assert(procs@[i0] == procs_snap2[i0]);
                        } else {
                            assert(i0 == entries@.len() - 1);
                            assert(entries@[i0] == se_snap);
                            assert(procs@[i0] == spv);
                        }
                        assert(entry_copied(entries@, procs@, i0, fse[s2], fsp[s2]));
                    }
                }
                si = si + 1;
            }
            proof {
                assert forall|k: int, j: int|
                    0 <= k < oi + 1 && k < n_order - 1 && 0 <= j
                        < self@[order@[k]].dependents.len() && acc@.dom().contains(
                        (#[trigger] self@[order@[k]].dependents[j]).node,
                    ) && edge_delta(acc@, arr@, order@[k], self@[order@[k]].dependents[j].node)
                        > 0 implies exists|i: int| #[trigger] stage_covers(
                    entries@,
                    procs@,
                    i,
                    order@[k],
                    self@[order@[k]].dependents[j].node,
                    edge_delta(acc@, arr@, order@[k], self@[order@[k]].dependents[j].node),
                ) by {
                    let tn = self@[order@[k]].dependents[j].node;
                    let dd = edge_delta(acc@, arr@, order@[k], tn);
                    if k < oi {
                        let i0 = choose|i0: int| #[trigger] stage_covers(
                            entries_o0,
                            procs_o0,
                            i0,
                            order@[k],
                            tn,
                            dd,
                        );
                        assert(entries@[i0] == entries_o0[i0]);
                        assert(procs@[i0] == procs_o0[i0]);
                        assert(stage_covers(entries@, procs@, i0, order@[k], tn, dd));
                    } else {
                        assert(order@[k] == n);
                        let e = self@[n].dependents[j];
                        assert(self@[e.node].deps.contains(crate::graph::mirror_of(n, e)));
                        let jd = choose|jd: int|
                            0 <= jd < self@[e.node].deps.len() && self@[e.node].deps[jd]
                                == crate::graph::mirror_of(n, e);
                        assert(has_port(
                            self@[self@[e.node].deps[jd].node].outputs,
                            self@[e.node].deps[jd].remote_port,
                        ));
                        assert(has_port(self@[n].outputs, e.local_port));
                        let pq = crate::graph::port_idx(self@[n].outputs, e.local_port);
                        assert(out_ids@[pq].0 == self@[n].outputs[pq].id);
                        assert(port_seen(out_ids@, out_ids@.len() as int, e.local_port));
                        let i1 = choose|i1: int| #[trigger] stage_covers(fse, fsp, i1, n, tn, dd);
                        assert(0 <= i1 < fse.len());
                        let i2 = entries_o0.len() + 1 + i1;
                        assert(entry_copied(entries@, procs@, i2, fse[i1], fsp[i1]));
                        assert(stage_covers(entries@, procs@, i2, order@[k], tn, dd));
                    }
                }
                assert forall|k: int, j: int|
                    0 <= k < oi + 1 && k < n_order - 1 && 0 <= j
                        < self@[order@[k]].dependents.len() && acc@.dom().contains(
                        (#[trigger] self@[order@[k]].dependents[j]).node,
                    ) implies exists|i: int|
                    0 <= i < entries@.len() && !(#[trigger] entries@[i]).is_stage
                        && entries@[i].node == order@[k] && binds_port(
                        entries@[i].outputs@,
                        self@[order@[k]].dependents[j].local_port,
                    ) by {
                    if k < oi {
                        let i0 = choose|i0: int|
                            0 <= i0 < entries_o0.len() && !(#[trigger] entries_o0[i0]).is_stage
                                && entries_o0[i0].node == order@[k] && binds_port(
                                entries_o0[i0].outputs@,
                                self@[order@[k]].dependents[j].local_port,
                            );
                        assert(entries@[i0] == entries_o0[i0]);
                        assert(0 <= i0 < entries@.len() && !entries@[i0].is_stage
                            && entries@[i0].node == order@[k] && binds_port(
                            entries@[i0].outputs@,
                            self@[order@[k]].dependents[j].local_port,
                        ));
                    } else {
                        assert(order@[k] == n);
                        let e = self@[n].dependents[j];
                        assert(self@[e.node].deps.contains(crate::graph::mirror_of(n, e)));
                        let jd = choose|jd: int|
                            0 <= jd < self@[e.node].deps.len() && self@[e.node].deps[jd]
                                == crate::graph::mirror_of(n, e);
                        assert(has_port(
                            self@[self@[e.node].deps[jd].node].outputs,
                            self@[e.node].deps[jd].remote_port,
                        ));
                        assert(has_port(self@[n].outputs, e.local_port));
                        let pq = crate::graph::port_idx(self@[n].outputs, e.local_port);
                        assert(out_ids@[pq].0 == self@[n].outputs[pq].id);
                        assert(port_seen(out_ids@, out_ids@.len() as int, e.local_port));
                        assert(binds_port(outs_final, e.local_port));
                        let pe1 = entries_o0.len() as int;
                        assert(!entries@[pe1].is_stage && entries@[pe1].node == n
                            && entries@[pe1].outputs@ == outs_final);
                        assert(0 <= pe1 < entries@.len() && !entries@[pe1].is_stage
                            && entries@[pe1].node == order@[k] && binds_port(
                            entries@[pe1].outputs@,
                            self@[order@[k]].dependents[j].local_port,
                        ));
                    }
                }
                assert forall|i2: int|
                    0 <= i2 < entries@.len() && (#[trigger] entries@[i2]).is_stage implies
                    entries@[i2].inputs@.len() == 1 && entries@[i2].outputs@.len() == 1
                        && exists|pe: int|
                        0 <= pe < entries@.len() && !(#[trigger] entries@[pe]).is_stage
                            && entries@[pe].node == entries@[i2].node
                            && entries@[pe].outputs@.contains(entries@[i2].inputs@[0]) by {
                    if i2 < entries_o0.len() {
                        assert(entries@[i2] == entries_o0[i2]);
                        let pe0 = choose|pe0: int|
                            0 <= pe0 < entries_o0.len() && !(#[trigger] entries_o0[pe0]).is_stage
                                && entries_o0[pe0].node == entries_o0[i2].node
                                && entries_o0[pe0].outputs@.contains(entries_o0[i2].inputs@[0]);
                        assert(entries@[pe0] == entries_o0[pe0]);
                        assert(0 <= pe0 < entries@.len() && !entries@[pe0].is_stage
                            && entries@[pe0].node == entries@[i2].node
                            && entries@[pe0].outputs@.contains(entries@[i2].inputs@[0]));
                    } else if i2 == entries_o0.len() {
                        assert(false);
                    } else {
                        let s2 = i2 - entries_o0.len() - 1;
                        assert(0 <= s2 < fse.len());
                        assert(entry_copied(entries@, procs@, entries_o0.len() + 1 + s2, fse[s2], fsp[s2]));
                        assert(fse[s2].inputs@.len() == 1 && fse[s2].outputs@.len() == 1
                            && outs_final.contains(fse[s2].inputs@[0]));
                        let pe1 = entries_o0.len() as int;
                        assert(!entries@[pe1].is_stage && entries@[pe1].node == n
                            && entries@[pe1].outputs@ == outs_final);
                        assert(0 <= pe1 < entries@.len() && !entries@[pe1].is_stage
                            && entries@[pe1].node == entries@[i2].node
                            && entries@[pe1].outputs@.contains(entries@[i2].inputs@[0]));
                    }
                }
                assert(stage_input_shared(entries@));
            }
            oi = oi + 1;
        }
        if !have_root_buf {
            let ghost pre_bufs = buffers@;
            buffers.push(GraphBuffer::Simple(SimpleBuffer::new(crate::config::mono(), max_buffer_size)));
            root_buffer = buffers.len() - 1;
            proof {
                assert forall|i: int| 0 <= i < buffers@.len() implies (
                #[trigger] buffers@[i]).wf() && buffers@[i].spec_frames() == max_buffer_size by {
                    if i < pre_bufs.len() {
                        assert(buffers@[i] == pre_bufs[i]);
                    }
                }
            }
        }
        let ghost final_acc = acc@;
        let ghost final_arr = arr@;
        let ghost final_entries = entries@;
        let ghost final_procs = procs@;
        let scratch: Vec<S> = crate::sample::silence_vec(max_buffer_size);
        let s = Schedule {
            entries,
            processors: procs,
            buffers,
            scratch,
            max_buffer_size,
            root_buffer,
            lat_acc: Ghost(final_acc),
            lat_arr: Ghost(final_arr),
        };
        proof {
            assert(s.wf());
            assert(s.spec_last_node() == root.0);
            assert(s.spec_node_order() == order@) by {
                assert(order@.take(n_order as int) =~= order@);
            }
            assert(latency_fixpoint(self@, s.spec_node_order(), s.spec_acc(), s.spec_arr(), latency@));
            assert(s.spec_stage_delays_ok());
            assert forall|k: int| 0 <= k < s.spec_node_order().len() implies
                crate::graph::reaches_up(self@, root.0, #[trigger] s.spec_node_order()[k]) by {
                assert(crate::graph::reaches_up(self@, root.0, order@[k]));
            }
            assert(s.spec_entries() == final_entries);
            assert(s.spec_processors() == final_procs);
            assert forall|k: int, j: int|
                0 <= k < s.spec_node_order().len() - 1 && 0 <= j
                    < self@[s.spec_node_order()[k]].dependents.len() && s.spec_acc().dom()
                    .contains(
                    (#[trigger] self@[s.spec_node_order()[k]].dependents[j]).node,
                ) && edge_delta(
                    s.spec_acc(),
                    s.spec_arr(),
                    s.spec_node_order()[k],
                    self@[s.spec_node_order()[k]].dependents[j].node,
                ) > 0 implies exists|i: int| #[trigger] stage_covers(
                s.spec_entries(),
                s.spec_processors(),
                i,
                s.spec_node_order()[k],
                self@[s.spec_node_order()[k]].dependents[j].node,
                edge_delta(
                    s.spec_acc(),
                    s.spec_arr(),
                    s.spec_node_order()[k],
                    self@[s.spec_node_order()[k]].dependents[j].node,
                ),
            ) by {
                let tn = self@[order@[k]].dependents[j].node;
                let dd = edge_delta(final_acc, final_arr, order@[k], tn);
                let i0 = choose|i0: int| #[trigger] stage_covers(
                    final_entries,
                    final_procs,
                    i0,
                    order@[k],
                    tn,
                    dd,
                );
                assert(stage_covers(
                    s.spec_entries(),
                    s.spec_processors(),
                    i0,
                    s.spec_node_order()[k],
                    tn,
                    dd,
                ));
            }
            assert(stages_complete(
                self@,
                s.spec_node_order(),
                s.spec_entries(),
                s.spec_processors(),
                s.spec_acc(),
                s.spec_arr(),
            ));
            assert(stage_input_shared(final_entries));
            assert(stage_input_shared(s.spec_entries()));
            assert forall|k: int, j: int|
                0 <= k < s.spec_node_order().len() - 1 && 0 <= j
                    < self@[s.spec_node_order()[k]].dependents.len() && s.spec_acc().dom()
                    .contains(
                    (#[trigger] self@[s.spec_node_order()[k]].dependents[j]).node,
                ) implies exists|i: int|
                0 <= i < s.spec_entries().len() && !(#[trigger] s.spec_entries()[i]).is_stage
                    && s.spec_entries()[i].node == s.spec_node_order()[k] && binds_port(
                    s.spec_entries()[i].outputs@,
                    self@[s.spec_node_order()[k]].dependents[j].local_port,
                ) by {
                let i0 = choose|i0: int|
                    0 <= i0 < final_entries.len() && !(#[trigger] final_entries[i0]).is_stage
                        && final_entries[i0].node == order@[k] && binds_port(
                        final_entries[i0].outputs@,
                        self@[order@[k]].dependents[j].local_port,
                    );
                assert(0 <= i0 < s.spec_entries().len() && !s.spec_entries()[i0].is_stage
                    && s.spec_entries()[i0].node == s.spec_node_order()[k] && binds_port(
                    s.spec_entries()[i0].outputs@,
                    self@[s.spec_node_order()[k]].dependents[j].local_port,
                ));
            }
            assert(outputs_bound(self@, s.spec_node_order(), s.spec_entries(), s.spec_acc()));
        }
        Ok(s)
    }
}


/// Find the buffer bound to the named input port of an entry: the name is
/// hashed exactly as the graph hashes port names.
pub fn get_input(inputs: &Vec<(u64, usize)>, port: &str) -> (r: Option<usize>)
    ensures
        r matches Some(b) ==> exists|i: int|
            0 <= i < inputs@.len() && (#[trigger] inputs@[i]).0 == crate::graph::spec_name_id(port)
                && inputs@[i].1 == b && (forall|j: int|
                0 <= j < i ==> (#[trigger] inputs@[j]).0 != crate::graph::spec_name_id(port)),
        r is None ==> forall|i: int|
            0 <= i < inputs@.len() ==> (#[trigger] inputs@[i]).0 != crate::graph::spec_name_id(
                port,
            ),
{
    let id: u64 = crate::graph::hash_str(port);
    let mut i: usize = 0;
    while i < inputs.len()
        invariant
            i <= inputs@.len(),
            id == crate::graph::spec_name_id(port),
            forall|j: int| 0 <= j < i ==> (#[trigger] inputs@[j]).0 != id,
        decreases inputs@.len() - i,
    {
        if inputs[i].0 == id {
            proof {
                assert((inputs@[i as int]).0 == id);
            }
            return Some(inputs[i].1);
        }
        i = i + 1;
    }
    None
}

/// Find the buffer bound to the named output port of an entry.
pub fn get_output(outputs: &Vec<(u64, usize)>, port: &str) -> (r: Option<usize>)
    ensures
        r matches Some(b) ==> exists|i: int|
            0 <= i < outputs@.len() && (#[trigger] outputs@[i]).0 == crate::graph::spec_name_id(
                port,
            ) && outputs@[i].1 == b && (forall|j: int|
                0 <= j < i ==> (#[trigger] outputs@[j]).0 != crate::graph::spec_name_id(port)),
        r is None ==> forall|i: int|
            0 <= i < outputs@.len() ==> (#[trigger] outputs@[i]).0 != crate::graph::spec_name_id(
                port,
            ),
{
    get_input(outputs, port)
}

} // verus!
