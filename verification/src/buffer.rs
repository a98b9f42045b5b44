//! The buffer algebra: four multi-channel sample containers behind one
//! capability set (channel access, `clear`, `prepare`). A simple buffer owns
//! its block, a reference buffer wraps storage handed in by the caller, a
//! summing buffer folds written blocks into an accumulator, and a delay
//! buffer plays blocks back a fixed number of frames later. All of them lay
//! the channels out planar: channel `c` occupies `c * frames .. (c + 1) *
//! frames` of the scratch region.

use vstd::prelude::*;

use crate::config::{ChannelConfiguration, Error};
use crate::sample::Sample;

verus! {

use vstd::slice::{slice_subrange, slice_index_get};

/// `n` frames of silence.
pub open spec fn silent_seq<S: Sample>(n: nat) -> Seq<S> {
    Seq::new(n, |i: int| S::spec_silence())
}

/// Copy `data` over `mem[start .. start + data.len()]`.
fn write_region<S: Sample>(mem: &mut Vec<S>, start: usize, data: &[S])
    requires
        start + data@.len() <= old(mem)@.len(),
    ensures
        final(mem)@.len() == old(mem)@.len(),
        forall|j: int| 0 <= j < start ==> final(mem)@[j] == old(mem)@[j],
        forall|j: int|
            start <= j < start + data@.len() ==> final(mem)@[j] == data@[j - start],
        forall|j: int|
            start + data@.len() <= j < final(mem)@.len() ==> final(mem)@[j] == old(mem)@[j],
{
    let ml: usize = mem.len();
    let mut i: usize = 0;
    while i < data.len()
        invariant
            i <= data@.len(),
            mem@.len() == ml,
            start + data@.len() <= mem@.len(),
            mem@.len() == old(mem)@.len(),
            forall|j: int| 0 <= j < start ==> mem@[j] == old(mem)@[j],
            forall|j: int| start <= j < start + i ==> mem@[j] == data@[j - start],
            forall|j: int| start + i <= j < mem@.len() ==> mem@[j] == old(mem)@[j],
        decreases data@.len() - i,
    {
        let v: S = *slice_index_get(data, i);
        mem[start + i] = v;
        i = i + 1;
    }
}

/// Overwrite `mem[start .. start + n]` with silence.
fn fill_region<S: Sample>(mem: &mut Vec<S>, start: usize, n: usize)
    requires
        start + n <= old(mem)@.len(),
    ensures
        final(mem)@.len() == old(mem)@.len(),
        forall|j: int| 0 <= j < start ==> final(mem)@[j] == old(mem)@[j],
        forall|j: int| start <= j < start + n ==> final(mem)@[j] == S::spec_silence(),
        forall|j: int| start + n <= j < final(mem)@.len() ==> final(mem)@[j] == old(mem)@[j],
{
    let ml: usize = mem.len();
    let mut i: usize = 0;
    while i < n
        invariant
            i <= n,
            mem@.len() == ml,
            start + n <= mem@.len(),
            mem@.len() == old(mem)@.len(),
            forall|j: int| 0 <= j < start ==> mem@[j] == old(mem)@[j],
            forall|j: int| start <= j < start + i ==> mem@[j] == S::spec_silence(),
            forall|j: int| start + i <= j < mem@.len() ==> mem@[j] == old(mem)@[j],
        decreases n - i,
    {
        mem[start + i] = S::silence();
        i = i + 1;
    }
}

/// A simple buffer: one planar block of `channels * frames` samples.
pub struct SimpleBuffer<S: Sample> {
    config: ChannelConfiguration,
    frames: usize,
    memory: Vec<S>,
}

impl<S: Sample> SimpleBuffer<S> {
    /// Structural soundness: the block holds exactly `channels * frames`
    /// samples.
    pub closed spec fn wf(&self) -> bool {
        self.memory@.len() == self.config.spec_count() * self.frames
    }

    /// The buffer's channel configuration.
    pub closed spec fn cfg(&self) -> ChannelConfiguration {
        self.config
    }

    /// Frames per block.
    pub closed spec fn spec_frames(&self) -> usize {
        self.frames
    }

    /// The samples of channel `c`.
    pub closed spec fn channel(&self, c: int) -> Seq<S> {
        self.memory@.subrange(c * self.frames, c * self.frames + self.frames)
    }

    /// Create a simple buffer, all channels silent.
    pub fn new(config: ChannelConfiguration, max_buffer_size: usize) -> (r: SimpleBuffer<S>)
        requires
            config.spec_count() * max_buffer_size <= usize::MAX,
        ensures
            r.wf(),
            r.cfg() == config,
            r.spec_frames() == max_buffer_size,
            forall|c: int|
                0 <= c < config.spec_count() ==> r.channel(c) == silent_seq::<S>(
                    max_buffer_size as nat,
                ),
    {
        let n: usize = config.count() * max_buffer_size;
        let memory: Vec<S> = crate::sample::silence_vec(n);
        let r = SimpleBuffer { config, frames: max_buffer_size, memory };
        proof {
            assert forall|c: int| 0 <= c < r.config.spec_count() implies r.channel(c)
                == silent_seq::<S>(max_buffer_size as nat) by {
                lemma_channel_bounds(r.config.spec_count() as int, max_buffer_size as int, c);
                assert(r.channel(c) =~= silent_seq::<S>(max_buffer_size as nat));
            }
        }
        r
    }

    /// The buffer's channel configuration.
    pub fn get_channel_config(&self) -> (r: ChannelConfiguration)
        ensures
            r.same_config(&self.cfg()),
    {
        self.config.duplicate()
    }

    /// Frames per block (samples per channel).
    pub fn num_samples(&self) -> (r: usize)
        ensures
            r == self.spec_frames(),
    {
        self.frames
    }

    /// Read-only view of one channel.
    pub fn get_channel(&self, channel_index: usize) -> (r: Result<&[S], Error>)
        requires
            self.wf(),
        ensures
            channel_index < self.cfg().spec_count() ==> (r matches Ok(s) && s@ == self.channel(
                channel_index as int,
            ) && s@.len() == self.spec_frames()),
            channel_index >= self.cfg().spec_count() ==> r == Result::<&[S], Error>::Err(
                Error::InvalidChannel(channel_index),
            ),
    {
        self.config.check_channel(channel_index)?;
        let total: usize = self.memory.len();
        proof {
            lemma_channel_bounds(
                self.config.spec_count() as int,
                self.frames as int,
                channel_index as int,
            );
            assert(channel_index * self.frames + self.frames <= total);
        }
        let start: usize = channel_index * self.frames;
        Ok(slice_subrange(self.memory.as_slice(), start, start + self.frames))
    }

    /// Overwrite one channel with a block of samples.
    pub fn write_channel(&mut self, channel_index: usize, data: &[S]) -> (r: Result<(), Error>)
        requires
            old(self).wf(),
            data@.len() == old(self).spec_frames(),
        ensures
            final(self).wf(),
            final(self).cfg() == old(self).cfg(),
            final(self).spec_frames() == old(self).spec_frames(),
            channel_index < old(self).cfg().spec_count() ==> (r is Ok && final(self).channel(
                channel_index as int,
            ) == data@ && (forall|c: int|
                0 <= c < old(self).cfg().spec_count() && c != channel_index
                    ==> final(self).channel(c) == old(self).channel(c))),
            channel_index >= old(self).cfg().spec_count() ==> (r == Result::<(), Error>::Err(
                Error::InvalidChannel(channel_index),
            ) && *final(self) == *old(self)),
    {
        self.config.check_channel(channel_index)?;
        let total: usize = self.memory.len();
        proof {
            lemma_channel_bounds(
                self.config.spec_count() as int,
                self.frames as int,
                channel_index as int,
            );
            assert(channel_index * self.frames + self.frames <= total);
        }
        let start: usize = channel_index * self.frames;
        write_region(&mut self.memory, start, data);
        proof {
            lemma_planar_updates(
                old(self).memory@,
                self.memory@,
                self.config.spec_count() as int,
                self.frames as int,
                channel_index as int,
            );
            assert(self.channel(channel_index as int) =~= data@);
        }
        Ok(())
    }

    /// Zero the whole block.
    pub fn clear(&mut self)
        requires
            old(self).wf(),
        ensures
            final(self).wf(),
            final(self).cfg() == old(self).cfg(),
            final(self).spec_frames() == old(self).spec_frames(),
            forall|c: int|
                0 <= c < old(self).cfg().spec_count() ==> final(self).channel(c) == silent_seq::<
                    S,
                >(old(self).spec_frames() as nat),
    {
        let n: usize = self.memory.len();
        fill_region(&mut self.memory, 0, n);
        proof {
            assert forall|c: int| 0 <= c < self.config.spec_count() implies self.channel(c)
                == silent_seq::<S>(self.frames as nat) by {
                lemma_channel_bounds(self.config.spec_count() as int, self.frames as int, c);
                assert(self.channel(c) =~= silent_seq::<S>(self.frames as nat));
            }
        }
    }

    /// A simple buffer needs no work between blocks.
    pub fn prepare(&mut self)
        ensures
            *final(self) == *old(self),
    {
    }
}

/// For `0 <= c < count`, channel `c`'s region `[c * frames, (c + 1) *
/// frames)` lies inside `[0, count * frames)`.
pub proof fn lemma_channel_bounds(count: int, frames: int, c: int) by (nonlinear_arith)
    requires
        0 <= c < count,
        0 <= frames,
    ensures
        0 <= c * frames,
        c * frames + frames <= count * frames,
        (c + 1) * frames == c * frames + frames,
{
}

/// If two planar blocks agree outside channel `c`'s region, every other
/// channel is unchanged.
pub proof fn lemma_planar_updates<S>(
    before: Seq<S>,
    after: Seq<S>,
    count: int,
    frames: int,
    c: int,
)
    requires
        0 <= c < count,
        0 <= frames,
        before.len() == count * frames,
        after.len() == count * frames,
        forall|j: int| 0 <= j < c * frames ==> after[j] == before[j],
        forall|j: int| c * frames + frames <= j < after.len() ==> after[j] == before[j],
    ensures
        forall|d: int|
            0 <= d < count && d != c ==> #[trigger] after.subrange(d * frames, d * frames + frames)
                == before.subrange(d * frames, d * frames + frames),
{
    assert forall|d: int| 0 <= d < count && d != c implies #[trigger] after.subrange(
        d * frames,
        d * frames + frames,
    ) == before.subrange(d * frames, d * frames + frames) by {
        lemma_channel_bounds(count, frames, d);
        lemma_channel_bounds(count, frames, c);
        if d < c {
            assert(d * frames + frames <= c * frames) by (nonlinear_arith)
                requires
                    0 <= frames,
                    d < c,
            ;
        } else {
            assert(c * frames + frames <= d * frames) by (nonlinear_arith)
                requires
                    0 <= frames,
                    c < d,
            ;
        }
        assert(after.subrange(d * frames, d * frames + frames) =~= before.subrange(
            d * frames,
            d * frames + frames,
        ));
    }
}

/// A reference buffer wraps storage supplied by the caller (for instance the
/// block the audio driver hands to a callback) instead of allocating its
/// own. Construction fails with `StorageRequired` when the storage cannot
/// hold `channels * frames` samples; `into_storage` gives the storage back.
pub struct RefBuffer<S: Sample> {
    config: ChannelConfiguration,
    frames: usize,
    memory: Vec<S>,
}

impl<S: Sample> RefBuffer<S> {
    /// Structural soundness: at least one channel, and the per-channel
    /// stride divides the storage among the channels.
    pub closed spec fn wf(&self) -> bool {
        self.config.spec_count() >= 1 && self.frames == self.memory@.len() as int
            / self.config.spec_count() as int
    }

    /// The buffer's channel configuration.
    pub closed spec fn cfg(&self) -> ChannelConfiguration {
        self.config
    }

    /// Samples per channel: the storage length divided by the channel
    /// count, so a larger region simply gives longer channels.
    pub closed spec fn spec_frames(&self) -> usize {
        self.frames
    }

    /// The samples held for the whole buffer.
    pub closed spec fn storage(&self) -> Seq<S> {
        self.memory@
    }

    /// The samples of channel `c`.
    pub closed spec fn channel(&self, c: int) -> Seq<S> {
        self.memory@.subrange(c * self.frames, c * self.frames + self.frames)
    }

    /// Wrap caller storage. Fails with `StorageRequired` when the storage
    /// holds fewer than `channels * max_buffer_size` samples; the storage is
    /// consumed either way and can be recovered with `into_storage`.
    pub fn new(config: ChannelConfiguration, max_buffer_size: usize, memory: Vec<S>) -> (r: Result<
        RefBuffer<S>,
        Error,
    >)
        requires
            config.spec_count() >= 1,
            config.spec_count() * max_buffer_size <= usize::MAX,
        ensures
            r is Ok <==> memory@.len() >= config.spec_count() * max_buffer_size,
            r matches Ok(b) ==> b.wf() && b.cfg() == config && b.spec_frames()
                >= max_buffer_size && b.storage() == memory@ && b.spec_frames() as int == memory@.len() as int
                / config.spec_count() as int,
            r is Err ==> r == Result::<RefBuffer<S>, Error>::Err(Error::StorageRequired),
    {
        let needed: usize = config.count() * max_buffer_size;
        if memory.len() < needed {
            Err(Error::StorageRequired)
        } else {
            let frames: usize = memory.len() / config.count();
            proof {
                vstd::arithmetic::div_mod::lemma_div_is_ordered(
                    (config.spec_count() * max_buffer_size) as int,
                    memory@.len() as int,
                    config.spec_count() as int,
                );
                vstd::arithmetic::div_mod::lemma_div_multiples_vanish(
                    max_buffer_size as int,
                    config.spec_count() as int,
                );
            }
            Ok(RefBuffer { config, frames, memory })
        }
    }

    /// Give the wrapped storage back.
    pub fn into_storage(self) -> (r: Vec<S>)
        ensures
            r@ == self.storage(),
    {
        self.memory
    }

    /// The buffer's channel configuration.
    pub fn get_channel_config(&self) -> (r: ChannelConfiguration)
        ensures
            r.same_config(&self.cfg()),
    {
        self.config.duplicate()
    }

    /// Samples per channel.
    pub fn num_samples(&self) -> (r: usize)
        ensures
            r == self.spec_frames(),
    {
        self.frames
    }

    /// Read-only view of one channel.
    pub fn get_channel(&self, channel_index: usize) -> (r: Result<&[S], Error>)
        requires
            self.wf(),
        ensures
            channel_index < self.cfg().spec_count() ==> (r matches Ok(s) && s@ == self.channel(
                channel_index as int,
            ) && s@.len() == self.spec_frames()),
            channel_index >= self.cfg().spec_count() ==> r == Result::<&[S], Error>::Err(
                Error::InvalidChannel(channel_index),
            ),
    {
        self.config.check_channel(channel_index)?;
        let total: usize = self.memory.len();
        proof {
            lemma_stride_bounds(
                self.config.spec_count() as int,
                self.frames as int,
                total as int,
                channel_index as int,
            );
        }
        let start: usize = channel_index * self.frames;
        Ok(slice_subrange(self.memory.as_slice(), start, start + self.frames))
    }

    /// Overwrite one channel with a block of samples.
    pub fn write_channel(&mut self, channel_index: usize, data: &[S]) -> (r: Result<(), Error>)
        requires
            old(self).wf(),
            data@.len() == old(self).spec_frames(),
        ensures
            final(self).wf(),
            final(self).cfg() == old(self).cfg(),
            final(self).spec_frames() == old(self).spec_frames(),
            final(self).storage().len() == old(self).storage().len(),
            channel_index < old(self).cfg().spec_count() ==> (r is Ok && final(self).channel(
                channel_index as int,
            ) == data@ && (forall|c: int|
                0 <= c < old(self).cfg().spec_count() && c != channel_index
                    ==> final(self).channel(c) == old(self).channel(c))),
            channel_index >= old(self).cfg().spec_count() ==> (r == Result::<(), Error>::Err(
                Error::InvalidChannel(channel_index),
            ) && *final(self) == *old(self)),
    {
        self.config.check_channel(channel_index)?;
        let total: usize = self.memory.len();
        proof {
            lemma_stride_bounds(
                self.config.spec_count() as int,
                self.frames as int,
                total as int,
                channel_index as int,
            );
        }
        let start: usize = channel_index * self.frames;
        write_region(&mut self.memory, start, data);
        proof {
            lemma_channel_bounds(
                self.config.spec_count() as int,
                self.frames as int,
                channel_index as int,
            );
            assert forall|c: int|
                0 <= c < old(self).cfg().spec_count() && c != channel_index implies self.channel(
                c,
            ) == old(self).channel(c) by {
                lemma_stride_bounds(
                    self.config.spec_count() as int,
                    self.frames as int,
                    self.memory@.len() as int,
                    c,
                );
                lemma_stride_bounds(
                    self.config.spec_count() as int,
                    self.frames as int,
                    self.memory@.len() as int,
                    channel_index as int,
                );
                if c < channel_index {
                    assert(c * self.frames + self.frames <= channel_index * self.frames)
                        by (nonlinear_arith)
                        requires
                            0 <= self.frames,
                            c < channel_index,
                    ;
                } else {
                    assert(channel_index * self.frames + self.frames <= c * self.frames)
                        by (nonlinear_arith)
                        requires
                            0 <= self.frames,
                            channel_index < c,
                    ;
                }
                assert(self.channel(c) =~= old(self).channel(c));
            }
            assert(self.channel(channel_index as int) =~= data@);
        }
        Ok(())
    }

    /// Zero the whole storage.
    pub fn clear(&mut self)
        requires
            old(self).wf(),
        ensures
            final(self).wf(),
            final(self).cfg() == old(self).cfg(),
            final(self).spec_frames() == old(self).spec_frames(),
            final(self).storage().len() == old(self).storage().len(),
            forall|c: int|
                0 <= c < old(self).cfg().spec_count() ==> final(self).channel(c) == silent_seq::<
                    S,
                >(old(self).spec_frames() as nat),
    {
        let n: usize = self.memory.len();
        fill_region(&mut self.memory, 0, n);
        proof {
            assert forall|c: int| 0 <= c < self.config.spec_count() implies self.channel(c)
                == silent_seq::<S>(self.frames as nat) by {
                lemma_stride_bounds(
                    self.config.spec_count() as int,
                    self.frames as int,
                    self.memory@.len() as int,
                    c,
                );
                assert(self.channel(c) =~= silent_seq::<S>(self.frames as nat));
            }
        }
    }

    /// A reference buffer needs no work between blocks.
    pub fn prepare(&mut self)
        ensures
            *final(self) == *old(self),
    {
    }
}

/// A reference buffer's channel `c` is exactly the planar slice
/// `[c * frames, (c + 1) * frames)` of the wrapped storage, so samples
/// written through the buffer are visible in the storage handed back by
/// `into_storage` at that offset.
pub proof fn lemma_ref_channel_in_storage<S: Sample>(b: &RefBuffer<S>, c: int)
    requires
        b.wf(),
        0 <= c < b.cfg().spec_count(),
    ensures
        b.channel(c) == b.storage().subrange(
            c * b.spec_frames(),
            c * b.spec_frames() + b.spec_frames(),
        ),
{
}

/// For a buffer whose stride is `len / count`: every channel region lies
/// inside the storage.
proof fn lemma_stride_bounds(count: int, frames: int, len: int, c: int)
    requires
        1 <= count,
        0 <= c < count,
        0 <= len,
        frames == len / count,
    ensures
        0 <= c * frames,
        c * frames + frames <= len,
        (c + 1) * frames == c * frames + frames,
{
    vstd::arithmetic::div_mod::lemma_div_pos_is_pos(len, count);
    assert(0 <= frames);
    lemma_channel_bounds(count, frames, c);
    assert(count * (len / count) <= len) by {
        vstd::arithmetic::div_mod::lemma_fundamental_div_mod(len, count);
        vstd::arithmetic::div_mod::lemma_mod_division_less_than_divisor(len, count);
        assert(count * (len / count) == len - len % count);
    }
}


/// Elementwise mix of two equal-length blocks.
pub open spec fn mixed_seq<S: Sample>(acc: Seq<S>, scratch: Seq<S>) -> Seq<S> {
    Seq::new(acc.len(), |i: int| acc[i].spec_mix(scratch[i]))
}

/// A summing buffer realizes mixing: writers fill the scratch region, and
/// `prepare` folds the scratch into a hidden accumulator and silences the
/// scratch again. Readers see the accumulator, so a port with several
/// producers sees their mix. `clear` touches only the scratch: accumulated
/// history survives it.
pub struct SumBuffer<S: Sample> {
    config: ChannelConfiguration,
    frames: usize,
    memory: Vec<S>,
}

impl<S: Sample> SumBuffer<S> {
    /// Structural soundness: scratch and accumulator regions of
    /// `channels * frames` samples each.
    pub closed spec fn wf(&self) -> bool {
        self.memory@.len() == 2 * (self.config.spec_count() * self.frames)
    }

    /// The buffer's channel configuration.
    pub closed spec fn cfg(&self) -> ChannelConfiguration {
        self.config
    }

    /// Frames per block.
    pub closed spec fn spec_frames(&self) -> usize {
        self.frames
    }

    /// The scratch samples of channel `c` (what writers fill).
    pub closed spec fn scratch_channel(&self, c: int) -> Seq<S> {
        self.memory@.subrange(c * self.frames, c * self.frames + self.frames)
    }

    /// The accumulator samples of channel `c` (what readers see).
    pub closed spec fn acc_channel(&self, c: int) -> Seq<S> {
        self.memory@.subrange(
            self.config.spec_count() * self.frames + c * self.frames,
            self.config.spec_count() * self.frames + c * self.frames + self.frames,
        )
    }

    /// Create a summing buffer, scratch and accumulator silent.
    pub fn new(config: ChannelConfiguration, max_buffer_size: usize) -> (r: SumBuffer<S>)
        requires
            2 * (config.spec_count() * max_buffer_size) <= usize::MAX,
        ensures
            r.wf(),
            r.cfg() == config,
            r.spec_frames() == max_buffer_size,
            forall|c: int|
                0 <= c < config.spec_count() ==> r.scratch_channel(c) == silent_seq::<S>(
                    max_buffer_size as nat,
                ),
            forall|c: int|
                0 <= c < config.spec_count() ==> r.acc_channel(c) == silent_seq::<S>(
                    max_buffer_size as nat,
                ),
    {
        let n: usize = 2 * (config.count() * max_buffer_size);
        let memory: Vec<S> = crate::sample::silence_vec(n);
        let r = SumBuffer { config, frames: max_buffer_size, memory };
        proof {
            let count = r.config.spec_count() as int;
            let frames = max_buffer_size as int;
            assert(2 * (count * frames) == 2 * count * frames) by (nonlinear_arith);
            assert forall|c: int| 0 <= c < count implies r.scratch_channel(c) == silent_seq::<S>(
                max_buffer_size as nat,
            ) && r.acc_channel(c) == silent_seq::<S>(max_buffer_size as nat) by {
                lemma_channel_bounds(2 * count, frames, c);
                lemma_channel_bounds(2 * count, frames, count + c);
                assert(count * frames + c * frames == (count + c) * frames) by (nonlinear_arith);
                assert(r.scratch_channel(c) =~= silent_seq::<S>(max_buffer_size as nat));
                assert(r.acc_channel(c) =~= silent_seq::<S>(max_buffer_size as nat));
            }
        }
        r
    }

    /// The buffer's channel configuration.
    pub fn get_channel_config(&self) -> (r: ChannelConfiguration)
        ensures
            r.same_config(&self.cfg()),
    {
        self.config.duplicate()
    }

    /// Frames per block.
    pub fn num_samples(&self) -> (r: usize)
        ensures
            r == self.spec_frames(),
    {
        self.frames
    }

    /// Read-only view of one accumulator channel: the mix of everything
    /// folded in so far.
    pub fn get_channel(&self, channel_index: usize) -> (r: Result<&[S], Error>)
        requires
            self.wf(),
        ensures
            channel_index < self.cfg().spec_count() ==> (r matches Ok(s) && s@
                == self.acc_channel(channel_index as int) && s@.len() == self.spec_frames()),
            channel_index >= self.cfg().spec_count() ==> r == Result::<&[S], Error>::Err(
                Error::InvalidChannel(channel_index),
            ),
    {
        self.config.check_channel(channel_index)?;
        let total: usize = self.memory.len();
        proof {
            let count = self.config.spec_count() as int;
            let frames = self.frames as int;
            lemma_channel_bounds(2 * count, frames, count + channel_index);
            assert(count * frames + channel_index * frames == (count + channel_index) * frames)
                by (nonlinear_arith);
            assert(2 * (count * frames) == 2 * count * frames) by (nonlinear_arith);
        }
        let base: usize = self.config.count() * self.frames;
        let start: usize = base + channel_index * self.frames;
        Ok(slice_subrange(self.memory.as_slice(), start, start + self.frames))
    }

    /// Overwrite one scratch channel with a block of samples.
    pub fn write_channel(&mut self, channel_index: usize, data: &[S]) -> (r: Result<(), Error>)
        requires
            old(self).wf(),
            data@.len() == old(self).spec_frames(),
        ensures
            final(self).wf(),
            final(self).cfg() == old(self).cfg(),
            final(self).spec_frames() == old(self).spec_frames(),
            channel_index < old(self).cfg().spec_count() ==> (r is Ok
                && final(self).scratch_channel(channel_index as int) == data@ && (forall|c: int|
                0 <= c < old(self).cfg().spec_count() && c != channel_index
                    ==> final(self).scratch_channel(c) == old(self).scratch_channel(c)) && (forall|
                c: int,
            |
                0 <= c < old(self).cfg().spec_count()
                    ==> final(self).acc_channel(c) == old(self).acc_channel(c))),
            channel_index >= old(self).cfg().spec_count() ==> (r == Result::<(), Error>::Err(
                Error::InvalidChannel(channel_index),
            ) && *final(self) == *old(self)),
    {
        self.config.check_channel(channel_index)?;
        let total: usize = self.memory.len();
        proof {
            let count = self.config.spec_count() as int;
            let frames = self.frames as int;
            lemma_channel_bounds(2 * count, frames, channel_index as int);
            assert(2 * (count * frames) == 2 * count * frames) by (nonlinear_arith);
        }
        let start: usize = channel_index * self.frames;
        write_region(&mut self.memory, start, data);
        proof {
            let count = self.config.spec_count() as int;
            let frames = self.frames as int;
            assert forall|c: int| 0 <= c < count && c != channel_index implies self.scratch_channel(
                c,
            ) == old(self).scratch_channel(c) by {
                lemma_channel_bounds(2 * count, frames, c);
                lemma_channel_bounds(2 * count, frames, channel_index as int);
                if c < channel_index {
                    assert(c * frames + frames <= channel_index * frames) by (nonlinear_arith)
                        requires
                            0 <= frames,
                            c < channel_index,
                    ;
                } else {
                    assert(channel_index * frames + frames <= c * frames) by (nonlinear_arith)
                        requires
                            0 <= frames,
                            channel_index < c,
                    ;
                }
                assert(self.scratch_channel(c) =~= old(self).scratch_channel(c));
            }
            assert forall|c: int| 0 <= c < count implies self.acc_channel(c) == old(
                self,
            ).acc_channel(c) by {
                lemma_channel_bounds(2 * count, frames, count + c);
                lemma_channel_bounds(2 * count, frames, channel_index as int);
                assert(count * frames + c * frames == (count + c) * frames) by (nonlinear_arith);
                assert(channel_index * frames + frames <= count * frames + c * frames)
                    by (nonlinear_arith)
                    requires
                        0 <= frames,
                        0 <= c,
                        0 <= channel_index < count,
                ;
                assert(self.acc_channel(c) =~= old(self).acc_channel(c));
            }
            assert(self.scratch_channel(channel_index as int) =~= data@);
        }
        Ok(())
    }

    /// Fold the scratch into the accumulator and silence the scratch.
    pub fn prepare(&mut self)
        requires
            old(self).wf(),
        ensures
            final(self).wf(),
            final(self).cfg() == old(self).cfg(),
            final(self).spec_frames() == old(self).spec_frames(),
            forall|c: int|
                0 <= c < old(self).cfg().spec_count() ==> final(self).scratch_channel(c)
                    == silent_seq::<S>(old(self).spec_frames() as nat),
            forall|c: int|
                0 <= c < old(self).cfg().spec_count() ==> final(self).acc_channel(c) == mixed_seq(
                    old(self).acc_channel(c),
                    old(self).scratch_channel(c),
                ),
    {
        let total: usize = self.memory.len();
        let half: usize = total / 2;
        proof {
            assert(half == self.config.spec_count() * self.frames);
        }
        let mut k: usize = 0;
        while k < half
            invariant
                k <= half,
                half == self.config.spec_count() * self.frames,
                self.memory@.len() == total,
                total == 2 * half,
                self.config == old(self).config,
                self.frames == old(self).frames,
                forall|j: int| 0 <= j < k ==> self.memory@[j] == S::spec_silence(),
                forall|j: int| k <= j < half ==> self.memory@[j] == old(self).memory@[j],
                forall|j: int|
                    half <= j < half + k ==> self.memory@[j] == old(self).memory@[j].spec_mix(
                        old(self).memory@[j - half],
                    ),
                forall|j: int| half + k <= j < 2 * half ==> self.memory@[j] == old(self).memory@[j],
            decreases half - k,
        {
            let sv: S = self.memory[k];
            let av: S = self.memory[half + k];
            self.memory[half + k] = av.mix(sv);
            self.memory[k] = S::silence();
            k = k + 1;
        }
        proof {
            let count = self.config.spec_count() as int;
            let frames = self.frames as int;
            assert forall|c: int| 0 <= c < count implies self.scratch_channel(c) == silent_seq::<
                S,
            >(old(self).spec_frames() as nat) && self.acc_channel(c) == mixed_seq(
                old(self).acc_channel(c),
                old(self).scratch_channel(c),
            ) by {
                lemma_channel_bounds(count, frames, c);
                assert(count * frames + c * frames + frames <= 2 * (count * frames))
                    by (nonlinear_arith)
                    requires
                        0 <= frames,
                        0 <= c < count,
                ;
                assert(self.scratch_channel(c) =~= silent_seq::<S>(
                    old(self).spec_frames() as nat,
                ));
                assert(self.acc_channel(c) =~= mixed_seq(
                    old(self).acc_channel(c),
                    old(self).scratch_channel(c),
                ));
            }
        }
    }

    /// Silence the scratch region only: accumulated history is preserved.
    pub fn clear(&mut self)
        requires
            old(self).wf(),
        ensures
            final(self).wf(),
            final(self).cfg() == old(self).cfg(),
            final(self).spec_frames() == old(self).spec_frames(),
            forall|c: int|
                0 <= c < old(self).cfg().spec_count() ==> final(self).scratch_channel(c)
                    == silent_seq::<S>(old(self).spec_frames() as nat),
            forall|c: int|
                0 <= c < old(self).cfg().spec_count() ==> final(self).acc_channel(c) == old(
                    self,
                ).acc_channel(c),
    {
        let total: usize = self.memory.len();
        let half: usize = total / 2;
        proof {
            assert(half == self.config.spec_count() * self.frames);
        }
        fill_region(&mut self.memory, 0, half);
        proof {
            let count = self.config.spec_count() as int;
            let frames = self.frames as int;
            assert forall|c: int| 0 <= c < count implies self.scratch_channel(c) == silent_seq::<
                S,
            >(old(self).spec_frames() as nat) && self.acc_channel(c) == old(self).acc_channel(
                c,
            ) by {
                lemma_channel_bounds(count, frames, c);
                assert(count * frames + c * frames + frames <= 2 * (count * frames))
                    by (nonlinear_arith)
                    requires
                        0 <= frames,
                        0 <= c < count,
                ;
                assert(self.scratch_channel(c) =~= silent_seq::<S>(
                    old(self).spec_frames() as nat,
                ));
                assert(self.acc_channel(c) =~= old(self).acc_channel(c));
            }
        }
    }
}

/// The accumulator after `n` rounds of mixing the same sample `k` into
/// silence.
pub open spec fn repeat_mix<S: Sample>(n: nat, k: S) -> S
    decreases n,
{
    if n == 0 {
        S::spec_silence()
    } else {
        repeat_mix::<S>((n - 1) as nat, k).spec_mix(k)
    }
}

/// Summing cumulates: over the shipped `i64` samples, `n` rounds of mixing
/// the constant `k` into a cleared accumulator leave exactly `n * k`, as
/// long as that product stays within the sample range. Together with the
/// contract of `SumBuffer::prepare`, which folds each written block into
/// the accumulator elementwise, this pins the cumulative-sum behaviour of
/// the summing buffer; `SumBuffer::clear` keeps the accumulator, so
/// clearing between rounds does not reset the count.
pub proof fn lemma_repeat_mix_i64(n: nat, k: i64)
    requires
        i64::MIN <= n * k <= i64::MAX,
    ensures
        repeat_mix::<i64>(n, k) == n * k,
    decreases n,
{
    if n == 0 {
        assert(n * k == 0) by (nonlinear_arith)
            requires
                n == 0,
        ;
    } else {
        let m = (n - 1) as nat;
        if k >= 0 {
            assert(0 <= m * k <= n * k) by (nonlinear_arith)
                requires
                    m == n - 1,
                    0 <= k,
                    n >= 1,
            ;
        } else {
            assert(n * k <= m * k <= 0) by (nonlinear_arith)
                requires
                    m == n - 1,
                    k < 0,
                    n >= 1,
            ;
        }
        lemma_repeat_mix_i64(m, k);
        assert(m * k + k == n * k) by (nonlinear_arith)
            requires
                m == n - 1,
        ;
        assert(repeat_mix::<i64>(n, k) == repeat_mix::<i64>(m, k).spec_mix(k));
        assert(repeat_mix::<i64>(m, k) == m * k);
    }
}

/// Capacity of each per-channel delay line, in frames.
pub const MAX_DELAY_SIZE: usize = 4096;

/// Position of line slot `j` relative to the write window that starts at
/// `head + delay`: the number of frames ago (modulo the line length) that
/// slot `j` was the write target.
pub open spec fn line_off(j: int, head: int, delay: int) -> int {
    (j - head - delay) % (MAX_DELAY_SIZE as int)
}

/// What a delay channel plays back for a written block: sample `n` is the
/// block's own sample `n - delay` once `delay` frames have passed, and
/// before that whatever the line recorded at the read position.
pub open spec fn delayed_channel<S: Sample>(
    scratch: Seq<S>,
    line: Seq<S>,
    head: int,
    delay: int,
) -> Seq<S> {
    Seq::new(
        scratch.len(),
        |n: int|
            if n >= delay {
                scratch[n - delay]
            } else {
                line[(head + n) % (MAX_DELAY_SIZE as int)]
            },
    )
}

/// The delay line after a block was recorded: the write window starting at
/// `head + delay` holds the block, every other slot keeps its history.
pub open spec fn shifted_line<S: Sample>(
    scratch: Seq<S>,
    line: Seq<S>,
    head: int,
    delay: int,
) -> Seq<S> {
    Seq::new(
        line.len(),
        |j: int|
            if line_off(j, head, delay) < scratch.len() {
                scratch[line_off(j, head, delay)]
            } else {
                line[j]
            },
    )
}

/// A slot computed as `(head + delay + m) % MAX_DELAY_SIZE` has offset `m`
/// in the write window.
proof fn lemma_slot_off(head: int, delay: int, m: int)
    requires
        0 <= head,
        0 <= delay,
        0 <= m < MAX_DELAY_SIZE,
    ensures
        line_off((head + delay + m) % (MAX_DELAY_SIZE as int), head, delay) == m,
{
    let d = MAX_DELAY_SIZE as int;
    let a = head + delay;
    vstd::arithmetic::div_mod::lemma_fundamental_div_mod(a + m, d);
    let q = (a + m) / d;
    let s = (a + m) % d;
    assert(d * (-q) + m == s - a) by (nonlinear_arith)
        requires
            a + m == d * q + s,
    ;
    vstd::arithmetic::div_mod::lemma_mod_multiples_vanish(-q, m, d);
    vstd::arithmetic::div_mod::lemma_small_mod(m as nat, d as nat);
}

/// Offsets identify slots: going from a slot to its offset and back yields
/// the slot again, so distinct offsets mean distinct slots.
proof fn lemma_off_slot(head: int, delay: int, j: int)
    requires
        0 <= head,
        0 <= delay,
        0 <= j < MAX_DELAY_SIZE,
    ensures
        0 <= line_off(j, head, delay) < MAX_DELAY_SIZE,
        (head + delay + line_off(j, head, delay)) % (MAX_DELAY_SIZE as int) == j,
{
    let d = MAX_DELAY_SIZE as int;
    let a = head + delay;
    vstd::arithmetic::div_mod::lemma_mod_division_less_than_divisor(j - a, d);
    vstd::arithmetic::div_mod::lemma_fundamental_div_mod(j - a, d);
    let q = (j - a) / d;
    let off = (j - a) % d;
    assert(d * (-q) + j == a + off) by (nonlinear_arith)
        requires
            j - a == d * q + off,
    ;
    vstd::arithmetic::div_mod::lemma_mod_multiples_vanish(-q, j, d);
    vstd::arithmetic::div_mod::lemma_small_mod(j as nat, d as nat);
}

/// A delay buffer: a scratch block plus one circular delay line per channel.
/// A written block surfaces again `delay` frames later: `prepare` records
/// the scratch into the line `delay` frames ahead of the read position,
/// copies what the line holds at the read position back into the scratch,
/// and advances the head by one block.
pub struct DelBuffer<S: Sample> {
    config: ChannelConfiguration,
    frames: usize,
    delay: usize,
    record_head: usize,
    memory: Vec<S>,
}

impl<S: Sample> DelBuffer<S> {
    /// Structural soundness: a scratch region of `channels * frames`
    /// samples followed by one line of `MAX_DELAY_SIZE` samples per
    /// channel; block, delay and head all fit the line.
    pub closed spec fn wf(&self) -> bool {
        &&& self.memory@.len() == self.config.spec_count() * self.frames
            + self.config.spec_count() * MAX_DELAY_SIZE
        &&& self.frames <= MAX_DELAY_SIZE
        &&& self.delay < MAX_DELAY_SIZE
        &&& self.record_head < MAX_DELAY_SIZE
    }

    /// The buffer's channel configuration.
    pub closed spec fn cfg(&self) -> ChannelConfiguration {
        self.config
    }

    /// Frames per block.
    pub closed spec fn spec_frames(&self) -> usize {
        self.frames
    }

    /// The configured delay in frames.
    pub closed spec fn spec_delay(&self) -> usize {
        self.delay
    }

    /// The line position the next block is read at.
    pub closed spec fn spec_head(&self) -> usize {
        self.record_head
    }

    /// The scratch samples of channel `c`.
    pub closed spec fn scratch_channel(&self, c: int) -> Seq<S> {
        self.memory@.subrange(c * self.frames, c * self.frames + self.frames)
    }

    /// The delay-line samples of channel `c`.
    pub closed spec fn line_channel(&self, c: int) -> Seq<S> {
        self.memory@.subrange(
            self.config.spec_count() * self.frames + c * MAX_DELAY_SIZE,
            self.config.spec_count() * self.frames + c * MAX_DELAY_SIZE + MAX_DELAY_SIZE,
        )
    }

    /// Create a delay buffer, scratch and lines silent, head at zero.
    pub fn new(config: ChannelConfiguration, max_buffer_size: usize, delay: usize) -> (r: DelBuffer<
        S,
    >)
        requires
            max_buffer_size <= MAX_DELAY_SIZE,
            delay < MAX_DELAY_SIZE,
            config.spec_count() * max_buffer_size + config.spec_count() * MAX_DELAY_SIZE
                <= usize::MAX,
        ensures
            r.wf(),
            r.cfg() == config,
            r.spec_frames() == max_buffer_size,
            r.spec_delay() == delay,
            r.spec_head() == 0,
            forall|c: int|
                0 <= c < config.spec_count() ==> r.scratch_channel(c) == silent_seq::<S>(
                    max_buffer_size as nat,
                ),
            forall|c: int|
                0 <= c < config.spec_count() ==> r.line_channel(c) == silent_seq::<S>(
                    MAX_DELAY_SIZE as nat,
                ),
    {
        let scratch_len: usize = config.count() * max_buffer_size;
        let lines_len: usize = config.count() * MAX_DELAY_SIZE;
        let memory: Vec<S> = crate::sample::silence_vec(scratch_len + lines_len);
        let r = DelBuffer { config, frames: max_buffer_size, delay, record_head: 0, memory };
        proof {
            let count = r.config.spec_count() as int;
            let frames = max_buffer_size as int;
            assert forall|c: int| 0 <= c < count implies r.scratch_channel(c) == silent_seq::<S>(
                max_buffer_size as nat,
            ) && r.line_channel(c) == silent_seq::<S>(MAX_DELAY_SIZE as nat) by {
                lemma_channel_bounds(count, frames, c);
                lemma_channel_bounds(count, MAX_DELAY_SIZE as int, c);
                assert(r.scratch_channel(c) =~= silent_seq::<S>(max_buffer_size as nat));
                assert(r.line_channel(c) =~= silent_seq::<S>(MAX_DELAY_SIZE as nat));
            }
        }
        r
    }

    /// The buffer's channel configuration.
    pub fn get_channel_config(&self) -> (r: ChannelConfiguration)
        ensures
            r.same_config(&self.cfg()),
    {
        self.config.duplicate()
    }

    /// Frames per block.
    pub fn num_samples(&self) -> (r: usize)
        ensures
            r == self.spec_frames(),
    {
        self.frames
    }

    /// Read-only view of one scratch channel (after `prepare`, the delayed
    /// signal).
    pub fn get_channel(&self, channel_index: usize) -> (r: Result<&[S], Error>)
        requires
            self.wf(),
        ensures
            channel_index < self.cfg().spec_count() ==> (r matches Ok(s) && s@
                == self.scratch_channel(channel_index as int) && s@.len() == self.spec_frames()),
            channel_index >= self.cfg().spec_count() ==> r == Result::<&[S], Error>::Err(
                Error::InvalidChannel(channel_index),
            ),
    {
        self.config.check_channel(channel_index)?;
        let total: usize = self.memory.len();
        proof {
            let count = self.config.spec_count() as int;
            let frames = self.frames as int;
            lemma_channel_bounds(count, frames, channel_index as int);
            assert(count * frames <= total) by (nonlinear_arith)
                requires
                    total == count * frames + count * (MAX_DELAY_SIZE as int),
                    count >= 0,
            ;
        }
        let start: usize = channel_index * self.frames;
        Ok(slice_subrange(self.memory.as_slice(), start, start + self.frames))
    }

    /// Overwrite one scratch channel with a block of samples.
    pub fn write_channel(&mut self, channel_index: usize, data: &[S]) -> (r: Result<(), Error>)
        requires
            old(self).wf(),
            data@.len() == old(self).spec_frames(),
        ensures
            final(self).wf(),
            final(self).cfg() == old(self).cfg(),
            final(self).spec_frames() == old(self).spec_frames(),
            final(self).spec_delay() == old(self).spec_delay(),
            final(self).spec_head() == old(self).spec_head(),
            channel_index < old(self).cfg().spec_count() ==> (r is Ok
                && final(self).scratch_channel(channel_index as int) == data@ && (forall|c: int|
                0 <= c < old(self).cfg().spec_count() && c != channel_index
                    ==> final(self).scratch_channel(c) == old(self).scratch_channel(c)) && (forall|
                c: int,
            |
                0 <= c < old(self).cfg().spec_count()
                    ==> final(self).line_channel(c) == old(self).line_channel(c))),
            channel_index >= old(self).cfg().spec_count() ==> (r == Result::<(), Error>::Err(
                Error::InvalidChannel(channel_index),
            ) && *final(self) == *old(self)),
    {
        self.config.check_channel(channel_index)?;
        let total: usize = self.memory.len();
        proof {
            let count = self.config.spec_count() as int;
            let frames = self.frames as int;
            lemma_channel_bounds(count, frames, channel_index as int);
            assert(count * frames <= total) by (nonlinear_arith)
                requires
                    total == count * frames + count * (MAX_DELAY_SIZE as int),
                    count >= 0,
            ;
        }
        let start: usize = channel_index * self.frames;
        write_region(&mut self.memory, start, data);
        proof {
            let count = self.config.spec_count() as int;
            let frames = self.frames as int;
            let dmax = MAX_DELAY_SIZE as int;
            assert forall|c: int| 0 <= c < count && c != channel_index implies self.scratch_channel(
                c,
            ) == old(self).scratch_channel(c) by {
                lemma_channel_bounds(count, frames, c);
                lemma_channel_bounds(count, frames, channel_index as int);
                if c < channel_index {
                    assert(c * frames + frames <= channel_index * frames) by (nonlinear_arith)
                        requires
                            0 <= frames,
                            c < channel_index,
                    ;
                } else {
                    assert(channel_index * frames + frames <= c * frames) by (nonlinear_arith)
                        requires
                            0 <= frames,
                            channel_index < c,
                    ;
                }
                assert(self.scratch_channel(c) =~= old(self).scratch_channel(c));
            }
            assert forall|c: int| 0 <= c < count implies self.line_channel(c) == old(
                self,
            ).line_channel(c) by {
                lemma_channel_bounds(count, dmax, c);
                lemma_channel_bounds(count, frames, channel_index as int);
                assert(channel_index * frames + frames <= count * frames + c * dmax)
                    by (nonlinear_arith)
                    requires
                        0 <= frames,
                        0 <= dmax,
                        0 <= c,
                        0 <= channel_index < count,
                ;
                assert(self.line_channel(c) =~= old(self).line_channel(c));
            }
            assert(self.scratch_channel(channel_index as int) =~= data@);
        }
        Ok(())
    }

    /// Silence the scratch region only: the line history is preserved.
    pub fn clear(&mut self)
        requires
            old(self).wf(),
        ensures
            final(self).wf(),
            final(self).cfg() == old(self).cfg(),
            final(self).spec_frames() == old(self).spec_frames(),
            final(self).spec_delay() == old(self).spec_delay(),
            final(self).spec_head() == old(self).spec_head(),
            forall|c: int|
                0 <= c < old(self).cfg().spec_count() ==> final(self).scratch_channel(c)
                    == silent_seq::<S>(old(self).spec_frames() as nat),
            forall|c: int|
                0 <= c < old(self).cfg().spec_count() ==> final(self).line_channel(c) == old(
                    self,
                ).line_channel(c),
    {
        let total: usize = self.memory.len();
        let lines: usize = self.config.count() * MAX_DELAY_SIZE;
        proof {
            let count = self.config.spec_count() as int;
            let frames = self.frames as int;
            let dmax = MAX_DELAY_SIZE as int;
            assert(count * frames == total - count * dmax);
        }
        let scratch_len: usize = total - lines;
        fill_region(&mut self.memory, 0, scratch_len);
        proof {
            let count = self.config.spec_count() as int;
            let frames = self.frames as int;
            let dmax = MAX_DELAY_SIZE as int;
            assert forall|c: int| 0 <= c < count implies self.scratch_channel(c) == silent_seq::<
                S,
            >(old(self).spec_frames() as nat) && self.line_channel(c) == old(self).line_channel(
                c,
            ) by {
                lemma_channel_bounds(count, frames, c);
                lemma_channel_bounds(count, dmax, c);
                assert(self.scratch_channel(c) =~= silent_seq::<S>(
                    old(self).spec_frames() as nat,
                ));
                assert(self.line_channel(c) =~= old(self).line_channel(c));
            }
        }
    }

    /// Record the scratch into each channel's line `delay` frames ahead,
    /// read the line back at the current head, and advance the head by one
    /// block.
    pub fn prepare(&mut self)
        requires
            old(self).wf(),
        ensures
            final(self).wf(),
            final(self).cfg() == old(self).cfg(),
            final(self).spec_frames() == old(self).spec_frames(),
            final(self).spec_delay() == old(self).spec_delay(),
            final(self).spec_head() == ((old(self).spec_head() + old(self).spec_frames()) % (
            MAX_DELAY_SIZE as int)) as usize,
            forall|c: int|
                0 <= c < old(self).cfg().spec_count() ==> final(self).scratch_channel(c)
                    == delayed_channel(
                    old(self).scratch_channel(c),
                    old(self).line_channel(c),
                    old(self).spec_head() as int,
                    old(self).spec_delay() as int,
                ),
            forall|c: int|
                0 <= c < old(self).cfg().spec_count() ==> final(self).line_channel(c)
                    == shifted_line(
                    old(self).scratch_channel(c),
                    old(self).line_channel(c),
                    old(self).spec_head() as int,
                    old(self).spec_delay() as int,
                ),
    {
        let count: usize = self.config.count();
        let frames: usize = self.frames;
        let head: usize = self.record_head;
        let delay: usize = self.delay;
        let total: usize = self.memory.len();
        self.record_head = (head + frames) % MAX_DELAY_SIZE;
        let mut c: usize = 0;
        while c < count
            invariant
                c <= count,
                self.config == old(self).config,
                self.frames == old(self).frames,
                self.delay == old(self).delay,
                old(self).wf(),
                self.memory@.len() == total,
                total == count * frames + count * MAX_DELAY_SIZE,
                count == self.config.spec_count(),
                frames == self.frames,
                head == old(self).spec_head(),
                self.record_head as int == (head + frames) % (MAX_DELAY_SIZE as int),
                delay == self.delay,
                forall|d: int|
                    0 <= d < c ==> self.scratch_channel(d) == delayed_channel(
                        old(self).scratch_channel(d),
                        old(self).line_channel(d),
                        head as int,
                        delay as int,
                    ),
                forall|d: int|
                    0 <= d < c ==> self.line_channel(d) == shifted_line(
                        old(self).scratch_channel(d),
                        old(self).line_channel(d),
                        head as int,
                        delay as int,
                    ),
                forall|d: int|
                    c <= d < count ==> self.scratch_channel(d) == old(self).scratch_channel(d),
                forall|d: int| c <= d < count ==> self.line_channel(d) == old(self).line_channel(d),
            decreases count - c,
        {
            proof {
                lemma_channel_bounds(count as int, frames as int, c as int);
                lemma_channel_bounds(count as int, MAX_DELAY_SIZE as int, c as int);
                assert(count * frames + c * MAX_DELAY_SIZE + MAX_DELAY_SIZE <= total)
                    by (nonlinear_arith)
                    requires
                        total == count * frames + count * MAX_DELAY_SIZE,
                        0 <= c < count,
                ;
            }
            let sbase: usize = c * frames;
            let lbase: usize = count * frames + c * MAX_DELAY_SIZE;
            let ghost pre = self.memory@;
            let ghost pre_scr = pre.subrange(sbase as int, sbase + frames);
            let ghost pre_line = pre.subrange(lbase as int, lbase + MAX_DELAY_SIZE);
            let ghost dch = delayed_channel(pre_scr, pre_line, head as int, delay as int);
            proof {
                assert forall|d: int| 0 <= d < count implies pre.subrange(
                    d * frames,
                    d * frames + frames,
                ) == self.scratch_channel(d) && pre.subrange(
                    count * frames + d * MAX_DELAY_SIZE,
                    count * frames + d * MAX_DELAY_SIZE + MAX_DELAY_SIZE,
                ) == self.line_channel(d) by {
                    lemma_channel_bounds(count as int, frames as int, d);
                    lemma_channel_bounds(count as int, MAX_DELAY_SIZE as int, d);
                    assert(count * frames + d * MAX_DELAY_SIZE + MAX_DELAY_SIZE <= total)
                        by (nonlinear_arith)
                        requires
                            total == count * frames + count * MAX_DELAY_SIZE,
                            0 <= d < count,
                    ;
                    assert(pre.subrange(d * frames, d * frames + frames) =~= self.scratch_channel(
                        d,
                    ));
                    assert(pre.subrange(
                        count * frames + d * MAX_DELAY_SIZE,
                        count * frames + d * MAX_DELAY_SIZE + MAX_DELAY_SIZE,
                    ) =~= self.line_channel(d));
                }
            }
            let ghost entry_scr = Seq::new(count as nat, |d: int| self.scratch_channel(d));
            let ghost entry_line = Seq::new(count as nat, |d: int| self.line_channel(d));
            proof {
                assert forall|d: int| 0 <= d < count implies entry_scr[d] == pre.subrange(
                    d * frames,
                    d * frames + frames,
                ) && entry_line[d] == pre.subrange(
                    count * frames + d * MAX_DELAY_SIZE,
                    count * frames + d * MAX_DELAY_SIZE + MAX_DELAY_SIZE,
                ) by {
                }
                assert forall|d: int| 0 <= d < c implies entry_scr[d] == delayed_channel(
                    old(self).scratch_channel(d),
                    old(self).line_channel(d),
                    head as int,
                    delay as int,
                ) && entry_line[d] == shifted_line(
                    old(self).scratch_channel(d),
                    old(self).line_channel(d),
                    head as int,
                    delay as int,
                ) by {
                }
                assert forall|d: int| c <= d < count implies entry_scr[d] == old(
                    self,
                ).scratch_channel(d) && entry_line[d] == old(self).line_channel(d) by {
                }
            }
            let mut n: usize = 0;
            while n < frames
                invariant
                    n <= frames,
                    c < count,
                    self.config == old(self).config,
                    self.frames == old(self).frames,
                    self.delay == old(self).delay,
                    count == self.config.spec_count(),
                    frames == self.frames,
                    head == old(self).spec_head(),
                    self.record_head as int == (head + frames) % (MAX_DELAY_SIZE as int),
                    delay == self.delay,
                    frames <= MAX_DELAY_SIZE,
                    delay < MAX_DELAY_SIZE,
                    head < MAX_DELAY_SIZE,
                    sbase == c * frames,
                    lbase == count * frames + c * MAX_DELAY_SIZE,
                    sbase + frames <= lbase,
                    lbase + MAX_DELAY_SIZE <= total,
                    self.memory@.len() == total,
                    pre.len() == total,
                    pre_scr == pre.subrange(sbase as int, sbase + frames),
                    pre_line == pre.subrange(lbase as int, lbase + MAX_DELAY_SIZE),
                    dch == delayed_channel(pre_scr, pre_line, head as int, delay as int),
                    forall|j: int|
                        0 <= j < total && !(sbase <= j < sbase + frames) && !(lbase <= j < lbase
                            + MAX_DELAY_SIZE) ==> self.memory@[j] == pre[j],
                    forall|j: int| sbase <= j < sbase + n ==> self.memory@[j] == dch[j - sbase],
                    forall|j: int|
                        sbase + n <= j < sbase + frames ==> self.memory@[j] == pre[j],
                    forall|j: int|
                        lbase <= j < lbase + MAX_DELAY_SIZE ==> self.memory@[j] == (if line_off(
                            j - lbase,
                            head as int,
                            delay as int,
                        ) < n {
                            pre[sbase + line_off(j - lbase, head as int, delay as int)]
                        } else {
                            pre[j]
                        }),
                decreases frames - n,
            {
                let tmp: S = self.memory[sbase + n];
                let wslot: usize = (head + delay + n) % MAX_DELAY_SIZE;
                proof {
                    lemma_slot_off(head as int, delay as int, n as int);
                }
                self.memory[lbase + wslot] = tmp;
                let rslot: usize = (head + n) % MAX_DELAY_SIZE;
                proof {
                    if n >= delay {
                        lemma_slot_off(head as int, delay as int, n - delay);
                        assert(head + delay + (n - delay) == head + n);
                    } else {
                        lemma_slot_off(head as int, delay as int, n - delay + MAX_DELAY_SIZE);
                        vstd::arithmetic::div_mod::lemma_mod_multiples_vanish(
                            1,
                            (head + n) as int,
                            MAX_DELAY_SIZE as int,
                        );
                        assert((head + delay + (n - delay + MAX_DELAY_SIZE)) as int == (
                        MAX_DELAY_SIZE as int) * 1 + (head + n));
                    }
                }
                let rv: S = self.memory[lbase + rslot];
                self.memory[sbase + n] = rv;
                proof {
                    assert(tmp == pre[sbase + n]);
                    assert(line_off(wslot as int, head as int, delay as int) == n);
                    if n >= delay {
                        assert(line_off(rslot as int, head as int, delay as int) == n - delay);
                        assert(rv == pre[sbase + (n - delay)]);
                        assert(rv == dch[n as int]);
                    } else {
                        assert(line_off(rslot as int, head as int, delay as int) == n - delay
                            + MAX_DELAY_SIZE);
                        assert(rv == pre[lbase + rslot]);
                        assert(dch[n as int] == pre_line[(head + n) % (MAX_DELAY_SIZE as int)]);
                        assert(rslot as int == (head + n) % (MAX_DELAY_SIZE as int));
                        assert(rv == dch[n as int]);
                    }
                    assert forall|j: int| lbase <= j < lbase + MAX_DELAY_SIZE implies self.memory@[j]
                        == (if line_off(j - lbase, head as int, delay as int) < n + 1 {
                        pre[sbase + line_off(j - lbase, head as int, delay as int)]
                    } else {
                        pre[j]
                    }) by {
                        lemma_off_slot(head as int, delay as int, j - lbase);
                    }
                }
                n = n + 1;
            }
            proof {
                assert(pre_scr =~= old(self).scratch_channel(c as int));
                assert(pre_line =~= old(self).line_channel(c as int));
                assert(self.scratch_channel(c as int) =~= dch);
                assert(delayed_channel(pre_scr, pre_line, head as int, delay as int)
                    =~= delayed_channel(
                    old(self).scratch_channel(c as int),
                    old(self).line_channel(c as int),
                    head as int,
                    delay as int,
                ));
                assert(self.line_channel(c as int) =~= shifted_line(
                    old(self).scratch_channel(c as int),
                    old(self).line_channel(c as int),
                    head as int,
                    delay as int,
                ));
                assert forall|d: int| 0 <= d < count && d != c implies self.scratch_channel(d)
                    == pre.subrange(d * frames, d * frames + frames) && self.line_channel(d)
                    == pre.subrange(
                    count * frames + d * MAX_DELAY_SIZE,
                    count * frames + d * MAX_DELAY_SIZE + MAX_DELAY_SIZE,
                ) by {
                    lemma_del_other_channels(
                        pre,
                        self.memory@,
                        count as int,
                        frames as int,
                        c as int,
                        d,
                    );
                    assert(self.scratch_channel(d) == self.memory@.subrange(
                        d * frames,
                        d * frames + frames,
                    ));
                    assert(self.line_channel(d) == self.memory@.subrange(
                        count * frames + d * MAX_DELAY_SIZE,
                        count * frames + d * MAX_DELAY_SIZE + MAX_DELAY_SIZE,
                    ));
                }
            }
            proof {
                assert forall|d: int| 0 <= d < c + 1 implies self.scratch_channel(d)
                    == delayed_channel(
                    old(self).scratch_channel(d),
                    old(self).line_channel(d),
                    head as int,
                    delay as int,
                ) && self.line_channel(d) == shifted_line(
                    old(self).scratch_channel(d),
                    old(self).line_channel(d),
                    head as int,
                    delay as int,
                ) by {
                    if d != c {
                        assert(self.scratch_channel(d) == pre.subrange(
                            d * frames,
                            d * frames + frames,
                        ));
                        assert(entry_scr[d] == pre.subrange(d * frames, d * frames + frames));
                        assert(self.line_channel(d) == pre.subrange(
                            count * frames + d * MAX_DELAY_SIZE,
                            count * frames + d * MAX_DELAY_SIZE + MAX_DELAY_SIZE,
                        ));
                        assert(entry_line[d] == pre.subrange(
                            count * frames + d * MAX_DELAY_SIZE,
                            count * frames + d * MAX_DELAY_SIZE + MAX_DELAY_SIZE,
                        ));
                    }
                }
                assert forall|d: int| c + 1 <= d < count implies self.scratch_channel(d) == old(
                    self,
                ).scratch_channel(d) && self.line_channel(d) == old(self).line_channel(d) by {
                    assert(self.scratch_channel(d) == pre.subrange(
                        d * frames,
                        d * frames + frames,
                    ));
                    assert(entry_scr[d] == pre.subrange(d * frames, d * frames + frames));
                    assert(self.line_channel(d) == pre.subrange(
                        count * frames + d * MAX_DELAY_SIZE,
                        count * frames + d * MAX_DELAY_SIZE + MAX_DELAY_SIZE,
                    ));
                    assert(entry_line[d] == pre.subrange(
                        count * frames + d * MAX_DELAY_SIZE,
                        count * frames + d * MAX_DELAY_SIZE + MAX_DELAY_SIZE,
                    ));
                }
            }
            c = c + 1;
        }
        proof {
            assert forall|ci: int| 0 <= ci < old(self).cfg().spec_count() implies
                self.scratch_channel(ci) == delayed_channel(
                old(self).scratch_channel(ci),
                old(self).line_channel(ci),
                old(self).spec_head() as int,
                old(self).spec_delay() as int,
            ) && self.line_channel(ci) == shifted_line(
                old(self).scratch_channel(ci),
                old(self).line_channel(ci),
                old(self).spec_head() as int,
                old(self).spec_delay() as int,
            ) by {
                assert(self.scratch_channel(ci) == delayed_channel(
                    old(self).scratch_channel(ci),
                    old(self).line_channel(ci),
                    head as int,
                    delay as int,
                ));
                assert(self.line_channel(ci) == shifted_line(
                    old(self).scratch_channel(ci),
                    old(self).line_channel(ci),
                    head as int,
                    delay as int,
                ));
            }
        }
    }
}

/// In a delay buffer's storage, changes confined to channel `c`'s scratch
/// and line regions leave every other channel's regions untouched.
proof fn lemma_del_other_channels<S>(
    before: Seq<S>,
    after: Seq<S>,
    count: int,
    frames: int,
    c: int,
    d: int,
)
    requires
        0 <= c < count,
        0 <= d < count,
        d != c,
        0 <= frames,
        before.len() == count * frames + count * MAX_DELAY_SIZE,
        after.len() == before.len(),
        forall|j: int|
            0 <= j < after.len() && !(c * frames <= j < c * frames + frames) && !(count * frames + c
                * MAX_DELAY_SIZE <= j < count * frames + c * MAX_DELAY_SIZE + MAX_DELAY_SIZE)
                ==> after[j] == before[j],
    ensures
        after.subrange(d * frames, d * frames + frames) == before.subrange(
            d * frames,
            d * frames + frames,
        ),
        after.subrange(
            count * frames + d * MAX_DELAY_SIZE,
            count * frames + d * MAX_DELAY_SIZE + MAX_DELAY_SIZE,
        ) == before.subrange(
            count * frames + d * MAX_DELAY_SIZE,
            count * frames + d * MAX_DELAY_SIZE + MAX_DELAY_SIZE,
        ),
{
    let dmax = MAX_DELAY_SIZE as int;
    lemma_channel_bounds(count, frames, c);
    lemma_channel_bounds(count, frames, d);
    lemma_channel_bounds(count, dmax, c);
    lemma_channel_bounds(count, dmax, d);
    if d < c {
        assert(d * frames + frames <= c * frames && d * dmax + dmax <= c * dmax)
            by (nonlinear_arith)
            requires
                0 <= frames,
                0 <= dmax,
                d < c,
        ;
    } else {
        assert(c * frames + frames <= d * frames && c * dmax + dmax <= d * dmax)
            by (nonlinear_arith)
            requires
                0 <= frames,
                0 <= dmax,
                c < d,
        ;
    }
    assert(after.subrange(d * frames, d * frames + frames) =~= before.subrange(
        d * frames,
        d * frames + frames,
    ));
    assert(after.subrange(count * frames + d * dmax, count * frames + d * dmax + dmax)
        =~= before.subrange(count * frames + d * dmax, count * frames + d * dmax + dmax));
}


/// Delay causality: played against a silent line, a block comes back
/// shifted by the configured delay — sample `n` of the output is sample
/// `n - delay` of the written block once `delay` frames have passed, and
/// silence before that. Together with `DelBuffer::prepare`, whose contract
/// says the scratch becomes exactly this delayed channel, this pins the
/// delay buffer's behaviour on a fresh line.
pub proof fn lemma_delay_causality<S: Sample>(
    written: Seq<S>,
    head: int,
    delay: int,
    n: int,
)
    requires
        0 <= n < written.len(),
        0 <= delay,
        0 <= head,
    ensures
        delayed_channel(written, silent_seq::<S>(MAX_DELAY_SIZE as nat), head, delay)[n] == (if n
            >= delay {
            written[n - delay]
        } else {
            S::spec_silence()
        }),
{
    if n < delay {
        let d = MAX_DELAY_SIZE as int;
        vstd::arithmetic::div_mod::lemma_mod_division_less_than_divisor(head + n, d);
    }
}

} // verus!
