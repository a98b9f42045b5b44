//! The sample player: the reference node of the engine. A controller on
//! any thread posts commands into a bounded single-producer single-consumer
//! queue; the audio side drains the queue once per block and then copies
//! the loaded clip into the output block from the current playhead.
//! Decoded audio travels through the queue as a counted handle, and a
//! clip replaced by a newer one is handed back to the controller over a
//! second queue, where `collect_garbage` drops it: the audio side never
//! copies sample data and frees a clip itself only in the degenerate case
//! that the return queue is full.

use vstd::prelude::*;

use crate::sample::Sample;
use crate::schedule::PlaybackContext;

verus! {

use std::sync::Arc;

/// Capacity of the command queue: enough for bursts of controller traffic
/// between two audio callbacks.
pub const QUEUE_CAPACITY: usize = 2048;

/// The producer half of ringbuf's bounded wait-free queue.
#[verifier::external_type_specification]
#[verifier::external_body]
#[verifier::reject_recursive_types(T)]
pub struct ExProducer<T>(ringbuf::Producer<T>);

/// The consumer half of ringbuf's bounded wait-free queue.
#[verifier::external_type_specification]
#[verifier::external_body]
#[verifier::reject_recursive_types(T)]
pub struct ExConsumer<T>(ringbuf::Consumer<T>);

/// Relies on ringbuf's `RingBuffer::new` and `split`: a bounded queue of
/// the given capacity whose two endpoints may live on different threads.
/// The constructor allocates `capacity + 1` slots, so the capacity must
/// leave room for that extra slot.
#[verifier::external_body]
fn queue_pair<T>(capacity: usize) -> (r: (ringbuf::Producer<T>, ringbuf::Consumer<T>))
    requires
        capacity < usize::MAX,
{
    ringbuf::RingBuffer::new(capacity).split()
}

/// Relies on ringbuf's `Producer::push`: the element is appended, or
/// handed back unchanged when the queue is full.
#[verifier::external_body]
fn queue_push<T>(p: &mut ringbuf::Producer<T>, item: T) -> (r: Result<(), T>)
    ensures
        r matches Err(t) ==> t == item,
{
    p.push(item)
}

/// Relies on ringbuf's `Consumer::pop`: the oldest queued element, if any.
/// What comes back depends on the other thread, so nothing more is
/// promised of the result.
#[verifier::external_body]
fn queue_pop<T>(c: &mut ringbuf::Consumer<T>) -> (r: Option<T>) {
    c.pop()
}

/// Decoded audio, planar (channel-major), immutable once built and shared
/// by counted handle.
pub struct AudioClip<S: Sample> {
    data: Vec<S>,
    num_channels: usize,
    num_samples: usize,
    sample_rate: u32,
}

impl<S: Sample> AudioClip<S> {
    /// Structural soundness: one equally long block per channel.
    pub closed spec fn wf(&self) -> bool {
        self.data@.len() == self.num_channels * self.num_samples && self.num_channels >= 1
    }

    /// Channels in the clip.
    pub closed spec fn spec_channels(&self) -> usize {
        self.num_channels
    }

    /// Frames per channel.
    pub closed spec fn spec_frames(&self) -> usize {
        self.num_samples
    }

    /// Sample rate the clip was recorded at.
    pub closed spec fn spec_rate(&self) -> u32 {
        self.sample_rate
    }

    /// The samples of channel `c`.
    pub closed spec fn chan(&self, c: int) -> Seq<S> {
        self.data@.subrange(c * self.num_samples, c * self.num_samples + self.num_samples)
    }

    /// Wrap planar samples into a clip: the length must divide evenly
    /// among at least one channel.
    pub fn new(data: Vec<S>, num_channels: usize, sample_rate: u32) -> (r: Option<AudioClip<S>>)
        ensures
            r is Some <==> num_channels >= 1 && data@.len() as int % num_channels as int == 0,
            r matches Some(c) ==> c.wf() && c.spec_channels() == num_channels && c.spec_rate()
                == sample_rate && c.spec_frames() == data@.len() as int / num_channels as int
                && (forall|ch: int, i: int|
                0 <= ch < num_channels && 0 <= i < c.spec_frames() ==> c.chan(ch)[i] == data@[ch
                    * c.spec_frames() + i]),
    {
        if num_channels == 0 {
            return None;
        }
        if data.len() % num_channels != 0 {
            return None;
        }
        let num_samples: usize = data.len() / num_channels;
        proof {
            vstd::arithmetic::div_mod::lemma_fundamental_div_mod(
                data@.len() as int,
                num_channels as int,
            );
        }
        let c = AudioClip { data, num_channels, num_samples, sample_rate };
        proof {
            assert forall|ch: int, i: int|
                0 <= ch < num_channels && 0 <= i < c.spec_frames() implies c.chan(ch)[i]
                == c.data@[ch * c.spec_frames() + i] by {
                crate::buffer::lemma_channel_bounds(
                    num_channels as int,
                    num_samples as int,
                    ch,
                );
            }
        }
        Some(c)
    }

    /// Channels in the clip.
    pub fn num_channels(&self) -> (r: usize)
        ensures
            r == self.spec_channels(),
    {
        self.num_channels
    }

    /// Frames per channel.
    pub fn num_samples(&self) -> (r: usize)
        ensures
            r == self.spec_frames(),
    {
        self.num_samples
    }

    /// Sample rate the clip was recorded at.
    pub fn rate(&self) -> (r: u32)
        ensures
            r == self.spec_rate(),
    {
        self.sample_rate
    }

    /// Whether the clip is structurally sound. Clips built through `new`
    /// always are; this lets a consumer re-establish it for a clip that
    /// arrived through an untyped channel.
    pub fn check(&self) -> (r: bool)
        ensures
            r == self.wf(),
    {
        if self.num_channels == 0 {
            return false;
        }
        let ok: bool = self.data.len() / self.num_channels == self.num_samples && self.data.len()
            % self.num_channels == 0;
        proof {
            vstd::arithmetic::div_mod::lemma_fundamental_div_mod(
                self.data@.len() as int,
                self.num_channels as int,
            );
            if ok {
                assert(self.data@.len() == self.num_channels * self.num_samples);
            }
            if self.data@.len() == self.num_channels * self.num_samples {
                vstd::arithmetic::div_mod::lemma_div_multiples_vanish(
                    self.num_samples as int,
                    self.num_channels as int,
                );
                assert(self.num_channels * self.num_samples % self.num_channels as int == 0) by {
                    vstd::arithmetic::div_mod::lemma_mod_multiples_basic(
                        self.num_samples as int,
                        self.num_channels as int,
                    );
                }
            }
        }
        ok
    }

    /// One sample of the clip.
    pub fn sample(&self, c: usize, i: usize) -> (r: S)
        requires
            self.wf(),
            c < self.spec_channels(),
            i < self.spec_frames(),
        ensures
            r == self.chan(c as int)[i as int],
    {
        let total: usize = self.data.len();
        proof {
            crate::buffer::lemma_channel_bounds(
                self.num_channels as int,
                self.num_samples as int,
                c as int,
            );
            assert(c * self.num_samples + i < total);
        }
        self.data[c * self.num_samples + i]
    }
}

/// A command for the player, posted by the controller and drained by the
/// audio side once per block.
pub enum Message<S: Sample> {
    /// Move the playhead to this frame (clamped to the clip length).
    Seek(u64),
    /// Reserved; accepted and ignored.
    Scrub(u64),
    /// Start playing.
    Play,
    /// Stop playing.
    Stop,
    /// Mute or unmute one output channel.
    SetActive(usize, bool),
    /// Replace the loaded clip.
    NewFile(Arc<AudioClip<S>>),
}

/// Whether the player is producing samples.
enum PlayerState {
    Playing,
    Stopped,
}

/// The audio-side half: the loaded clip, the playhead, the per-channel
/// activity mask and the consumer end of the command queue.
#[verifier::reject_recursive_types(S)]
pub struct SamplePlayer<S: Sample> {
    file: Option<Arc<AudioClip<S>>>,
    active: Vec<bool>,
    playhead: usize,
    state: PlayerState,
    rx: ringbuf::Consumer<Message<S>>,
    gc_tx: ringbuf::Producer<Arc<AudioClip<S>>>,
}

/// Width of the per-channel activity mask.
pub const ACTIVE_CHANNELS: usize = 32;

/// Two player states that agree on everything a command or a rendered
/// block can observe: the clip, the playhead, the playing state and the
/// activity mask (the queue endpoints are not part of the view).
pub open spec fn player_view_eq<S: Sample>(a: SamplePlayer<S>, b: SamplePlayer<S>) -> bool {
    &&& b.spec_file() == a.spec_file()
    &&& b.spec_playhead() == a.spec_playhead()
    &&& b.spec_playing() == a.spec_playing()
    &&& (forall|c: int| 0 <= c < ACTIVE_CHANNELS ==> b.spec_active(c) == a.spec_active(c))
}

/// The effect of one command on the player, per variant. Everything a
/// command does not change — the clip, the playhead, the playing state
/// and the per-channel activity mask — is pinned unchanged.
pub open spec fn apply_rel<S: Sample>(
    p: SamplePlayer<S>,
    msg: Message<S>,
    p2: SamplePlayer<S>,
) -> bool {
    match msg {
        Message::Seek(pos) => {
            &&& p2.spec_file() == p.spec_file()
            &&& p2.spec_playing() == p.spec_playing()
            &&& (match p.spec_file() {
                Some(c) => p2.spec_playhead() == (if pos < c.spec_frames() as u64 {
                    pos as usize
                } else {
                    c.spec_frames()
                }),
                None => p2.spec_playhead() == 0,
            })
            &&& (forall|c: int|
                0 <= c < ACTIVE_CHANNELS ==> p2.spec_active(c) == p.spec_active(c))
        },
        Message::Scrub(_) => player_view_eq(p, p2),
        Message::Play => {
            &&& p2.spec_playing()
            &&& p2.spec_file() == p.spec_file()
            &&& p2.spec_playhead() == p.spec_playhead()
            &&& (forall|c: int|
                0 <= c < ACTIVE_CHANNELS ==> p2.spec_active(c) == p.spec_active(c))
        },
        Message::Stop => {
            &&& !p2.spec_playing()
            &&& p2.spec_file() == p.spec_file()
            &&& p2.spec_playhead() == p.spec_playhead()
            &&& (forall|c: int|
                0 <= c < ACTIVE_CHANNELS ==> p2.spec_active(c) == p.spec_active(c))
        },
        Message::SetActive(ch, on) => {
            if ch < ACTIVE_CHANNELS {
                &&& p2.spec_file() == p.spec_file()
                &&& p2.spec_playing() == p.spec_playing()
                &&& p2.spec_playhead() == p.spec_playhead()
                &&& (forall|c: int|
                    0 <= c < ACTIVE_CHANNELS ==> p2.spec_active(c) == (if c == ch {
                        on
                    } else {
                        p.spec_active(c)
                    }))
            } else {
                player_view_eq(p, p2)
            }
        },
        Message::NewFile(c) => {
            if c.wf() {
                &&& p2.spec_file() == Some(c)
                &&& p2.spec_playhead() == 0
                &&& p2.spec_playing() == p.spec_playing()
                &&& (forall|c2: int|
                    0 <= c2 < ACTIVE_CHANNELS ==> p2.spec_active(c2) == p.spec_active(c2))
            } else {
                // a structurally unsound clip (possible only through a
                // forged producer) is ignored
                player_view_eq(p, p2)
            }
        },
    }
}

/// One drained command handled (the named wrapper triggers the
/// existential below).
pub open spec fn apply_step_ok<S: Sample>(
    mid: SamplePlayer<S>,
    msg: Message<S>,
    p2: SamplePlayer<S>,
) -> bool {
    apply_rel(mid, msg, p2)
}

/// The player after applying a sequence of sound commands in order.
pub open spec fn applied_rel<S: Sample>(
    p0: SamplePlayer<S>,
    msgs: Seq<Message<S>>,
    p2: SamplePlayer<S>,
) -> bool
    decreases msgs.len(),
{
    if msgs.len() == 0 {
        player_view_eq(p0, p2)
    } else {
        exists|mid: SamplePlayer<S>|
            applied_rel(p0, msgs.drop_last(), mid) && #[trigger] apply_step_ok(
                mid,
                msgs.last(),
                p2,
            )
    }
}

/// One more command applied extends a command sequence.
proof fn lemma_applied_step<S: Sample>(
    p0: SamplePlayer<S>,
    msgs: Seq<Message<S>>,
    mid: SamplePlayer<S>,
    msg: Message<S>,
    p2: SamplePlayer<S>,
)
    requires
        applied_rel(p0, msgs, mid),
        apply_rel(mid, msg, p2),
    ensures
        applied_rel(p0, msgs.push(msg), p2),
{
    let m2 = msgs.push(msg);
    assert(m2.drop_last() =~= msgs);
    assert(m2.last() == msg);
    assert(apply_step_ok(mid, msg, p2));
    assert(applied_rel(p0, m2, p2));
}

/// A command sequence's outcome carries over to any state with the same
/// view (queue endpoints may differ).
proof fn lemma_applied_view<S: Sample>(
    p0: SamplePlayer<S>,
    msgs: Seq<Message<S>>,
    a: SamplePlayer<S>,
    b: SamplePlayer<S>,
)
    requires
        applied_rel(p0, msgs, a),
        player_view_eq(a, b),
    ensures
        applied_rel(p0, msgs, b),
{
    if msgs.len() == 0 {
        assert(player_view_eq(p0, b));
    } else {
        let mid = choose|mid: SamplePlayer<S>|
            applied_rel(p0, msgs.drop_last(), mid) && #[trigger] apply_step_ok(
                mid,
                msgs.last(),
                a,
            );
        assert(apply_rel(mid, msgs.last(), b)) by {
            match msgs.last() {
                Message::Seek(_) => {},
                Message::Scrub(_) => {},
                Message::Play => {},
                Message::Stop => {},
                Message::SetActive(_, _) => {},
                Message::NewFile(_) => {},
            }
        }
        assert(apply_step_ok(mid, msgs.last(), b));
        assert(applied_rel(p0, msgs, b));
    }
}

/// The effect of rendering one block from player state `p`: the block
/// `c2` holds `p`'s per-sample output everywhere, the clip and activity
/// mask are kept, and the playhead advances (clamped to the clip end,
/// stopping there) exactly when the player was playing.
pub open spec fn render_rel<S: Sample>(
    p: SamplePlayer<S>,
    p2: SamplePlayer<S>,
    c0: PlaybackContext<S>,
    c2: PlaybackContext<S>,
) -> bool {
    &&& c2.spec_frames() == c0.spec_frames()
    &&& c2.spec_channels() == c0.spec_channels()
    &&& c2.spec_rate() == c0.spec_rate()
    &&& (forall|c: int, i: int|
        0 <= c < c0.spec_channels() && 0 <= i < c0.spec_frames() ==> #[trigger] c2.chan(c)[i]
            == p.spec_output(c, i))
    &&& p2.spec_file() == p.spec_file()
    &&& (forall|c: int| 0 <= c < ACTIVE_CHANNELS ==> p2.spec_active(c) == p.spec_active(c))
    &&& (match p.spec_file() {
        Some(clip) => {
            if p.spec_playing() {
                &&& p2.spec_playhead() as int == (if p.spec_playhead() + c0.spec_frames()
                    < clip.spec_frames() {
                    p.spec_playhead() + c0.spec_frames()
                } else {
                    clip.spec_frames() as int
                })
                &&& p2.spec_playing() == (p2.spec_playhead() < clip.spec_frames())
            } else {
                p2.spec_playhead() == p.spec_playhead() && !p2.spec_playing()
            }
        },
        None => p2.spec_playhead() == 0 && p2.spec_playing() == p.spec_playing(),
    })
}

impl<S: Sample> SamplePlayer<S> {
    /// Structural soundness: a full activity mask and a sound clip with a
    /// playhead inside it.
    pub closed spec fn wf(&self) -> bool {
        &&& self.active@.len() == ACTIVE_CHANNELS
        &&& (self.file matches Some(c) ==> c.wf() && self.playhead <= c.spec_frames())
        &&& (self.file is None ==> self.playhead == 0)
    }

    /// The loaded clip, if any.
    pub closed spec fn spec_file(&self) -> Option<Arc<AudioClip<S>>> {
        self.file
    }

    /// The playhead, in frames from the clip start.
    pub closed spec fn spec_playhead(&self) -> usize {
        self.playhead
    }

    /// Whether the player is currently playing.
    pub closed spec fn spec_playing(&self) -> bool {
        self.state is Playing
    }

    /// Whether output channel `c` is active.
    pub closed spec fn spec_active(&self, c: int) -> bool {
        self.active@[c]
    }

    /// Apply one drained command to the player state: exactly one
    /// `apply_rel` step. A structurally unsound clip is ignored rather
    /// than loaded.
    pub fn apply_message(&mut self, msg: Message<S>)
        requires
            old(self).wf(),
        ensures
            final(self).wf(),
            apply_rel(*old(self), msg, *final(self)),
    {
        match msg {
            Message::Seek(pos) => {
                match &self.file {
                    Some(f) => {
                        let frames: usize = f.num_samples();
                        if pos < frames as u64 {
                            self.playhead = pos as usize;
                        } else {
                            self.playhead = frames;
                        }
                    },
                    None => {
                        self.playhead = 0;
                    },
                }
            },
            Message::Scrub(_) => {},
            Message::Play => {
                self.state = PlayerState::Playing;
            },
            Message::Stop => {
                self.state = PlayerState::Stopped;
            },
            Message::SetActive(ch, on) => {
                if ch < ACTIVE_CHANNELS {
                    proof {
                        assert(self.active@.len() == ACTIVE_CHANNELS);
                    }
                    self.active[ch] = on;
                }
            },
            Message::NewFile(c) => {
                if c.check() {
                    let mut replaced: Option<Arc<AudioClip<S>>> = Some(c);
                    core::mem::swap(&mut self.file, &mut replaced);
                    match replaced {
                        Some(old_clip) => {
                            // defer the deallocation to the controller; only
                            // a full return queue makes this thread drop the
                            // clip
                            let _ = queue_push(&mut self.gc_tx, old_clip);
                        },
                        None => {},
                    }
                    self.playhead = 0;
                }
            },
        }
    }

    /// What the player writes to output channel `c`, frame `i`, before the
    /// playhead advances: the clip sample under the playhead when playing,
    /// the channel is active and the clip still covers it, silence
    /// otherwise.
    pub open spec fn spec_output(&self, c: int, i: int) -> S {
        match self.spec_file() {
            Some(clip) => {
                if self.spec_playing() && c < clip.spec_channels() && c < ACTIVE_CHANNELS
                    && self.spec_active(c) && self.spec_playhead() + i < clip.spec_frames() {
                    clip.chan(c)[self.spec_playhead() + i]
                } else {
                    S::spec_silence()
                }
            },
            None => S::spec_silence(),
        }
    }

    /// Render one block from the current state: fill every output channel
    /// per `spec_output`, then advance the playhead (clamped to the clip
    /// end) and stop when the end is reached.
    pub fn render_block(&mut self, ctx: &mut PlaybackContext<S>)
        requires
            old(self).wf(),
            old(ctx).wf(),
        ensures
            final(self).wf(),
            final(ctx).wf(),
            render_rel(*old(self), *final(self), *old(ctx), *final(ctx)),
    {
        let frames: usize = ctx.frames();
        let nchan: usize = ctx.channels();
        let mut c: usize = 0;
        while c < nchan
            invariant
                c <= nchan,
                *self == *old(self),
                self.wf(),
                nchan == old(ctx).spec_channels(),
                frames == old(ctx).spec_frames(),
                ctx.wf(),
                ctx.spec_frames() == frames,
                ctx.spec_channels() == nchan,
                ctx.spec_rate() == old(ctx).spec_rate(),
                forall|c2: int, i: int|
                    0 <= c2 < c && 0 <= i < frames ==> #[trigger] ctx.chan(c2)[i] == old(self).spec_output(c2, i),
            decreases nchan - c,
        {
            let ghost pre_chans = Seq::new(nchan as nat, |c2: int| ctx.chan(c2));
            let mut i: usize = 0;
            while i < frames
                invariant
                    i <= frames,
                    c < nchan,
                    *self == *old(self),
                    self.wf(),
                    nchan == old(ctx).spec_channels(),
                    frames == old(ctx).spec_frames(),
                    ctx.wf(),
                    ctx.spec_frames() == frames,
                    ctx.spec_channels() == nchan,
                    ctx.spec_rate() == old(ctx).spec_rate(),
                    pre_chans.len() == nchan,
                    forall|c2: int|
                        0 <= c2 < nchan && c2 != c ==> #[trigger] ctx.chan(c2) == pre_chans[c2],
                    forall|j: int|
                        0 <= j < i ==> #[trigger] ctx.chan(c as int)[j] == old(self).spec_output(
                            c as int,
                            j,
                        ),
                decreases frames - i,
            {
                let playing: bool = match self.state {
                    PlayerState::Playing => true,
                    PlayerState::Stopped => false,
                };
                let v: S = match &self.file {
                    Some(clip) => {
                        let limit: usize = clip.num_samples();
                        if playing && c < clip.num_channels() && c < ACTIVE_CHANNELS
                            && self.active[c] && i < limit - self.playhead {
                            clip.sample(c, self.playhead + i)
                        } else {
                            S::silence()
                        }
                    },
                    None => S::silence(),
                };
                proof {
                    assert(v == old(self).spec_output(c as int, i as int));
                }
                let ghost before = *ctx;
                ctx.store(c, i, v);
                proof {
                    before.lemma_chan_len(c as int);
                    ctx.lemma_chan_len(c as int);
                    assert forall|j: int| 0 <= j < i + 1 implies #[trigger] ctx.chan(c as int)[j]
                        == old(self).spec_output(c as int, j) by {
                        if j < i {
                            assert(before.chan(c as int)[j] == old(self).spec_output(c as int, j));
                        }
                    }
                    assert forall|c2: int| 0 <= c2 < nchan && c2 != c implies #[trigger] ctx.chan(
                        c2,
                    ) == pre_chans[c2] by {
                        assert(before.chan(c2) == pre_chans[c2]);
                    }
                }
                i = i + 1;
            }
            proof {
                assert forall|c2: int, i2: int|
                    0 <= c2 < c + 1 && 0 <= i2 < frames implies #[trigger] ctx.chan(c2)[i2] == old(self).spec_output(c2, i2) by {
                    if c2 < c {
                        assert(ctx.chan(c2) == pre_chans[c2]);
                        assert(pre_chans[c2][i2] == old(self).spec_output(c2, i2));
                    }
                }
            }
            c = c + 1;
        }
        // advance the playhead and stop at the clip end
        let playing: bool = match self.state {
            PlayerState::Playing => true,
            PlayerState::Stopped => false,
        };
        match &self.file {
            Some(clip) => {
                if playing {
                    let total: usize = clip.num_samples();
                    let remaining: usize = total - self.playhead;
                    if frames >= remaining {
                        self.playhead = total;
                    } else {
                        self.playhead = self.playhead + frames;
                    }
                    if self.playhead >= total {
                        self.state = PlayerState::Stopped;
                    } else {
                        self.state = PlayerState::Playing;
                    }
                }
            },
            None => {},
        }
    }

    /// Drain the command queue (bounded by the queue capacity) and render
    /// one block. What was drained depends on the controller thread, so
    /// the contract only promises a sound player and a block of the same
    /// shape; `render_block` carries the exact per-sample statement.
    pub fn advance(&mut self, ctx: &mut PlaybackContext<S>)
        requires
            old(self).wf(),
            old(ctx).wf(),
        ensures
            final(self).wf(),
            final(ctx).wf(),
            final(ctx).spec_frames() == old(ctx).spec_frames(),
            final(ctx).spec_channels() == old(ctx).spec_channels(),
            final(ctx).spec_rate() == old(ctx).spec_rate(),
            exists|msgs: Seq<Message<S>>, mid: SamplePlayer<S>|
                #[trigger] applied_rel(*old(self), msgs, mid) && render_rel(
                    mid,
                    *final(self),
                    *old(ctx),
                    *final(ctx),
                ),
    {
        let ghost mut msgs: Seq<Message<S>> = Seq::empty();
        proof {
            assert(applied_rel(*old(self), msgs, *self));
        }
        let mut drained: usize = 0;
        while drained < QUEUE_CAPACITY
            invariant
                self.wf(),
                drained <= QUEUE_CAPACITY,
                applied_rel(*old(self), msgs, *self),
            decreases QUEUE_CAPACITY - drained,
        {
            let ghost entry_self = *self;
            match queue_pop(&mut self.rx) {
                Some(msg) => {
                    let ghost m = msg;
                    let ghost pre = *self;
                    proof {
                        lemma_applied_view(*old(self), msgs, entry_self, pre);
                    }
                    self.apply_message(msg);
                    proof {
                        lemma_applied_step(*old(self), msgs, pre, m, *self);
                        msgs = msgs.push(m);
                    }
                },
                None => {
                    proof {
                        lemma_applied_view(*old(self), msgs, entry_self, *self);
                    }
                },
            }
            drained = drained + 1;
        }
        let ghost mid = *self;
        self.render_block(ctx);
        proof {
            assert(applied_rel(*old(self), msgs, mid) && render_rel(
                mid,
                *self,
                *old(ctx),
                *ctx,
            ));
        }
    }
}


/// The controller-side half: the producer end of the command queue plus
/// the metadata of the most recently loaded clip. Posting never blocks;
/// each method reports whether its command fit the queue.
#[verifier::reject_recursive_types(S)]
pub struct SamplePlayerController<S: Sample> {
    tx: ringbuf::Producer<Message<S>>,
    gc_rx: ringbuf::Consumer<Arc<AudioClip<S>>>,
    sample_rate: Option<u32>,
    num_channels: Option<usize>,
    num_samples: Option<usize>,
}

impl<S: Sample> SamplePlayerController<S> {
    /// Sample rate of the last loaded clip.
    pub closed spec fn spec_rate(&self) -> Option<u32> {
        self.sample_rate
    }

    /// Frames of the last loaded clip.
    pub closed spec fn spec_frames(&self) -> Option<usize> {
        self.num_samples
    }

    /// Channels of the last loaded clip.
    pub closed spec fn spec_channels(&self) -> Option<usize> {
        self.num_channels
    }

    /// Sample rate of the last loaded clip.
    pub fn sample_rate(&self) -> (r: Option<u32>)
        ensures
            r == self.spec_rate(),
    {
        self.sample_rate
    }

    /// Duration of the last loaded clip, in frames.
    pub fn duration_samples(&self) -> (r: Option<usize>)
        ensures
            r == self.spec_frames(),
    {
        self.num_samples
    }

    /// Channels of the last loaded clip.
    pub fn num_channels(&self) -> (r: Option<usize>)
        ensures
            r == self.spec_channels(),
    {
        self.num_channels
    }

    /// Post one command; reports whether it fit the queue.
    fn send_msg(&mut self, message: Message<S>) -> (r: bool)
        ensures
            final(self).spec_rate() == old(self).spec_rate(),
            final(self).spec_frames() == old(self).spec_frames(),
            final(self).spec_channels() == old(self).spec_channels(),
    {
        match queue_push(&mut self.tx, message) {
            Ok(()) => true,
            Err(_) => false,
        }
    }

    /// Move the playhead to this frame (clamped by the player).
    pub fn seek(&mut self, pos: u64) -> (r: bool)
        ensures
            final(self).spec_rate() == old(self).spec_rate(),
            final(self).spec_frames() == old(self).spec_frames(),
            final(self).spec_channels() == old(self).spec_channels(),
    {
        self.send_msg(Message::Seek(pos))
    }

    /// Start playing.
    pub fn play(&mut self) -> (r: bool)
        ensures
            final(self).spec_rate() == old(self).spec_rate(),
            final(self).spec_frames() == old(self).spec_frames(),
            final(self).spec_channels() == old(self).spec_channels(),
    {
        self.send_msg(Message::Play)
    }

    /// Stop playing.
    pub fn stop(&mut self) -> (r: bool)
        ensures
            final(self).spec_rate() == old(self).spec_rate(),
            final(self).spec_frames() == old(self).spec_frames(),
            final(self).spec_channels() == old(self).spec_channels(),
    {
        self.send_msg(Message::Stop)
    }

    /// Reserved; the player accepts and ignores it.
    pub fn scrub(&mut self, pos: u64) -> (r: bool)
        ensures
            final(self).spec_rate() == old(self).spec_rate(),
            final(self).spec_frames() == old(self).spec_frames(),
            final(self).spec_channels() == old(self).spec_channels(),
    {
        self.send_msg(Message::Scrub(pos))
    }

    /// Mute or unmute one output channel.
    pub fn set_active(&mut self, channel_index: usize, active: bool) -> (r: bool)
        ensures
            final(self).spec_rate() == old(self).spec_rate(),
            final(self).spec_frames() == old(self).spec_frames(),
            final(self).spec_channels() == old(self).spec_channels(),
    {
        self.send_msg(Message::SetActive(channel_index, active))
    }

    /// Drop clip handles the player released when newer files replaced
    /// them; run this from any non-audio thread at a comfortable cadence.
    /// Returns how many clips were reclaimed.
    pub fn collect_garbage(&mut self) -> (r: usize)
        ensures
            final(self).spec_rate() == old(self).spec_rate(),
            final(self).spec_frames() == old(self).spec_frames(),
            final(self).spec_channels() == old(self).spec_channels(),
    {
        let mut freed: usize = 0;
        let mut drained: usize = 0;
        while drained < QUEUE_CAPACITY
            invariant
                drained <= QUEUE_CAPACITY,
                freed <= drained,
                self.sample_rate == old(self).sample_rate,
                self.num_channels == old(self).num_channels,
                self.num_samples == old(self).num_samples,
            decreases QUEUE_CAPACITY - drained,
        {
            match queue_pop(&mut self.gc_rx) {
                Some(clip) => {
                    // dropping the handle here frees the clip on this
                    // thread once it is the last one
                    let _ = clip;
                    freed = freed + 1;
                },
                None => {},
            }
            drained = drained + 1;
        }
        freed
    }

    /// Hand a decoded clip to the player and remember its metadata. The
    /// clip travels by counted handle, so the audio side frees nothing.
    pub fn load_file(&mut self, clip: Arc<AudioClip<S>>) -> (r: bool)
        requires
            clip.wf(),
        ensures
            final(self).spec_rate() == Some(clip.spec_rate()),
            final(self).spec_frames() == Some(clip.spec_frames()),
            final(self).spec_channels() == Some(clip.spec_channels()),
    {
        self.num_samples = Some(clip.num_samples());
        self.num_channels = Some(clip.num_channels());
        self.sample_rate = Some(clip.rate());
        self.send_msg(Message::NewFile(clip))
    }
}

/// Create a sample player and its controller, joined by a bounded command
/// queue. The player starts stopped, with no clip, the playhead at zero
/// and every channel active.
pub fn sample_player<S: Sample>() -> (r: (SamplePlayer<S>, SamplePlayerController<S>))
    ensures
        r.0.wf(),
        !r.0.spec_playing(),
        r.0.spec_file() is None,
        r.0.spec_playhead() == 0,
        forall|c: int| 0 <= c < ACTIVE_CHANNELS ==> r.0.spec_active(c),
        r.1.spec_rate() is None,
        r.1.spec_frames() is None,
        r.1.spec_channels() is None,
{
    let (tx, rx) = queue_pair(QUEUE_CAPACITY);
    let (gc_tx, gc_rx) = queue_pair(QUEUE_CAPACITY);
    let mut active: Vec<bool> = Vec::new();
    let mut i: usize = 0;
    while i < ACTIVE_CHANNELS
        invariant
            i <= ACTIVE_CHANNELS,
            active@.len() == i,
            forall|c: int| 0 <= c < i ==> active@[c],
        decreases ACTIVE_CHANNELS - i,
    {
        active.push(true);
        i = i + 1;
    }
    (
        SamplePlayer {
            file: None,
            active,
            playhead: 0,
            state: PlayerState::Stopped,
            rx,
            gc_tx,
        },
        SamplePlayerController {
            tx,
            gc_rx,
            sample_rate: None,
            num_channels: None,
            num_samples: None,
        },
    )
}

} // verus!
