//! The sample player and its command queue: ordering, seeking, muting and
//! back-pressure.

use std::sync::Arc;

use signal_graph::player::{sample_player, AudioClip};
use signal_graph::schedule::PlaybackContext;

fn ramp_clip(frames: usize) -> Arc<AudioClip<i64>> {
    let data: Vec<i64> = (0..frames).map(|i| i as i64 + 1).collect();
    Arc::new(AudioClip::new(data, 1, 48000).unwrap())
}

#[test]
fn load_then_play_is_observed_in_order() {
    // a LoadFile posted before a Play: the first block after both plays
    // the new clip from its start
    let (mut player, mut controller) = sample_player::<i64>();
    let clip = ramp_clip(256);
    assert!(controller.load_file(clip));
    assert!(controller.play());
    let mut ctx: PlaybackContext<i64> = PlaybackContext::new(64, 48000, 1);
    player.advance(&mut ctx);
    for i in 0..64 {
        assert_eq!(ctx.sample(0, i), (i as i64) + 1);
    }
    // the next block continues where the first left off
    player.advance(&mut ctx);
    for i in 0..64 {
        assert_eq!(ctx.sample(0, i), (i as i64) + 65);
    }
}

#[test]
fn stopped_player_writes_silence() {
    let (mut player, mut controller) = sample_player::<i64>();
    let clip = ramp_clip(256);
    assert!(controller.load_file(clip));
    // no Play: the player stays stopped and emits silence
    let mut ctx: PlaybackContext<i64> = PlaybackContext::new(32, 48000, 1);
    player.advance(&mut ctx);
    for i in 0..32 {
        assert_eq!(ctx.sample(0, i), 0);
    }
}

#[test]
fn seek_moves_the_playhead() {
    let (mut player, mut controller) = sample_player::<i64>();
    assert!(controller.load_file(ramp_clip(256)));
    assert!(controller.seek(100));
    assert!(controller.play());
    let mut ctx: PlaybackContext<i64> = PlaybackContext::new(16, 48000, 1);
    player.advance(&mut ctx);
    for i in 0..16 {
        assert_eq!(ctx.sample(0, i), 101 + i as i64);
    }
}

#[test]
fn playback_stops_at_the_clip_end() {
    let (mut player, mut controller) = sample_player::<i64>();
    assert!(controller.load_file(ramp_clip(40)));
    assert!(controller.play());
    let mut ctx: PlaybackContext<i64> = PlaybackContext::new(32, 48000, 1);
    player.advance(&mut ctx);
    player.advance(&mut ctx);
    // frames past the clip end are silence
    for i in 0..32 {
        let expected = if i < 8 { 33 + i as i64 } else { 0 };
        assert_eq!(ctx.sample(0, i), expected);
    }
    // and a further block is silent: the player stopped by itself
    player.advance(&mut ctx);
    for i in 0..32 {
        assert_eq!(ctx.sample(0, i), 0);
    }
}

#[test]
fn muted_channels_stay_silent() {
    let (mut player, mut controller) = sample_player::<i64>();
    let data: Vec<i64> = (0..128).map(|i| 7 + (i % 4) as i64).collect();
    let clip = Arc::new(AudioClip::new(data, 2, 48000).unwrap());
    assert!(controller.load_file(clip));
    assert!(controller.set_active(1, false));
    assert!(controller.play());
    let mut ctx: PlaybackContext<i64> = PlaybackContext::new(16, 48000, 2);
    player.advance(&mut ctx);
    for i in 0..16 {
        assert_ne!(ctx.sample(0, i), 0);
        assert_eq!(ctx.sample(1, i), 0);
    }
}

#[test]
fn controller_reports_clip_metadata() {
    let (_player, mut controller) = sample_player::<i64>();
    assert_eq!(controller.sample_rate(), None);
    assert_eq!(controller.duration_samples(), None);
    assert_eq!(controller.num_channels(), None);
    assert!(controller.load_file(ramp_clip(300)));
    assert_eq!(controller.sample_rate(), Some(48000));
    assert_eq!(controller.duration_samples(), Some(300));
    assert_eq!(controller.num_channels(), Some(1));
}

#[test]
fn a_full_queue_refuses_the_next_command() {
    let (_player, mut controller) = sample_player::<i64>();
    let mut accepted = 0usize;
    let mut refused = 0usize;
    for _ in 0..3000 {
        if controller.play() {
            accepted += 1;
        } else {
            refused += 1;
        }
    }
    assert!(accepted >= 2000);
    assert!(refused >= 1);
}

#[test]
fn clip_layout_is_validated() {
    // 10 samples do not divide among 3 channels
    assert!(AudioClip::<i64>::new(vec![0; 10], 3, 44100).is_none());
    assert!(AudioClip::<i64>::new(vec![0; 12], 0, 44100).is_none());
    let clip = AudioClip::<i64>::new(vec![1, 2, 3, 4, 5, 6], 2, 44100).unwrap();
    assert_eq!(clip.num_channels(), 2);
    assert_eq!(clip.num_samples(), 3);
    assert_eq!(clip.sample(1, 0), 4);
}

#[test]
fn replaced_clips_come_back_for_reclamation() {
    // replacing the loaded clip must not free it on the audio side: the
    // old handle travels back and is dropped by the controller
    let (mut player, mut controller) = sample_player::<i64>();
    assert_eq!(controller.collect_garbage(), 0);
    assert!(controller.load_file(ramp_clip(64)));
    let mut ctx: PlaybackContext<i64> = PlaybackContext::new(16, 48000, 1);
    player.advance(&mut ctx);
    // nothing was replaced yet
    assert_eq!(controller.collect_garbage(), 0);
    assert!(controller.load_file(ramp_clip(32)));
    player.advance(&mut ctx);
    // the first clip's handle is waiting on the return queue
    assert_eq!(controller.collect_garbage(), 1);
    assert_eq!(controller.collect_garbage(), 0);
}
