//! The buffer algebra, exercised with a float sample type supplied from
//! outside the library, as an embedding application would.

use signal_graph::buffer::{DelBuffer, RefBuffer, SimpleBuffer, SumBuffer};
use signal_graph::config::{mono, multi_mono, stereo, Error};
use signal_graph::sample::Sample;

/// A float sample: mixing is addition, silence is zero.
#[derive(Clone, Copy, Debug, PartialEq)]
struct F(f32);

impl Sample for F {
    fn spec_silence() -> F {
        F(0.0)
    }
    fn spec_mix(self, other: F) -> F {
        F(self.0 + other.0)
    }
    fn silence() -> F {
        F(0.0)
    }
    fn mix(self, other: F) -> F {
        F(self.0 + other.0)
    }
}

#[test]
fn simple_buffer() {
    let mut buffer: SimpleBuffer<F> = SimpleBuffer::new(stereo(), 16);
    assert_eq!(buffer.get_channel_config().count(), 2);
    assert_eq!(buffer.get_channel_config().description(), "stereo");
    buffer.prepare();
    buffer.write_channel(0, &[F(0.5); 16]).expect("could not get channel");
    assert!(matches!(
        buffer.write_channel(2, &[F(0.5); 16]),
        Err(Error::InvalidChannel(2))
    ));
    {
        let left = buffer.get_channel(0).expect("could not get channel");
        assert_eq!(left.len(), 16);
        for sample in left {
            assert_eq!(sample.0, 0.5);
        }
        let right = buffer.get_channel(1).expect("could not get channel");
        assert_eq!(right.len(), 16);
        for sample in right {
            assert_eq!(sample.0, 0.0);
        }
        assert!(matches!(buffer.get_channel(2), Err(Error::InvalidChannel(2))));
    }
    buffer.clear();
    for sample in buffer.get_channel(0).unwrap() {
        assert_eq!(sample.0, 0.0);
    }
}

#[test]
fn ref_buffer() {
    let mem: Vec<F> = vec![F(0.0); 32];
    assert_eq!(
        Error::StorageRequired,
        RefBuffer::new(multi_mono(3), 16, mem).err().unwrap()
    );
    let mem: Vec<F> = vec![F(0.0); 32];
    let mut buffer = RefBuffer::new(stereo(), 16, mem).expect("could not create buffer");
    buffer.prepare();
    buffer.write_channel(0, &[F(0.5); 16]).expect("could not get channel");
    assert!(matches!(
        buffer.write_channel(2, &[F(0.5); 16]),
        Err(Error::InvalidChannel(2))
    ));
    {
        let left = buffer.get_channel(0).expect("could not get channel");
        assert_eq!(left.len(), 16);
        for sample in left {
            assert_eq!(sample.0, 0.5);
        }
        let right = buffer.get_channel(1).expect("could not get channel");
        assert_eq!(right.len(), 16);
        for sample in right {
            assert_eq!(sample.0, 0.0);
        }
    }
    buffer.clear();
    for sample in buffer.get_channel(0).unwrap() {
        assert_eq!(sample.0, 0.0);
    }
}

#[test]
fn del_buffer() {
    let mut buffer: DelBuffer<F> = DelBuffer::new(stereo(), 16, 0);
    assert_eq!(buffer.get_channel_config().count(), 2);
    buffer.prepare();
    buffer.write_channel(0, &[F(0.5); 16]).expect("could not get channel");
    for sample in buffer.get_channel(0).expect("could not get channel") {
        assert_eq!(sample.0, 0.5);
    }
    assert!(matches!(buffer.get_channel(2), Err(Error::InvalidChannel(2))));

    let d = 3usize;
    let mut buffer: DelBuffer<F> = DelBuffer::new(mono(), 16, d);
    let ramp: Vec<F> = (0..16).map(|n| F(n as f32)).collect();
    buffer.write_channel(0, &ramp).unwrap();
    buffer.prepare();
    let channel = buffer.get_channel(0).unwrap();
    for (n, x) in channel.iter().enumerate() {
        if n >= d {
            assert_eq!(x.0, (n - d) as f32);
        } else {
            assert_eq!(x.0, 0.0);
        }
    }
}

#[test]
fn sum_buffer() {
    let mut buffer: SumBuffer<F> = SumBuffer::new(mono(), 16);
    buffer.write_channel(0, &[F(1.0); 16]).unwrap();
    buffer.prepare();
    buffer.write_channel(0, &[F(2.0); 16]).unwrap();
    buffer.prepare();
    {
        let channel = buffer.get_channel(0).unwrap();
        for sample in channel.iter() {
            assert_eq!(sample.0, 3.0);
        }
    }
}

#[test]
fn fresh_buffers_read_zero_and_reject_bad_channels() {
    let simple: SimpleBuffer<i64> = SimpleBuffer::new(stereo(), 8);
    let sum: SumBuffer<i64> = SumBuffer::new(stereo(), 8);
    let del: DelBuffer<i64> = DelBuffer::new(stereo(), 8, 4);
    for c in 0..2 {
        assert!(simple.get_channel(c).unwrap().iter().all(|s| *s == 0));
        assert!(sum.get_channel(c).unwrap().iter().all(|s| *s == 0));
        assert!(del.get_channel(c).unwrap().iter().all(|s| *s == 0));
    }
    assert_eq!(simple.get_channel(2), Err(Error::InvalidChannel(2)));
    assert!(matches!(sum.get_channel(5), Err(Error::InvalidChannel(5))));
    assert!(matches!(del.get_channel(9), Err(Error::InvalidChannel(9))));
}

#[test]
fn sum_accumulates_and_clear_keeps_history() {
    let mut buffer: SumBuffer<i64> = SumBuffer::new(mono(), 4);
    let k: i64 = 7;
    let n = 5;
    for _ in 0..n {
        buffer.write_channel(0, &[k; 4]).unwrap();
        buffer.prepare();
        // clearing between rounds must not reset the accumulation
        buffer.clear();
    }
    let channel = buffer.get_channel(0).unwrap();
    for sample in channel {
        assert_eq!(*sample, n * k);
    }
}

#[test]
fn delay_carries_history_across_blocks() {
    // a delay longer than a block: the written block surfaces one block later
    let mut buffer: DelBuffer<i64> = DelBuffer::new(mono(), 4, 6);
    buffer.write_channel(0, &[10, 20, 30, 40]).unwrap();
    buffer.prepare();
    assert_eq!(buffer.get_channel(0).unwrap(), &[0, 0, 0, 0]);
    buffer.write_channel(0, &[0, 0, 0, 0]).unwrap();
    buffer.prepare();
    // delay 6 with blocks of 4: the first block appears offset by 2
    assert_eq!(buffer.get_channel(0).unwrap(), &[0, 0, 10, 20]);
}
