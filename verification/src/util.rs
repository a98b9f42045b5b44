//! Small utilities: planar/interleaved conversion, and a boolean flag that
//! can be shared between threads.

use vstd::prelude::*;

verus! {

use vstd::slice::slice_index_get;
use std::sync::Arc;
use std::sync::atomic::{AtomicBool, Ordering};

/// A boolean flag that can be shared between threads. Another thread may
/// change it at any time, so reading it promises nothing about the value.
#[derive(Clone)]
pub struct Flag {
    flag: Arc<AtomicBool>,
}

impl Flag {
    /// A fresh flag, initially unset.
    pub fn new() -> Flag {
        Flag { flag: Arc::new(AtomicBool::new(false)) }
    }

    /// Set the flag.
    pub fn set(&self) {
        self.flag.store(true, Ordering::SeqCst);
    }

    /// Reset the flag.
    pub fn reset(&self) {
        self.flag.store(false, Ordering::SeqCst);
    }

    /// Check if the flag is set (as of this load; other threads may race).
    pub fn is_set(&self) -> bool {
        self.flag.load(Ordering::SeqCst)
    }
}


/// Distinct (channel, frame) pairs land at distinct planar indices.
proof fn lemma_planar_distinct(c1: int, s1: int, c2: int, s2: int, ns: int)
    requires
        0 <= c1,
        0 <= c2,
        0 <= s1 < ns,
        0 <= s2 < ns,
        !(c1 == c2 && s1 == s2),
    ensures
        c1 * ns + s1 != c2 * ns + s2,
{
    if c1 == c2 {
    } else if c1 < c2 {
        assert(c1 * ns + ns <= c2 * ns) by (nonlinear_arith)
            requires
                c1 < c2,
                0 <= ns,
        ;
    } else {
        assert(c2 * ns + ns <= c1 * ns) by (nonlinear_arith)
            requires
                c2 < c1,
                0 <= ns,
        ;
    }
}

/// Turn a planar region (channel-major) into an interleaved one
/// (frame-major): element `c * frames + s` of the input lands at
/// `s * channels + c` of the output. Elements beyond
/// `channels * frames` keep their old values.
pub fn interleave<T: Copy>(input: &[T], output: &mut Vec<T>, num_channels: usize)
    requires
        input@.len() == old(output)@.len(),
        num_channels >= 1,
    ensures
        final(output)@.len() == old(output)@.len(),
        forall|s: int, c: int|
            0 <= s < input@.len() as int / num_channels as int && 0 <= c < num_channels
                ==> #[trigger] final(output)@[s * num_channels + c] == input@[c * (
            input@.len() as int / num_channels as int) + s],
{
    let num_samples: usize = input.len() / num_channels;
    let total: usize = output.len();
    proof {
        crate::buffer::lemma_channel_bounds(num_channels as int, num_samples as int, 0);
        vstd::arithmetic::div_mod::lemma_fundamental_div_mod(
            input@.len() as int,
            num_channels as int,
        );
        vstd::arithmetic::div_mod::lemma_mod_division_less_than_divisor(
            input@.len() as int,
            num_channels as int,
        );
        assert(num_channels * num_samples <= input@.len());
    }
    let mut sm: usize = 0;
    while sm < num_samples
        invariant
            sm <= num_samples,
            num_channels >= 1,
            num_samples == input@.len() as int / num_channels as int,
            num_channels * num_samples <= input@.len(),
            input@.len() == total,
            output@.len() == total,
            forall|s: int, c: int|
                0 <= s < sm && 0 <= c < num_channels ==> #[trigger] output@[s * num_channels + c]
                    == input@[c * num_samples + s],
        decreases num_samples - sm,
    {
        let mut ch: usize = 0;
        while ch < num_channels
            invariant
                ch <= num_channels,
                sm < num_samples,
                num_channels >= 1,
                num_samples == input@.len() as int / num_channels as int,
                num_channels * num_samples <= input@.len(),
                input@.len() == total,
                output@.len() == total,
                forall|s: int, c: int|
                    0 <= s < sm && 0 <= c < num_channels ==> #[trigger] output@[s * num_channels
                        + c] == input@[c * num_samples + s],
                forall|c: int|
                    0 <= c < ch ==> #[trigger] output@[sm * num_channels + c] == input@[c
                        * num_samples + sm],
            decreases num_channels - ch,
        {
            proof {
                assert(sm * num_channels + ch < num_channels * num_samples) by (nonlinear_arith)
                    requires
                        0 <= sm < num_samples,
                        0 <= ch < num_channels,
                ;
                assert(ch * num_samples + sm < num_channels * num_samples) by (nonlinear_arith)
                    requires
                        0 <= sm < num_samples,
                        0 <= ch < num_channels,
                ;
            }
            let ghost pre = output@;
            let v: T = *slice_index_get(input, ch * num_samples + sm);
            output[sm * num_channels + ch] = v;
            proof {
                assert forall|s: int, c: int|
                    0 <= s < sm && 0 <= c < num_channels implies #[trigger] output@[s
                    * num_channels + c] == input@[c * num_samples + s] by {
                    assert(s * num_channels + c < sm * num_channels + ch) by (nonlinear_arith)
                        requires
                            0 <= s < sm,
                            0 <= c < num_channels,
                            0 <= ch,
                    ;
                    assert(output@[s * num_channels + c] == pre[s * num_channels + c]);
                }
                assert forall|c: int|
                    0 <= c < ch + 1 implies #[trigger] output@[sm * num_channels + c] == input@[c
                    * num_samples + sm] by {
                    if c < ch {
                        assert(output@[sm * num_channels + c] == pre[sm * num_channels + c]);
                    }
                }
            }
            ch = ch + 1;
        }
        sm = sm + 1;
    }
}

/// Turn an interleaved region (frame-major) into a planar one
/// (channel-major): element `s * channels + c` of the input lands at
/// `c * frames + s` of the output.
pub fn deinterleave<T: Copy>(input: &[T], output: &mut Vec<T>, num_channels: usize)
    requires
        input@.len() == old(output)@.len(),
        num_channels >= 1,
    ensures
        final(output)@.len() == old(output)@.len(),
        forall|s: int, c: int|
            0 <= s < input@.len() as int / num_channels as int && 0 <= c < num_channels
                ==> #[trigger] final(output)@[c * (input@.len() as int / num_channels as int) + s]
                == input@[s * num_channels + c],
{
    let num_samples: usize = input.len() / num_channels;
    let total: usize = output.len();
    proof {
        vstd::arithmetic::div_mod::lemma_fundamental_div_mod(
            input@.len() as int,
            num_channels as int,
        );
        vstd::arithmetic::div_mod::lemma_mod_division_less_than_divisor(
            input@.len() as int,
            num_channels as int,
        );
        assert(num_channels * num_samples <= input@.len());
    }
    let mut sm: usize = 0;
    while sm < num_samples
        invariant
            sm <= num_samples,
            num_channels >= 1,
            num_samples == input@.len() as int / num_channels as int,
            num_channels * num_samples <= input@.len(),
            input@.len() == total,
            output@.len() == total,
            forall|s: int, c: int|
                0 <= s < sm && 0 <= c < num_channels ==> #[trigger] output@[c * num_samples + s]
                    == input@[s * num_channels + c],
        decreases num_samples - sm,
    {
        let mut ch: usize = 0;
        while ch < num_channels
            invariant
                ch <= num_channels,
                sm < num_samples,
                num_channels >= 1,
                num_samples == input@.len() as int / num_channels as int,
                num_channels * num_samples <= input@.len(),
                input@.len() == total,
                output@.len() == total,
                forall|s: int, c: int|
                    0 <= s < sm && 0 <= c < num_channels ==> #[trigger] output@[c * num_samples
                        + s] == input@[s * num_channels + c],
                forall|c: int|
                    0 <= c < ch ==> #[trigger] output@[c * num_samples + sm] == input@[sm
                        * num_channels + c],
            decreases num_channels - ch,
        {
            proof {
                assert(sm * num_channels + ch < num_channels * num_samples) by (nonlinear_arith)
                    requires
                        0 <= sm < num_samples,
                        0 <= ch < num_channels,
                ;
                assert(ch * num_samples + sm < num_channels * num_samples) by (nonlinear_arith)
                    requires
                        0 <= sm < num_samples,
                        0 <= ch < num_channels,
                ;
            }
            let ghost pre = output@;
            let v: T = *slice_index_get(input, sm * num_channels + ch);
            output[ch * num_samples + sm] = v;
            proof {
                assert forall|s: int, c: int|
                    0 <= s < sm && 0 <= c < num_channels implies #[trigger] output@[c * num_samples
                    + s] == input@[s * num_channels + c] by {
                    lemma_planar_distinct(c, s, ch as int, sm as int, num_samples as int);
                    assert(c * num_samples + s < num_channels * num_samples) by (nonlinear_arith)
                        requires
                            0 <= c < num_channels,
                            0 <= s < num_samples,
                    ;
                    assert(output@[c * num_samples + s] == pre[c * num_samples + s]);
                }
                assert forall|c: int|
                    0 <= c < ch + 1 implies #[trigger] output@[c * num_samples + sm] == input@[sm
                    * num_channels + c] by {
                    if c < ch {
                        lemma_planar_distinct(c, sm as int, ch as int, sm as int, num_samples as int);
                        assert(c * num_samples + sm < num_channels * num_samples)
                            by (nonlinear_arith)
                            requires
                                0 <= c < num_channels,
                                0 <= sm < num_samples,
                        ;
                        assert(output@[c * num_samples + sm] == pre[c * num_samples + sm]);
                    }
                }
            }
            ch = ch + 1;
        }
        sm = sm + 1;
    }
}

} // verus!
