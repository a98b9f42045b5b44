//! Channel configurations: an immutable pair of a channel count and a short
//! textual tag that types a buffer or a port. Two configurations match iff
//! both fields are equal; connections are only legal between matching ports.

use vstd::prelude::*;

verus! {

use vstd::string::StringSliceAdditionalSpecFns;

/// Errors that buffer construction and channel access can report.
#[derive(Debug, PartialEq, Eq, Structural, Clone, Copy)]
pub enum Error {
    /// A channel index at or beyond the configured channel count.
    InvalidChannel(usize),
    /// The storage handed to a reference buffer is too small.
    StorageRequired,
}

/// Bounded string of at most 32 bytes, from the arrayvec crate; it stores
/// node, port and configuration names exactly as the outside crate keeps
/// them (inline, no allocation).
#[verifier::external_type_specification]
#[verifier::external_body]
pub struct ExArrayString<const CAP: usize>(arrayvec::ArrayString<CAP>);

/// The characters held by a bounded label.
pub uninterp spec fn label_chars(s: arrayvec::ArrayString<32>) -> Seq<char>;

/// Relies on arrayvec's `ArrayString::<32>::from`: it succeeds exactly when
/// the UTF-8 byte length of the argument fits the capacity, and the stored
/// text then equals the argument (`try_push_str` copies the whole string or
/// nothing). The capacity error is turned into `None`.
#[verifier::external_body]
pub fn label_from(s: &str) -> (r: Option<arrayvec::ArrayString<32>>)
    ensures
        r is Some <==> s.spec_bytes().len() <= 32,
        r matches Some(l) ==> label_chars(l) == s@,
{
    match arrayvec::ArrayString::from(s) {
        Ok(l) => Some(l),
        Err(_) => None,
    }
}

/// Relies on arrayvec's `ArrayString::as_str`, which exposes the stored text.
#[verifier::external_body]
pub fn label_str(s: &arrayvec::ArrayString<32>) -> (r: &str)
    ensures
        r@ == label_chars(*s),
{
    s.as_str()
}

/// Relies on arrayvec's `PartialEq for ArrayString`, which compares the
/// stored texts (`**self == **rhs` on `str`).
#[verifier::external_body]
pub fn label_eq(a: &arrayvec::ArrayString<32>, b: &arrayvec::ArrayString<32>) -> (r: bool)
    ensures
        r == (label_chars(*a) == label_chars(*b)),
{
    a == b
}

/// Relies on arrayvec's `ArrayString` being `Copy`: the copy holds the same
/// text.
#[verifier::external_body]
pub fn label_dup(a: &arrayvec::ArrayString<32>) -> (r: arrayvec::ArrayString<32>)
    ensures
        label_chars(r) == label_chars(*a),
{
    *a
}

/// A channel configuration types a buffer or a port: how many channels, and
/// a short description (at most 32 bytes) of how to interpret them.
pub struct ChannelConfiguration {
    count: usize,
    description: arrayvec::ArrayString<32>,
}

impl ChannelConfiguration {
    /// The number of channels required by this configuration.
    pub closed spec fn spec_count(&self) -> usize {
        self.count
    }

    /// The characters of the descriptive tag.
    pub closed spec fn spec_tag(&self) -> Seq<char> {
        label_chars(self.description)
    }

    /// Structural equality of configurations: both fields equal.
    pub open spec fn same_config(&self, other: &ChannelConfiguration) -> bool {
        self.spec_count() == other.spec_count() && self.spec_tag() == other.spec_tag()
    }

    /// Returns the number of channels required by this configuration.
    pub fn count(&self) -> (r: usize)
        ensures
            r == self.spec_count(),
    {
        self.count
    }

    /// A short description of how the channels should be interpreted.
    pub fn description(&self) -> (r: &str)
        ensures
            r@ == self.spec_tag(),
    {
        label_str(&self.description)
    }

    /// Check that a channel index is in bounds.
    pub fn check_channel(&self, idx: usize) -> (r: Result<(), Error>)
        ensures
            r == if idx >= self.spec_count() {
                Result::<(), Error>::Err(Error::InvalidChannel(idx))
            } else {
                Result::<(), Error>::Ok(())
            },
    {
        if idx >= self.count {
            Err(Error::InvalidChannel(idx))
        } else {
            Ok(())
        }
    }

    /// An identical configuration (same count, same tag).
    pub fn duplicate(&self) -> (r: ChannelConfiguration)
        ensures
            r.same_config(self),
            r.spec_count() == self.spec_count(),
            r.spec_tag() == self.spec_tag(),
    {
        ChannelConfiguration { count: self.count, description: label_dup(&self.description) }
    }
}

impl PartialEq for ChannelConfiguration {
    fn eq(&self, other: &Self) -> bool {
        self.count == other.count && label_eq(&self.description, &other.description)
    }
}

impl vstd::std_specs::cmp::PartialEqSpecImpl for ChannelConfiguration {
    open spec fn obeys_eq_spec() -> bool {
        true
    }

    open spec fn eq_spec(&self, other: &Self) -> bool {
        self.same_config(other)
    }
}

/// Build a configuration with an arbitrary channel count and tag. Returns
/// `None` when the tag does not fit 32 bytes or the count is zero.
pub fn custom_config(count: usize, tag: &str) -> (r: Option<ChannelConfiguration>)
    ensures
        r is Some <==> tag.spec_bytes().len() <= 32 && count >= 1,
        r matches Some(c) ==> c.spec_count() == count && c.spec_tag() == tag@,
{
    if count == 0 {
        return None;
    }
    match label_from(tag) {
        Some(l) => Some(ChannelConfiguration { count, description: l }),
        None => None,
    }
}

/// A set of discrete channels processed together but independent of each
/// other, in contrast to stereo or mid-side pairs whose channels are mixed
/// together internally.
pub fn multi_mono(channels: usize) -> (r: ChannelConfiguration)
    ensures
        r.spec_count() == channels,
        r.spec_tag() == "multi-mono"@,
{
    proof {
        reveal_strlit("multi-mono");
        broadcast use vstd::string::is_ascii_spec_bytes;

        assert(vstd::string::is_ascii("multi-mono"));
    }
    ChannelConfiguration { count: channels, description: label_from("multi-mono").unwrap() }
}

/// A single channel of audio.
pub fn mono() -> (r: ChannelConfiguration)
    ensures
        r.spec_count() == 1,
        r.spec_tag() == "mono"@,
{
    proof {
        reveal_strlit("mono");
        broadcast use vstd::string::is_ascii_spec_bytes;

        assert(vstd::string::is_ascii("mono"));
    }
    ChannelConfiguration { count: 1, description: label_from("mono").unwrap() }
}

/// A pair of channels, left and right.
pub fn stereo() -> (r: ChannelConfiguration)
    ensures
        r.spec_count() == 2,
        r.spec_tag() == "stereo"@,
{
    proof {
        reveal_strlit("stereo");
        broadcast use vstd::string::is_ascii_spec_bytes;

        assert(vstd::string::is_ascii("stereo"));
    }
    ChannelConfiguration { count: 2, description: label_from("stereo").unwrap() }
}

/// A pair of channels, one for the middle of the signal and one for its
/// sides.
pub fn mid_side() -> (r: ChannelConfiguration)
    ensures
        r.spec_count() == 2,
        r.spec_tag() == "mid-side"@,
{
    proof {
        reveal_strlit("mid-side");
        broadcast use vstd::string::is_ascii_spec_bytes;

        assert(vstd::string::is_ascii("mid-side"));
    }
    ChannelConfiguration { count: 2, description: label_from("mid-side").unwrap() }
}

} // verus!
