//! Traversal configuration: which channel to use, how many low-order bits
//! per channel byte, how many pixels to skip at the start and between writes.

use vstd::prelude::*;
use crate::error::CodecError;

verus! {

/// The color channel(s) a traversal reads or writes.
///
/// `All` cycles through red, green and blue on every visited pixel, tripling
/// the capacity of the carrier.
#[derive(Clone, Copy, PartialEq, Eq, Structural, Debug)]
pub enum Channel {
    Red,
    Green,
    Blue,
    All,
}

/// Immutable-once-built traversal rules shared by encoder and decoder.
#[derive(Clone, Copy, PartialEq, Eq, Structural, Debug)]
pub struct Configuration {
    /// Channel selection; `Channel::All` cycles R, G, B per pixel.
    pub channel: Channel,
    /// Number of low-order bits of each chosen channel byte that carry
    /// payload data; always in `[1, 8]` for a valid configuration.
    pub bits_per_channel: u8,
    /// Number of leading pixels skipped entirely before traversal begins.
    pub offset: usize,
    /// Number of pixels skipped after each pixel that was read or written.
    pub step: usize,
}

impl Configuration {
    /// A configuration is valid exactly when the bit depth lies in `[1, 8]`.
    pub open spec fn valid(&self) -> bool {
        1 <= self.bits_per_channel <= 8
    }

    /// Builds a configuration, rejecting a bit depth outside `[1, 8]`.
    /// Out-of-range values are never silently clamped.
    pub fn new(channel: Channel, bits_per_channel: u8, offset: usize, step: usize) -> (r: Result<
        Configuration,
        CodecError,
    >)
        ensures
            1 <= bits_per_channel <= 8 ==> r == Ok::<_, CodecError>(
                Configuration { channel, bits_per_channel, offset, step },
            ),
            !(1 <= bits_per_channel <= 8) ==> r == Err::<Configuration, _>(
                CodecError::InvalidConfiguration,
            ),
    {
        if 1 <= bits_per_channel && bits_per_channel <= 8 {
            Ok(Configuration { channel, bits_per_channel, offset, step })
        } else {
            Err(CodecError::InvalidConfiguration)
        }
    }

    /// Resolves command-line options into a configuration, filling in the
    /// defaults (blue channel, one bit per channel, no offset, no step) for
    /// options the caller left unset, and rejecting a bit depth outside
    /// `[1, 8]`.
    pub fn from_options(
        channel: Option<Channel>,
        bits_per_channel: Option<u8>,
        offset: Option<usize>,
        step: Option<usize>,
    ) -> (r: Result<Configuration, CodecError>)
        ensures
            ({
                let bits = if bits_per_channel is Some {
                    bits_per_channel->0
                } else {
                    1u8
                };
                &&& (1 <= bits <= 8 ==> r == Ok::<_, CodecError>(
                    Configuration {
                        channel: if channel is Some {
                            channel->0
                        } else {
                            Channel::Blue
                        },
                        bits_per_channel: bits,
                        offset: if offset is Some {
                            offset->0
                        } else {
                            0usize
                        },
                        step: if step is Some {
                            step->0
                        } else {
                            0usize
                        },
                    },
                ))
                &&& (!(1 <= bits <= 8) ==> r == Err::<Configuration, _>(
                    CodecError::InvalidConfiguration,
                ))
            }),
    {
        let ch = match channel {
            Some(c) => c,
            None => Channel::Blue,
        };
        let bits = match bits_per_channel {
            Some(v) => v,
            None => 1,
        };
        let off = match offset {
            Some(v) => v,
            None => 0,
        };
        let st = match step {
            Some(v) => v,
            None => 0,
        };
        Configuration::new(ch, bits, off, st)
    }
}

impl Default for Configuration {
    /// The default rules: blue channel, one bit per channel, no offset, no step.
    fn default() -> (c: Configuration)
        ensures
            c == (Configuration {
                channel: Channel::Blue,
                bits_per_channel: 1u8,
                offset: 0usize,
                step: 0usize,
            }),
            c.valid(),
    {
        Configuration { channel: Channel::Blue, bits_per_channel: 1, offset: 0, step: 0 }
    }
}

} // verus!
