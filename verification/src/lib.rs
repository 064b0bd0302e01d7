//! LSB steganography codec: embeds a byte payload into the low-order bits of
//! selected color channels of a pixel grid, and recovers it again.
//!
//! The codec works on an already-decoded grid of channel bytes; parsing and
//! serialising concrete image container formats is a caller concern.

use vstd::prelude::*;

pub mod bits;
pub mod config;
pub mod cursor;
pub mod error;
pub mod grid;
pub mod codec;

verus! {

/// Runs `f` only when `verbose` is set.
///
/// The surrounding command-line tool threads an explicit verbosity flag
/// through calls instead of keeping process-wide mutable state.
pub fn verbose_do<F: FnOnce() -> ()>(verbose: bool, f: F)
    requires
        verbose ==> call_requires(f, ()),
    ensures
        verbose ==> call_ensures(f, (), ()),
{
    if verbose {
        f();
    }
}

} // verus!
