//! LSB steganography codec: embeds files in the low-order bits of the colour
//! channels of a lossless raster image and recovers them again.
//!
//! The image is treated as a bitstream folded onto its pixels: for a fixed
//! bit significance, all columns of row 0, then row 1, and so on, then the
//! next colour plane, and only after all planes does the bit significance
//! advance.  A coded image carries, in that stream: a fixed signature, a
//! password flag ('Y'/'N') with an optional 32-byte digest, a 3-digit file
//! count, and per file a 3-digit name length, the name, a 10-digit size and
//! the raw content bytes.

pub mod bitio;
pub mod bits;
pub mod cursor;
pub mod format;
pub mod laws;
pub mod settings;
pub mod steg;
pub mod sha;
pub mod surface;

use vstd::prelude::*;

verus! {

/// Outcome of a failed embed or extract operation.
#[derive(Clone, Copy, PartialEq, Eq, Structural, Debug)]
pub enum StegError {
    /// No image could be opened to work on.
    ImageLoadError,
    /// The channel layout is not 3- or 4-channel.
    UnsupportedFormat,
    /// The image is too small for even the signature to be checked.
    CapacityTooSmall,
    /// Fewer bytes could be transferred through the bitstream than requested.
    ShortReadWrite,
    /// The files to embed exceed the image's configured capacity.
    CapacityExceeded,
    /// The supplied password does not match the stored digest.
    PasswordMismatch,
    /// The image does not carry the signature: it is not coded.
    SignatureMismatch,
}

} // verus!
