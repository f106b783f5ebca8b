//! A packed binary codec: encodes an ordered sequence of typed values into a
//! contiguous byte buffer under a caller-chosen byte order, and decodes such a
//! buffer back into values according to a caller-supplied type schedule.
//! Fields are laid out back-to-back with no padding, in input order.

pub mod decoder;
pub mod encoder;
pub mod laws;
pub mod prim;
