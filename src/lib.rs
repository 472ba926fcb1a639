//! Line-by-line iteration over byte streams.
//!
//! Lines are delimited by a single line-feed byte (`0x0A`); content at the
//! end of a stream counts as a line whether or not a line-feed ends it.
//! Lines are handed out as slices into buffers that the readers reuse, so
//! no memory is allocated per line. Text encoding is not validated.
pub mod bytes;
pub mod model;
pub mod source;
pub mod linemapper;
pub mod linereader;
