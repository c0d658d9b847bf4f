//! K-sortable unique identifiers: a 32-bit timestamp and a 128-bit random
//! payload, rendered as 27 base-62 characters whose lexicographic order is the
//! numeric order of the 160-bit value.
//!
//! [`KSUID`] is the identifier. [`base62`] holds the codec between its 20
//! bytes and its text, [`time`] the points in time and the clock, [`endian`]
//! and [`radix`] the numbers behind both, and [`ascii`] the step from bytes to
//! strings.

pub mod ascii;
pub mod base62;
pub mod endian;
pub mod errors;
pub mod ksuid;
pub mod radix;
pub mod time;

pub use errors::KSUIDError;
pub use ksuid::KSUID;
pub use time::Timestamp;
