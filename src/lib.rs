//! Extraction of GPS samples from FIT activity files.
//!
//! The decoder walks the record stream of a FIT file once and returns the
//! latitude/longitude pairs of every "record" message, as raw signed 32-bit
//! semicircles. Conversion to degrees is left to the caller.
pub mod decoder;
pub mod laws;
pub mod layout;
pub mod wire;
