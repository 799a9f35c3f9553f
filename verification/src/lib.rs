//! Structure-of-arrays storage: the fields of many values of one struct type,
//! kept column by column in a single byte buffer.
pub mod bytes;
pub mod derive;
pub mod laws;
pub mod metadata;
pub mod soa;
