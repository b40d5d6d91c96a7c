//! A library for reading, indexing and writing files in the Standard Test
//! Data Format (STDF) version 4: a binary container of typed records emitted
//! by semiconductor test equipment.
//!
//! The byte-level codec is the core: records are decoded from and encoded to
//! byte buffers, with the byte order of the whole file detected from its
//! first record.

pub mod rec_gen;
pub mod rec_lot;
pub mod rec_pin;
pub mod rec_part;
pub mod records;
pub mod scan;
pub mod text;
pub mod rec_test;
pub mod rec_wafer;
pub mod types;
pub mod fields;
pub mod wire;

pub use types::Endian;
