//! Byte order and the wire field types of STDF records.
//!
//! Every field of an STDF record has one of a small set of wire types:
//! single-byte scalars, fixed multi-byte scalars, length-prefixed strings and
//! byte arrays, a bit-length-prefixed bit field, and a tagged union.  The
//! 32-bit and 64-bit IEEE-754 fields (`R4`, `R8`) are held as their raw bit
//! patterns, so that every value round-trips bit-exactly.

use vstd::prelude::*;

verus! {

/// Byte order of a whole STDF file, fixed by its first record.
#[derive(Clone, Copy, Debug, PartialEq, Eq, Structural)]
pub enum Endian {
    Little,
    Big,
}

/// Everything that can go wrong inside the library.
///
/// File input and output stay with the caller, so no input/output error
/// appears here: a buffer either holds what a record needs or it does not.
#[derive(Clone, Copy, Debug, PartialEq, Eq, Structural)]
pub enum StdfError {
    /// The buffer does not begin with the header of a version-4 file.
    NotStdf,
    /// The buffer ends before the requested record does.
    Truncated,
    /// A value violates the format: a generic-data type tag that no case
    /// of the union claims.
    BadInput,
    /// A record that carries no payload layout (an unknown or an invalid
    /// one) cannot be encoded, and neither can an ill-formed value.
    Unencodable,
    /// The part-opening and part-closing record counts differ.
    Mismatch,
    /// A part count was asked of a file without part records.
    MissingPartRecords,
}

/// An opaque bit pattern held in one byte.
#[derive(Clone, Copy, Debug, PartialEq, Eq, Structural)]
pub struct B1(pub u8);

/// One ASCII character held in one byte.
#[derive(Clone, Copy, Debug, PartialEq, Eq, Structural)]
pub struct C1(pub u8);

/// An unsigned 8-bit integer.
#[derive(Clone, Copy, Debug, PartialEq, Eq, Structural)]
pub struct U1(pub u8);

/// An unsigned nibble; it occupies a whole byte when it stands alone, and
/// half a byte inside a nibble-packed array.
#[derive(Clone, Copy, Debug, PartialEq, Eq, Structural)]
pub struct N1(pub u8);

/// An unsigned 16-bit integer.
#[derive(Clone, Copy, Debug, PartialEq, Eq, Structural)]
pub struct U2(pub u16);

/// An unsigned 32-bit integer.
#[derive(Clone, Copy, Debug, PartialEq, Eq, Structural)]
pub struct U4(pub u32);

/// An unsigned 32-bit integer whose logical meaning is a Unix-epoch
/// timestamp.
#[derive(Clone, Copy, Debug, PartialEq, Eq, Structural)]
pub struct U4E(pub u32);

/// An unsigned 64-bit integer.
#[derive(Clone, Copy, Debug, PartialEq, Eq, Structural)]
pub struct U8(pub u64);

/// A signed 8-bit integer.
#[derive(Clone, Copy, Debug, PartialEq, Eq, Structural)]
pub struct I1(pub i8);

/// A signed 16-bit integer.
#[derive(Clone, Copy, Debug, PartialEq, Eq, Structural)]
pub struct I2(pub i16);

/// A signed 32-bit integer.
#[derive(Clone, Copy, Debug, PartialEq, Eq, Structural)]
pub struct I4(pub i32);

/// A signed 64-bit integer.
#[derive(Clone, Copy, Debug, PartialEq, Eq, Structural)]
pub struct I8(pub i64);

/// An IEEE-754 single-precision value, held as its raw bit pattern so that
/// every value (a NaN sentinel included) round-trips bit-exactly.
#[derive(Clone, Copy, Debug, PartialEq, Eq, Structural)]
pub struct R4(pub u32);

/// An IEEE-754 double-precision value, held as its raw bit pattern.
#[derive(Clone, Copy, Debug, PartialEq, Eq, Structural)]
pub struct R8(pub u64);

/// A character string: one length byte, then that many bytes of text.
#[derive(Clone, Debug, PartialEq, Eq)]
pub struct Cn(pub Vec<u8>);

/// A byte array: one length byte, then that many bytes.
#[derive(Clone, Debug, PartialEq, Eq)]
pub struct Bn(pub Vec<u8>);

/// A bit field: a 16-bit bit count, then one byte per eight bits begun.
#[derive(Clone, Debug, PartialEq, Eq)]
pub struct Dn(pub u16, pub Vec<u8>);

/// The tagged-union "generic data" type: a one-byte type tag followed by the
/// payload of that tag.
#[derive(Clone, Debug, PartialEq, Eq)]
pub enum Vn {
    B0,
    U1(U1),
    U2(U2),
    U4(U4),
    I1(I1),
    I2(I2),
    I4(I4),
    R4(R4),
    R8(R8),
    Cn(Cn),
    Bn(Bn),
    Dn(Dn),
    N1(N1),
}

/// The mathematical value of a [`Vn`]: the same cases over `Seq` payloads.
pub enum VnV {
    B0,
    U1(u8),
    U2(u16),
    U4(u32),
    I1(i8),
    I2(i16),
    I4(i32),
    R4(u32),
    R8(u64),
    Cn(Seq<u8>),
    Bn(Seq<u8>),
    Dn(u16, Seq<u8>),
    N1(u8),
}

impl View for B1 {
    type V = u8;

    open spec fn view(&self) -> u8 {
        self.0
    }
}

impl DeepView for B1 {
    type V = u8;

    open spec fn deep_view(&self) -> u8 {
        self.0
    }
}

impl View for C1 {
    type V = u8;

    open spec fn view(&self) -> u8 {
        self.0
    }
}

impl DeepView for C1 {
    type V = u8;

    open spec fn deep_view(&self) -> u8 {
        self.0
    }
}

impl View for U1 {
    type V = u8;

    open spec fn view(&self) -> u8 {
        self.0
    }
}

impl DeepView for U1 {
    type V = u8;

    open spec fn deep_view(&self) -> u8 {
        self.0
    }
}

impl View for N1 {
    type V = u8;

    open spec fn view(&self) -> u8 {
        self.0
    }
}

impl DeepView for N1 {
    type V = u8;

    open spec fn deep_view(&self) -> u8 {
        self.0
    }
}

impl View for U2 {
    type V = u16;

    open spec fn view(&self) -> u16 {
        self.0
    }
}

impl DeepView for U2 {
    type V = u16;

    open spec fn deep_view(&self) -> u16 {
        self.0
    }
}

impl View for U4 {
    type V = u32;

    open spec fn view(&self) -> u32 {
        self.0
    }
}

impl DeepView for U4 {
    type V = u32;

    open spec fn deep_view(&self) -> u32 {
        self.0
    }
}

impl View for R4 {
    type V = u32;

    open spec fn view(&self) -> u32 {
        self.0
    }
}

impl DeepView for R4 {
    type V = u32;

    open spec fn deep_view(&self) -> u32 {
        self.0
    }
}

impl View for Cn {
    type V = Seq<u8>;

    open spec fn view(&self) -> Seq<u8> {
        self.0@
    }
}

impl DeepView for Cn {
    type V = Seq<u8>;

    open spec fn deep_view(&self) -> Seq<u8> {
        self.0@
    }
}

impl View for Bn {
    type V = Seq<u8>;

    open spec fn view(&self) -> Seq<u8> {
        self.0@
    }
}

impl View for Dn {
    type V = (u16, Seq<u8>);

    open spec fn view(&self) -> (u16, Seq<u8>) {
        (self.0, self.1@)
    }
}

impl View for Vn {
    type V = VnV;

    open spec fn view(&self) -> VnV {
        match self {
            Vn::B0 => VnV::B0,
            Vn::U1(v) => VnV::U1(v.0),
            Vn::U2(v) => VnV::U2(v.0),
            Vn::U4(v) => VnV::U4(v.0),
            Vn::I1(v) => VnV::I1(v.0),
            Vn::I2(v) => VnV::I2(v.0),
            Vn::I4(v) => VnV::I4(v.0),
            Vn::R4(v) => VnV::R4(v.0),
            Vn::R8(v) => VnV::R8(v.0),
            Vn::Cn(v) => VnV::Cn(v.0@),
            Vn::Bn(v) => VnV::Bn(v.0@),
            Vn::Dn(v) => VnV::Dn(v.0, v.1@),
            Vn::N1(v) => VnV::N1(v.0),
        }
    }
}

impl DeepView for Vn {
    type V = VnV;

    open spec fn deep_view(&self) -> VnV {
        self.view()
    }
}

} // verus!
