//! The executable field codec: reads one field from a payload slice and
//! writes one field onto a byte buffer, each proved against the wire model.
//!
//! Every reader mirrors [`crate::wire::sread_field`]: a scalar whose offset
//! has reached the payload end takes the caller's default, an array reads
//! exactly the asked-for element count unless the payload has already
//! ended, in which case it is empty.  Every writer appends exactly the
//! bytes that [`crate::wire::enc_val`] names.

use vstd::prelude::*;

use crate::types::{Bn, Cn, Dn, Endian, N1, R4, StdfError, U1, U2, Vn, VnV};
use crate::wire::{
    as_i16, as_i32, as_i64, as_i8, enc16, enc32, enc64, enc_arr_cn, enc_arr_u2, enc_arr_u4,
    enc_arr_vn, enc_cn, enc_dn, enc_val, enc_vnv, fd, from_i16, from_i32, from_i64, from_i8,
    nib_at, nib_pack, sread_arr_cn, sread_arr_n1, sread_arr_u1, sread_arr_u2, sread_arr_u4,
    sread_arr_vn, sread_cn, sread_dn, sread_elems, sread_field, sread_u1, sread_u2, sread_u4,
    sread_arr_field, sread_u8w, sread_vn, vnv_wf, Dflt, Elem, FieldKind, Val,
};

verus! {

// ---------------------------------------------------------------------
// Two's-complement reinterpretation
// ---------------------------------------------------------------------
/// The signed 8-bit value with the given bit pattern.
pub fn i8_from_bits(u: u8) -> (r: i8)
    ensures
        r == as_i8(u),
{
    if u < 0x80 {
        u as i8
    } else {
        ((u as i16) - 0x100) as i8
    }
}

/// The bit pattern of a signed 8-bit value.
pub fn i8_to_bits(v: i8) -> (r: u8)
    ensures
        r == from_i8(v),
{
    if v >= 0 {
        v as u8
    } else {
        ((v as i16) + 0x100) as u8
    }
}

/// The signed 16-bit value with the given bit pattern.
pub fn i16_from_bits(u: u16) -> (r: i16)
    ensures
        r == as_i16(u),
{
    if u < 0x8000 {
        u as i16
    } else {
        ((u as i32) - 0x10000) as i16
    }
}

/// The bit pattern of a signed 16-bit value.
pub fn i16_to_bits(v: i16) -> (r: u16)
    ensures
        r == from_i16(v),
{
    if v >= 0 {
        v as u16
    } else {
        ((v as i32) + 0x10000) as u16
    }
}

/// The signed 32-bit value with the given bit pattern.
pub fn i32_from_bits(u: u32) -> (r: i32)
    ensures
        r == as_i32(u),
{
    if u < 0x8000_0000 {
        u as i32
    } else {
        ((u as i64) - 0x1_0000_0000) as i32
    }
}

/// The bit pattern of a signed 32-bit value.
pub fn i32_to_bits(v: i32) -> (r: u32)
    ensures
        r == from_i32(v),
{
    if v >= 0 {
        v as u32
    } else {
        ((v as i64) + 0x1_0000_0000) as u32
    }
}

/// The signed 64-bit value with the given bit pattern.
pub fn i64_from_bits(u: u64) -> (r: i64)
    ensures
        r == as_i64(u),
{
    if u < 0x8000_0000_0000_0000 {
        u as i64
    } else {
        ((u as i128) - 0x1_0000_0000_0000_0000) as i64
    }
}

/// The bit pattern of a signed 64-bit value.
pub fn i64_to_bits(v: i64) -> (r: u64)
    ensures
        r == from_i64(v),
{
    if v >= 0 {
        v as u64
    } else {
        ((v as i128) + 0x1_0000_0000_0000_0000) as u64
    }
}

// ---------------------------------------------------------------------
// Optional-field defaults, lifted to descriptor entries
// ---------------------------------------------------------------------
pub open spec fn d_u1(d: Option<u8>) -> Option<Dflt> {
    match d {
        Some(x) => Some(Dflt::DU1(x)),
        None => None,
    }
}

pub open spec fn d_u2(d: Option<u16>) -> Option<Dflt> {
    match d {
        Some(x) => Some(Dflt::DU2(x)),
        None => None,
    }
}

pub open spec fn d_u4(d: Option<u32>) -> Option<Dflt> {
    match d {
        Some(x) => Some(Dflt::DU4(x)),
        None => None,
    }
}

pub open spec fn d_u8(d: Option<u64>) -> Option<Dflt> {
    match d {
        Some(x) => Some(Dflt::DU8(x)),
        None => None,
    }
}

pub open spec fn d_cn(d: bool) -> Option<Dflt> {
    if d {
        Some(Dflt::DCn)
    } else {
        None
    }
}

pub open spec fn d_dn(d: bool) -> Option<Dflt> {
    if d {
        Some(Dflt::DDn)
    } else {
        None
    }
}

// ---------------------------------------------------------------------
// Scalar field readers
// ---------------------------------------------------------------------
/// Reads a one-byte scalar field, or takes its default at the payload end.
pub fn rd_u1(bytes: &[u8], off: &mut usize, e: Endian, d: Option<u8>) -> (r: Result<
    u8,
    StdfError,
>)
    requires
        *old(off) <= bytes@.len(),
    ensures
        *final(off) <= bytes@.len(),
        ({
            let res = sread_field(
                bytes@,
                e,
                fd(FieldKind::KU1, d_u1(d)),
                Seq::<Val>::empty(),
                *old(off) as int,
            );
            match r {
                Ok(v) => res == Some((Val::U1(v), *final(off) as int)),
                Err(_) => res is None && *final(off) == *old(off),
            }
        }),
{
    if *off == bytes.len() {
        match d {
            Some(x) => Ok(x),
            None => Err(StdfError::Truncated),
        }
    } else {
        let v = bytes[*off];
        *off = *off + 1;
        Ok(v)
    }
}

/// Reads a 16-bit scalar field, or takes its default at the payload end.
pub fn rd_u2(bytes: &[u8], off: &mut usize, e: Endian, d: Option<u16>) -> (r: Result<
    u16,
    StdfError,
>)
    requires
        *old(off) <= bytes@.len(),
    ensures
        *final(off) <= bytes@.len(),
        ({
            let res = sread_field(
                bytes@,
                e,
                fd(FieldKind::KU2, d_u2(d)),
                Seq::<Val>::empty(),
                *old(off) as int,
            );
            match r {
                Ok(v) => res == Some((Val::U2(v), *final(off) as int)),
                Err(_) => res is None && *final(off) == *old(off),
            }
        }),
{
    if *off == bytes.len() {
        match d {
            Some(x) => Ok(x),
            None => Err(StdfError::Truncated),
        }
    } else if bytes.len() - *off < 2 {
        Err(StdfError::Truncated)
    } else {
        let b0 = bytes[*off];
        let b1 = bytes[*off + 1];
        *off = *off + 2;
        let v = match e {
            Endian::Little => (b0 as u16) | (b1 as u16) << 8,
            Endian::Big => (b1 as u16) | (b0 as u16) << 8,
        };
        Ok(v)
    }
}

/// Reads a 32-bit scalar field, or takes its default at the payload end.
pub fn rd_u4(bytes: &[u8], off: &mut usize, e: Endian, d: Option<u32>) -> (r: Result<
    u32,
    StdfError,
>)
    requires
        *old(off) <= bytes@.len(),
    ensures
        *final(off) <= bytes@.len(),
        ({
            let res = sread_field(
                bytes@,
                e,
                fd(FieldKind::KU4, d_u4(d)),
                Seq::<Val>::empty(),
                *old(off) as int,
            );
            match r {
                Ok(v) => res == Some((Val::U4(v), *final(off) as int)),
                Err(_) => res is None && *final(off) == *old(off),
            }
        }),
{
    if *off == bytes.len() {
        match d {
            Some(x) => Ok(x),
            None => Err(StdfError::Truncated),
        }
    } else if bytes.len() - *off < 4 {
        Err(StdfError::Truncated)
    } else {
        let b0 = bytes[*off];
        let b1 = bytes[*off + 1];
        let b2 = bytes[*off + 2];
        let b3 = bytes[*off + 3];
        *off = *off + 4;
        let v = match e {
            Endian::Little => (b0 as u32) | (b1 as u32) << 8 | (b2 as u32) << 16 | (b3 as u32)
                << 24,
            Endian::Big => (b3 as u32) | (b2 as u32) << 8 | (b1 as u32) << 16 | (b0 as u32) << 24,
        };
        Ok(v)
    }
}

/// Reads a 64-bit scalar field, or takes its default at the payload end.
pub fn rd_u8w(bytes: &[u8], off: &mut usize, e: Endian, d: Option<u64>) -> (r: Result<
    u64,
    StdfError,
>)
    requires
        *old(off) <= bytes@.len(),
    ensures
        *final(off) <= bytes@.len(),
        ({
            let res = sread_field(
                bytes@,
                e,
                fd(FieldKind::KU8, d_u8(d)),
                Seq::<Val>::empty(),
                *old(off) as int,
            );
            match r {
                Ok(v) => res == Some((Val::U8(v), *final(off) as int)),
                Err(_) => res is None && *final(off) == *old(off),
            }
        }),
{
    if *off == bytes.len() {
        match d {
            Some(x) => Ok(x),
            None => Err(StdfError::Truncated),
        }
    } else if bytes.len() - *off < 8 {
        Err(StdfError::Truncated)
    } else {
        let b0 = bytes[*off];
        let b1 = bytes[*off + 1];
        let b2 = bytes[*off + 2];
        let b3 = bytes[*off + 3];
        let b4 = bytes[*off + 4];
        let b5 = bytes[*off + 5];
        let b6 = bytes[*off + 6];
        let b7 = bytes[*off + 7];
        *off = *off + 8;
        let v = match e {
            Endian::Little => (b0 as u64) | (b1 as u64) << 8 | (b2 as u64) << 16 | (b3 as u64)
                << 24 | (b4 as u64) << 32 | (b5 as u64) << 40 | (b6 as u64) << 48 | (b7 as u64)
                << 56,
            Endian::Big => (b7 as u64) | (b6 as u64) << 8 | (b5 as u64) << 16 | (b4 as u64) << 24
                | (b3 as u64) << 32 | (b2 as u64) << 40 | (b1 as u64) << 48 | (b0 as u64) << 56,
        };
        Ok(v)
    }
}

/// Reads a length-prefixed field, or takes an empty default at the payload
/// end.
pub fn rd_cn(bytes: &[u8], off: &mut usize, e: Endian, d: bool) -> (r: Result<Vec<u8>, StdfError>)
    requires
        *old(off) <= bytes@.len(),
    ensures
        *final(off) <= bytes@.len(),
        ({
            let res = sread_field(
                bytes@,
                e,
                fd(FieldKind::KCn, d_cn(d)),
                Seq::<Val>::empty(),
                *old(off) as int,
            );
            match r {
                Ok(v) => res == Some((Val::Cn(v@), *final(off) as int)),
                Err(_) => res is None && *final(off) == *old(off),
            }
        }),
{
    if *off == bytes.len() {
        if d {
            Ok(Vec::new())
        } else {
            Err(StdfError::Truncated)
        }
    } else {
        let n = bytes[*off] as usize;
        if bytes.len() - (*off + 1) < n {
            Err(StdfError::Truncated)
        } else {
            let data = vstd::slice::slice_to_vec(
                vstd::slice::slice_subrange(bytes, *off + 1, *off + 1 + n),
            );
            *off = *off + 1 + n;
            Ok(data)
        }
    }
}

/// Reads a bit field, or takes an empty default at the payload end.
pub fn rd_dn(bytes: &[u8], off: &mut usize, e: Endian, d: bool) -> (r: Result<
    (u16, Vec<u8>),
    StdfError,
>)
    requires
        *old(off) <= bytes@.len(),
    ensures
        *final(off) <= bytes@.len(),
        ({
            let res = sread_field(
                bytes@,
                e,
                fd(FieldKind::KDn, d_dn(d)),
                Seq::<Val>::empty(),
                *old(off) as int,
            );
            match r {
                Ok(v) => res == Some((Val::Dn(v.0, v.1@), *final(off) as int)),
                Err(_) => res is None && *final(off) == *old(off),
            }
        }),
{
    if *off == bytes.len() {
        if d {
            Ok((0, Vec::new()))
        } else {
            Err(StdfError::Truncated)
        }
    } else if bytes.len() - *off < 2 {
        Err(StdfError::Truncated)
    } else {
        let b0 = bytes[*off];
        let b1 = bytes[*off + 1];
        let dlen = match e {
            Endian::Little => (b0 as u16) | (b1 as u16) << 8,
            Endian::Big => (b1 as u16) | (b0 as u16) << 8,
        };
        let bl = (dlen as usize + 7) / 8;
        if bytes.len() - (*off + 2) < bl {
            Err(StdfError::Truncated)
        } else {
            let data = vstd::slice::slice_to_vec(
                vstd::slice::slice_subrange(bytes, *off + 2, *off + 2 + bl),
            );
            *off = *off + 2 + bl;
            Ok((dlen, data))
        }
    }
}

} // verus!

verus! {

// ---------------------------------------------------------------------
// The tagged union
// ---------------------------------------------------------------------
/// Whether a byte is the type tag of some case of the generic-data
/// union.
pub open spec fn vn_tag_known(tag: u8) -> bool {
    tag <= 8 || tag == 10 || tag == 11 || tag == 12 || tag == 13
}

/// Reads one generic-data value: its type tag, then the payload of that
/// tag.  A tag no case claims is bad input, a distinct failure from
/// running out of bytes.
#[verifier::rlimit(100)]
pub fn rd_vn(bytes: &[u8], off: &mut usize, e: Endian) -> (r: Result<Vn, StdfError>)
    requires
        *old(off) <= bytes@.len(),
    ensures
        *final(off) <= bytes@.len(),
        match r {
            Ok(v) => sread_vn(bytes@, e, *old(off) as int) == Some((v@, *final(off) as int)),
            Err(er) => sread_vn(bytes@, e, *old(off) as int) is None && (er
                == StdfError::BadInput <==> *old(off) < bytes@.len() && !vn_tag_known(
                bytes@[*old(off) as int],
            )),
        },
{
    if *off == bytes.len() {
        return Err(StdfError::Truncated);
    }
    let tag = bytes[*off];
    *off = *off + 1;
    match tag {
        0u8 => Ok(Vn::B0),
        1u8 => match rd_u1(bytes, off, e, None) {
            Ok(x) => Ok(Vn::U1(U1(x))),
            Err(_) => Err(StdfError::Truncated),
        },
        2u8 => match rd_u2(bytes, off, e, None) {
            Ok(x) => Ok(Vn::U2(U2(x))),
            Err(_) => Err(StdfError::Truncated),
        },
        3u8 => match rd_u4(bytes, off, e, None) {
            Ok(x) => Ok(Vn::U4(crate::types::U4(x))),
            Err(_) => Err(StdfError::Truncated),
        },
        4u8 => match rd_u1(bytes, off, e, None) {
            Ok(x) => Ok(Vn::I1(crate::types::I1(i8_from_bits(x)))),
            Err(_) => Err(StdfError::Truncated),
        },
        5u8 => match rd_u2(bytes, off, e, None) {
            Ok(x) => Ok(Vn::I2(crate::types::I2(i16_from_bits(x)))),
            Err(_) => Err(StdfError::Truncated),
        },
        6u8 => match rd_u4(bytes, off, e, None) {
            Ok(x) => Ok(Vn::I4(crate::types::I4(i32_from_bits(x)))),
            Err(_) => Err(StdfError::Truncated),
        },
        7u8 => match rd_u4(bytes, off, e, None) {
            Ok(x) => Ok(Vn::R4(R4(x))),
            Err(_) => Err(StdfError::Truncated),
        },
        8u8 => match rd_u8w(bytes, off, e, None) {
            Ok(x) => Ok(Vn::R8(crate::types::R8(x))),
            Err(_) => Err(StdfError::Truncated),
        },
        10u8 => match rd_cn(bytes, off, e, false) {
            Ok(x) => Ok(Vn::Cn(Cn(x))),
            Err(_) => Err(StdfError::Truncated),
        },
        11u8 => match rd_cn(bytes, off, e, false) {
            Ok(x) => Ok(Vn::Bn(Bn(x))),
            Err(_) => Err(StdfError::Truncated),
        },
        12u8 => match rd_dn(bytes, off, e, false) {
            Ok(x) => Ok(Vn::Dn(Dn(x.0, x.1))),
            Err(_) => Err(StdfError::Truncated),
        },
        13u8 => match rd_u1(bytes, off, e, None) {
            Ok(x) => Ok(Vn::N1(N1(x))),
            Err(_) => Err(StdfError::Truncated),
        },
        _ => Err(StdfError::BadInput),
    }
}

// ---------------------------------------------------------------------
// Array field readers
// ---------------------------------------------------------------------
/// Reads `k` one-byte elements.
pub fn rd_arr_u1(bytes: &[u8], off: &mut usize, e: Endian, k: usize) -> (r: Result<
    Vec<U1>,
    StdfError,
>)
    requires
        *old(off) <= bytes@.len(),
    ensures
        *final(off) <= bytes@.len(),
        match r {
            Ok(v) => sread_arr_field(bytes@, e, Elem::EU1, k as int, *old(off) as int) == Some(
                (Val::ArrU1(v.deep_view()), *final(off) as int),
            ),
            Err(_) => sread_arr_field(bytes@, e, Elem::EU1, k as int, *old(off) as int) is None,
        },
{
    if *off == bytes.len() {
        let out: Vec<U1> = Vec::new();
        proof {
            assert(out.deep_view() =~= Seq::<u8>::empty());
        }
        return Ok(out);
    }
    if bytes.len() - *off < k {
        return Err(StdfError::Truncated);
    }
    let base: usize = *off;
    let mut out: Vec<U1> = Vec::new();
    let mut i: usize = 0;
    while i < k
        invariant
            i <= k,
            base == *old(off) as int,
            base < bytes@.len(),
            base + k <= bytes@.len(),
            base + k <= usize::MAX,
            out@.len() == i,
            forall|x: int| 0 <= x < i ==> out@[x].0 == bytes@[base + x],
        decreases k - i,
    {
        out.push(U1(bytes[base + i]));
        i = i + 1;
    }
    *off = base + k;
    proof {
        assert(out.deep_view() =~= bytes@.subrange(base as int, base as int + k as int));
    }
    Ok(out)
}

/// Reads `k` nibble-packed elements: one byte per two nibbles begun; the
/// high nibble of an odd tail byte is discarded.
pub fn rd_arr_n1(bytes: &[u8], off: &mut usize, e: Endian, k: usize) -> (r: Result<
    Vec<N1>,
    StdfError,
>)
    requires
        *old(off) <= bytes@.len(),
        k < usize::MAX,
    ensures
        *final(off) <= bytes@.len(),
        match r {
            Ok(v) => sread_arr_field(bytes@, e, Elem::EN1, k as int, *old(off) as int) == Some(
                (Val::ArrN1(v.deep_view()), *final(off) as int),
            ),
            Err(_) => sread_arr_field(bytes@, e, Elem::EN1, k as int, *old(off) as int) is None,
        },
{
    if *off == bytes.len() {
        let out: Vec<N1> = Vec::new();
        proof {
            assert(out.deep_view() =~= Seq::<u8>::empty());
        }
        return Ok(out);
    }
    let bl = (k + 1) / 2;
    if bytes.len() - *off < bl {
        return Err(StdfError::Truncated);
    }
    let base: usize = *off;
    let mut out: Vec<N1> = Vec::new();
    let mut i: usize = 0;
    while i < k
        invariant
            i <= k,
            bl == (k + 1) / 2,
            base == *old(off) as int,
            base < bytes@.len(),
            base + bl <= bytes@.len(),
            base + bl <= usize::MAX,
            out@.len() == i,
            forall|x: int| 0 <= x < i ==> out@[x].0 == nib_at(bytes@, base as int, x),
        decreases k - i,
    {
        let byte = bytes[base + i / 2];
        let v = if i % 2 == 0 {
            byte & 0xf
        } else {
            byte >> 4
        };
        out.push(N1(v));
        i = i + 1;
    }
    *off = base + bl;
    proof {
        assert(out.deep_view() =~= Seq::new(k as nat, |x: int| nib_at(bytes@, base as int, x)));
    }
    Ok(out)
}

/// Reads `k` 16-bit elements.
pub fn rd_arr_u2(bytes: &[u8], off: &mut usize, e: Endian, k: usize) -> (r: Result<
    Vec<U2>,
    StdfError,
>)
    requires
        *old(off) <= bytes@.len(),
    ensures
        *final(off) <= bytes@.len(),
        match r {
            Ok(v) => sread_arr_field(bytes@, e, Elem::EU2, k as int, *old(off) as int) == Some(
                (Val::ArrU2(v.deep_view()), *final(off) as int),
            ),
            Err(_) => sread_arr_field(bytes@, e, Elem::EU2, k as int, *old(off) as int) is None,
        },
{
    if *off == bytes.len() {
        let out: Vec<U2> = Vec::new();
        proof {
            assert(out.deep_view() =~= Seq::<u16>::empty());
        }
        return Ok(out);
    }
    let ghost s = bytes@;
    let ghost base = *off as int;
    let mut out: Vec<U2> = Vec::new();
    let mut i: usize = 0;
    while i < k
        invariant
            i <= k,
            *off <= bytes@.len(),
            s == bytes@,
            base == *old(off) as int,
            base < bytes@.len(),
            out@.len() == i,
            match sread_arr_u2(s, e, k - i, *off as int) {
                Some((rest, o)) => sread_arr_u2(s, e, k as int, base) == Some(
                    (out.deep_view() + rest, o),
                ),
                None => sread_arr_u2(s, e, k as int, base) is None,
            },
        decreases k - i,
    {
        let ghost off0 = *off as int;
        let ghost prev = out.deep_view();
        let x = match rd_u2(bytes, off, e, None) {
            Ok(x) => x,
            Err(er) => {
                proof {
                    assert(sread_arr_u2(s, e, k - i, off0) is None);
                }
                return Err(er);
            },
        };
        out.push(U2(x));
        i = i + 1;
        proof {
            assert(out.deep_view() =~= prev.push(x));
            assert(sread_u2(s, e, off0) == Some((x, *off as int)));
            match sread_arr_u2(s, e, k - i, *off as int) {
                Some((rest, o)) => {
                    assert(prev.push(x) + rest =~= prev + (seq![x] + rest));
                },
                None => {},
            }
        }
    }
    proof {
        assert(sread_arr_u2(s, e, 0, *off as int) == Some((Seq::<u16>::empty(), *off as int)));
        assert(out.deep_view() + Seq::<u16>::empty() =~= out.deep_view());
    }
    Ok(out)
}

/// Reads `k` 32-bit elements.
pub fn rd_arr_u4(bytes: &[u8], off: &mut usize, e: Endian, k: usize) -> (r: Result<
    Vec<R4>,
    StdfError,
>)
    requires
        *old(off) <= bytes@.len(),
    ensures
        *final(off) <= bytes@.len(),
        match r {
            Ok(v) => sread_arr_field(bytes@, e, Elem::EU4, k as int, *old(off) as int) == Some(
                (Val::ArrU4(v.deep_view()), *final(off) as int),
            ),
            Err(_) => sread_arr_field(bytes@, e, Elem::EU4, k as int, *old(off) as int) is None,
        },
{
    if *off == bytes.len() {
        let out: Vec<R4> = Vec::new();
        proof {
            assert(out.deep_view() =~= Seq::<u32>::empty());
        }
        return Ok(out);
    }
    let ghost s = bytes@;
    let ghost base = *off as int;
    let mut out: Vec<R4> = Vec::new();
    let mut i: usize = 0;
    while i < k
        invariant
            i <= k,
            *off <= bytes@.len(),
            s == bytes@,
            base == *old(off) as int,
            base < bytes@.len(),
            out@.len() == i,
            match sread_arr_u4(s, e, k - i, *off as int) {
                Some((rest, o)) => sread_arr_u4(s, e, k as int, base) == Some(
                    (out.deep_view() + rest, o),
                ),
                None => sread_arr_u4(s, e, k as int, base) is None,
            },
        decreases k - i,
    {
        let ghost off0 = *off as int;
        let ghost prev = out.deep_view();
        let x = match rd_u4(bytes, off, e, None) {
            Ok(x) => x,
            Err(er) => {
                proof {
                    assert(sread_arr_u4(s, e, k - i, off0) is None);
                }
                return Err(er);
            },
        };
        out.push(R4(x));
        i = i + 1;
        proof {
            assert(out.deep_view() =~= prev.push(x));
            assert(sread_u4(s, e, off0) == Some((x, *off as int)));
            match sread_arr_u4(s, e, k - i, *off as int) {
                Some((rest, o)) => {
                    assert(prev.push(x) + rest =~= prev + (seq![x] + rest));
                },
                None => {},
            }
        }
    }
    proof {
        assert(sread_arr_u4(s, e, 0, *off as int) == Some((Seq::<u32>::empty(), *off as int)));
        assert(out.deep_view() + Seq::<u32>::empty() =~= out.deep_view());
    }
    Ok(out)
}

/// Reads `k` length-prefixed elements.
pub fn rd_arr_cn(bytes: &[u8], off: &mut usize, e: Endian, k: usize) -> (r: Result<
    Vec<Cn>,
    StdfError,
>)
    requires
        *old(off) <= bytes@.len(),
    ensures
        *final(off) <= bytes@.len(),
        match r {
            Ok(v) => sread_arr_field(bytes@, e, Elem::ECn, k as int, *old(off) as int) == Some(
                (Val::ArrCn(v.deep_view()), *final(off) as int),
            ),
            Err(_) => sread_arr_field(bytes@, e, Elem::ECn, k as int, *old(off) as int) is None,
        },
{
    if *off == bytes.len() {
        let out: Vec<Cn> = Vec::new();
        proof {
            assert(out.deep_view() =~= Seq::<Seq<u8>>::empty());
        }
        return Ok(out);
    }
    let ghost s = bytes@;
    let ghost base = *off as int;
    let mut out: Vec<Cn> = Vec::new();
    let mut i: usize = 0;
    while i < k
        invariant
            i <= k,
            *off <= bytes@.len(),
            s == bytes@,
            base == *old(off) as int,
            base < bytes@.len(),
            out@.len() == i,
            match sread_arr_cn(s, k - i, *off as int) {
                Some((rest, o)) => sread_arr_cn(s, k as int, base) == Some(
                    (out.deep_view() + rest, o),
                ),
                None => sread_arr_cn(s, k as int, base) is None,
            },
        decreases k - i,
    {
        let ghost off0 = *off as int;
        let ghost prev = out.deep_view();
        let x = match rd_cn_plain(bytes, off) {
            Ok(x) => x,
            Err(er) => {
                proof {
                    assert(sread_arr_cn(s, k - i, off0) is None);
                }
                return Err(er);
            },
        };
        out.push(Cn(x));
        i = i + 1;
        proof {
            assert(out.deep_view() =~= prev.push(out@[i - 1].0@));
            match sread_arr_cn(s, k - i, *off as int) {
                Some((rest, o)) => {
                    assert(out.deep_view() + rest =~= prev + (seq![out@[i - 1].0@] + rest));
                },
                None => {},
            }
        }
    }
    proof {
        assert(sread_arr_cn(s, 0, *off as int) == Some((Seq::<Seq<u8>>::empty(), *off as int)));
        assert(out.deep_view() + Seq::<Seq<u8>>::empty() =~= out.deep_view());
    }
    Ok(out)
}

/// Reads one length-prefixed element of an array: unlike a field, it never
/// takes a default.
fn rd_cn_plain(bytes: &[u8], off: &mut usize) -> (r: Result<Vec<u8>, StdfError>)
    requires
        *old(off) <= bytes@.len(),
    ensures
        *final(off) <= bytes@.len(),
        match r {
            Ok(v) => sread_cn(bytes@, *old(off) as int) == Some((v@, *final(off) as int)),
            Err(_) => sread_cn(bytes@, *old(off) as int) is None,
        },
{
    if *off == bytes.len() {
        return Err(StdfError::Truncated);
    }
    let n = bytes[*off] as usize;
    if bytes.len() - (*off + 1) < n {
        Err(StdfError::Truncated)
    } else {
        let data = vstd::slice::slice_to_vec(
            vstd::slice::slice_subrange(bytes, *off + 1, *off + 1 + n),
        );
        *off = *off + 1 + n;
        Ok(data)
    }
}

/// Reads `k` generic-data elements.
pub fn rd_arr_vn(bytes: &[u8], off: &mut usize, e: Endian, k: usize) -> (r: Result<
    Vec<Vn>,
    StdfError,
>)
    requires
        *old(off) <= bytes@.len(),
    ensures
        *final(off) <= bytes@.len(),
        match r {
            Ok(v) => sread_arr_field(bytes@, e, Elem::EVn, k as int, *old(off) as int) == Some(
                (Val::ArrVn(v.deep_view()), *final(off) as int),
            ),
            Err(_) => sread_arr_field(bytes@, e, Elem::EVn, k as int, *old(off) as int) is None,
        },
{
    if *off == bytes.len() {
        let out: Vec<Vn> = Vec::new();
        proof {
            assert(out.deep_view() =~= Seq::<VnV>::empty());
        }
        return Ok(out);
    }
    let ghost s = bytes@;
    let ghost base = *off as int;
    let mut out: Vec<Vn> = Vec::new();
    let mut i: usize = 0;
    while i < k
        invariant
            i <= k,
            *off <= bytes@.len(),
            s == bytes@,
            base == *old(off) as int,
            base < bytes@.len(),
            out@.len() == i,
            match sread_arr_vn(s, e, k - i, *off as int) {
                Some((rest, o)) => sread_arr_vn(s, e, k as int, base) == Some(
                    (out.deep_view() + rest, o),
                ),
                None => sread_arr_vn(s, e, k as int, base) is None,
            },
        decreases k - i,
    {
        let ghost off0 = *off as int;
        let ghost prev = out.deep_view();
        let x = match rd_vn(bytes, off, e) {
            Ok(x) => x,
            Err(er) => {
                proof {
                    assert(sread_arr_vn(s, e, k - i, off0) is None);
                }
                return Err(er);
            },
        };
        out.push(x);
        i = i + 1;
        proof {
            assert(out.deep_view() =~= prev.push(out@[i - 1]@));
            match sread_arr_vn(s, e, k - i, *off as int) {
                Some((rest, o)) => {
                    assert(out.deep_view() + rest =~= prev + (seq![out@[i - 1]@] + rest));
                },
                None => {},
            }
        }
    }
    proof {
        assert(sread_arr_vn(s, e, 0, *off as int) == Some((Seq::<VnV>::empty(), *off as int)));
        assert(out.deep_view() + Seq::<VnV>::empty() =~= out.deep_view());
    }
    Ok(out)
}

} // verus!

verus! {

// ---------------------------------------------------------------------
// Field writers
// ---------------------------------------------------------------------
/// Appends raw bytes.
pub fn wr_bytes(out: &mut Vec<u8>, v: &[u8])
    ensures
        final(out)@ == old(out)@ + v@,
{
    let n = v.len();
    let mut i: usize = 0;
    while i < n
        invariant
            i <= n,
            n == v@.len(),
            out@ == old(out)@ + v@.take(i as int),
        decreases n - i,
    {
        out.push(v[i]);
        i = i + 1;
        proof {
            assert(old(out)@ + v@.take(i as int) =~= (old(out)@ + v@.take(i - 1)).push(
                v@[i - 1],
            ));
        }
    }
    proof {
        assert(v@.take(n as int) =~= v@);
    }
}

/// Appends a one-byte scalar.
pub fn wr_u1(out: &mut Vec<u8>, v: u8)
    ensures
        final(out)@ == old(out)@ + seq![v],
{
    out.push(v);
    proof {
        assert(out@ =~= old(out)@ + seq![v]);
    }
}

/// Appends a 16-bit scalar in wire order.
pub fn wr_u2(out: &mut Vec<u8>, e: Endian, v: u16)
    ensures
        final(out)@ == old(out)@ + enc16(e, v),
{
    match e {
        Endian::Little => {
            out.push((v & 0xff) as u8);
            out.push(((v >> 8) & 0xff) as u8);
        },
        Endian::Big => {
            out.push(((v >> 8) & 0xff) as u8);
            out.push((v & 0xff) as u8);
        },
    }
    proof {
        assert(out@ =~= old(out)@ + enc16(e, v));
    }
}

/// Appends a 32-bit scalar in wire order.
pub fn wr_u4(out: &mut Vec<u8>, e: Endian, v: u32)
    ensures
        final(out)@ == old(out)@ + enc32(e, v),
{
    match e {
        Endian::Little => {
            out.push((v & 0xff) as u8);
            out.push(((v >> 8) & 0xff) as u8);
            out.push(((v >> 16) & 0xff) as u8);
            out.push(((v >> 24) & 0xff) as u8);
        },
        Endian::Big => {
            out.push(((v >> 24) & 0xff) as u8);
            out.push(((v >> 16) & 0xff) as u8);
            out.push(((v >> 8) & 0xff) as u8);
            out.push((v & 0xff) as u8);
        },
    }
    proof {
        assert(out@ =~= old(out)@ + enc32(e, v));
    }
}

/// Appends a 64-bit scalar in wire order.
pub fn wr_u8w(out: &mut Vec<u8>, e: Endian, v: u64)
    ensures
        final(out)@ == old(out)@ + enc64(e, v),
{
    match e {
        Endian::Little => {
            out.push((v & 0xff) as u8);
            out.push(((v >> 8) & 0xff) as u8);
            out.push(((v >> 16) & 0xff) as u8);
            out.push(((v >> 24) & 0xff) as u8);
            out.push(((v >> 32) & 0xff) as u8);
            out.push(((v >> 40) & 0xff) as u8);
            out.push(((v >> 48) & 0xff) as u8);
            out.push(((v >> 56) & 0xff) as u8);
        },
        Endian::Big => {
            out.push(((v >> 56) & 0xff) as u8);
            out.push(((v >> 48) & 0xff) as u8);
            out.push(((v >> 40) & 0xff) as u8);
            out.push(((v >> 32) & 0xff) as u8);
            out.push(((v >> 24) & 0xff) as u8);
            out.push(((v >> 16) & 0xff) as u8);
            out.push(((v >> 8) & 0xff) as u8);
            out.push((v & 0xff) as u8);
        },
    }
    proof {
        assert(out@ =~= old(out)@ + enc64(e, v));
    }
}

/// Appends a length-prefixed string: its length byte, then its bytes.  The
/// length must fit the length byte; that is the caller's duty.
pub fn wr_cn(out: &mut Vec<u8>, v: &[u8])
    requires
        v@.len() <= 255,
    ensures
        final(out)@ == old(out)@ + enc_cn(v@),
{
    out.push(v.len() as u8);
    wr_bytes(out, v);
    proof {
        assert(out@ =~= old(out)@ + enc_cn(v@));
    }
}

/// Appends a bit field: its bit count, then one byte per eight bits begun.
/// A count asking for more bytes than the value holds is clamped down.
pub fn wr_dn(out: &mut Vec<u8>, e: Endian, d: u16, data: &[u8])
    requires
        (d as int + 7) / 8 >= data@.len() || data@.len() <= 8191,
    ensures
        final(out)@ == old(out)@ + enc_dn(e, d, data@),
{
    let bl = (d as usize + 7) / 8;
    if bl > data.len() {
        wr_u2(out, e, (8 * data.len()) as u16);
        wr_bytes(out, data);
        proof {
            assert(out@ =~= old(out)@ + enc_dn(e, d, data@));
        }
    } else {
        wr_u2(out, e, d);
        wr_bytes(out, vstd::slice::slice_subrange(data, 0, bl));
        proof {
            assert(data@.subrange(0, bl as int) =~= data@.take(bl as int));
            assert(out@ =~= old(out)@ + enc_dn(e, d, data@));
        }
    }
}

/// Appends a generic-data value: its type tag, then its payload.
pub fn wr_vn(out: &mut Vec<u8>, e: Endian, v: &Vn)
    requires
        vnv_wf(v@),
    ensures
        final(out)@ == old(out)@ + enc_vnv(e, v@),
{
    match v {
        Vn::B0 => {
            out.push(0);
            proof {
                assert(out@ =~= old(out)@ + enc_vnv(e, v@));
            }
        },
        Vn::U1(x) => {
            out.push(1);
            out.push(x.0);
            proof {
                assert(out@ =~= old(out)@ + enc_vnv(e, v@));
            }
        },
        Vn::U2(x) => {
            out.push(2);
            wr_u2(out, e, x.0);
            proof {
                assert(out@ =~= old(out)@ + enc_vnv(e, v@));
            }
        },
        Vn::U4(x) => {
            out.push(3);
            wr_u4(out, e, x.0);
            proof {
                assert(out@ =~= old(out)@ + enc_vnv(e, v@));
            }
        },
        Vn::I1(x) => {
            out.push(4);
            out.push(i8_to_bits(x.0));
            proof {
                assert(out@ =~= old(out)@ + enc_vnv(e, v@));
            }
        },
        Vn::I2(x) => {
            out.push(5);
            wr_u2(out, e, i16_to_bits(x.0));
            proof {
                assert(out@ =~= old(out)@ + enc_vnv(e, v@));
            }
        },
        Vn::I4(x) => {
            out.push(6);
            wr_u4(out, e, i32_to_bits(x.0));
            proof {
                assert(out@ =~= old(out)@ + enc_vnv(e, v@));
            }
        },
        Vn::R4(x) => {
            out.push(7);
            wr_u4(out, e, x.0);
            proof {
                assert(out@ =~= old(out)@ + enc_vnv(e, v@));
            }
        },
        Vn::R8(x) => {
            out.push(8);
            wr_u8w(out, e, x.0);
            proof {
                assert(out@ =~= old(out)@ + enc_vnv(e, v@));
            }
        },
        Vn::Cn(x) => {
            out.push(10);
            wr_cn(out, x.0.as_slice());
            proof {
                assert(out@ =~= old(out)@ + enc_vnv(e, v@));
            }
        },
        Vn::Bn(x) => {
            out.push(11);
            wr_cn(out, x.0.as_slice());
            proof {
                assert(out@ =~= old(out)@ + enc_vnv(e, v@));
            }
        },
        Vn::Dn(x) => {
            out.push(12);
            wr_dn(out, e, x.0, x.1.as_slice());
            proof {
                assert(out@ =~= old(out)@ + enc_vnv(e, v@));
            }
        },
        Vn::N1(x) => {
            out.push(13);
            out.push(x.0);
            proof {
                assert(out@ =~= old(out)@ + enc_vnv(e, v@));
            }
        },
    }
}

/// Appends a one-byte-element array.
pub fn wr_arr_u1(out: &mut Vec<u8>, v: &Vec<U1>)
    ensures
        final(out)@ == old(out)@ + v.deep_view(),
{
    let n = v.len();
    let mut i: usize = 0;
    while i < n
        invariant
            i <= n,
            n == v@.len(),
            out@ == old(out)@ + v.deep_view().take(i as int),
        decreases n - i,
    {
        out.push(v[i].0);
        i = i + 1;
        proof {
            assert(old(out)@ + v.deep_view().take(i as int) =~= (old(out)@ + v.deep_view().take(
                i - 1,
            )).push(v@[i - 1].0));
        }
    }
    proof {
        assert(v.deep_view().take(n as int) =~= v.deep_view());
    }
}

/// Appends a nibble-packed array: two nibbles per byte, low nibble first;
/// the high nibble of an odd tail byte is left at zero.
pub fn wr_arr_n1(out: &mut Vec<u8>, v: &Vec<N1>)
    ensures
        final(out)@ == old(out)@ + nib_pack(v.deep_view()),
{
    let n = v.len();
    let bl = n / 2 + n % 2;
    let mut i: usize = 0;
    while i < bl
        invariant
            i <= bl,
            n == v@.len(),
            bl == n / 2 + n % 2,
            out@.len() == old(out)@.len() + i,
            out@ == old(out)@ + nib_pack(v.deep_view()).take(i as int),
        decreases bl - i,
    {
        let byte = if 2 * i + 1 < n {
            (v[2 * i].0 & 0xf) | (v[2 * i + 1].0 << 4)
        } else {
            v[2 * i].0 & 0xf
        };
        out.push(byte);
        i = i + 1;
        proof {
            assert(nib_pack(v.deep_view()).len() == bl);
            assert(nib_pack(v.deep_view())[i - 1] == byte);
            assert(old(out)@ + nib_pack(v.deep_view()).take(i as int) =~= (old(out)@ + nib_pack(
                v.deep_view(),
            ).take(i - 1)).push(byte));
        }
    }
    proof {
        assert(nib_pack(v.deep_view()).take(bl as int) =~= nib_pack(v.deep_view()));
    }
}

/// Appends a 16-bit-element array in wire order.
pub fn wr_arr_u2(out: &mut Vec<u8>, e: Endian, v: &Vec<U2>)
    ensures
        final(out)@ == old(out)@ + enc_arr_u2(e, v.deep_view()),
{
    let n = v.len();
    let mut i: usize = 0;
    while i < n
        invariant
            i <= n,
            n == v@.len(),
            out@ == old(out)@ + enc_arr_u2(e, v.deep_view().take(i as int)),
        decreases n - i,
    {
        wr_u2(out, e, v[i].0);
        i = i + 1;
        proof {
            assert(v.deep_view().take(i as int) =~= v.deep_view().take(i - 1).push(v@[i - 1].0));
            crate::wire::lemma_enc_arr_u2_push(e, v.deep_view().take(i - 1), v@[i - 1].0);
            assert(out@ =~= old(out)@ + enc_arr_u2(e, v.deep_view().take(i as int)));
        }
    }
    proof {
        assert(v.deep_view().take(n as int) =~= v.deep_view());
    }
}

/// Appends a 32-bit-element array in wire order.
pub fn wr_arr_u4(out: &mut Vec<u8>, e: Endian, v: &Vec<R4>)
    ensures
        final(out)@ == old(out)@ + enc_arr_u4(e, v.deep_view()),
{
    let n = v.len();
    let mut i: usize = 0;
    while i < n
        invariant
            i <= n,
            n == v@.len(),
            out@ == old(out)@ + enc_arr_u4(e, v.deep_view().take(i as int)),
        decreases n - i,
    {
        wr_u4(out, e, v[i].0);
        i = i + 1;
        proof {
            assert(v.deep_view().take(i as int) =~= v.deep_view().take(i - 1).push(v@[i - 1].0));
            crate::wire::lemma_enc_arr_u4_push(e, v.deep_view().take(i - 1), v@[i - 1].0);
            assert(out@ =~= old(out)@ + enc_arr_u4(e, v.deep_view().take(i as int)));
        }
    }
    proof {
        assert(v.deep_view().take(n as int) =~= v.deep_view());
    }
}

/// Appends an array of length-prefixed strings.
pub fn wr_arr_cn(out: &mut Vec<u8>, v: &Vec<Cn>)
    requires
        forall|i: int| 0 <= i < v@.len() ==> #[trigger] v@[i].0@.len() <= 255,
    ensures
        final(out)@ == old(out)@ + enc_arr_cn(v.deep_view()),
{
    let n = v.len();
    let mut i: usize = 0;
    while i < n
        invariant
            i <= n,
            n == v@.len(),
            forall|x: int| 0 <= x < v@.len() ==> #[trigger] v@[x].0@.len() <= 255,
            out@ == old(out)@ + enc_arr_cn(v.deep_view().take(i as int)),
        decreases n - i,
    {
        wr_cn(out, v[i].0.as_slice());
        i = i + 1;
        proof {
            assert(v.deep_view().take(i as int) =~= v.deep_view().take(i - 1).push(v@[i - 1].0@));
            crate::wire::lemma_enc_arr_cn_push(v.deep_view().take(i - 1), v@[i - 1].0@);
            assert(out@ =~= old(out)@ + enc_arr_cn(v.deep_view().take(i as int)));
        }
    }
    proof {
        assert(v.deep_view().take(n as int) =~= v.deep_view());
    }
}

/// Appends an array of generic-data values.
pub fn wr_arr_vn(out: &mut Vec<u8>, e: Endian, v: &Vec<Vn>)
    requires
        forall|i: int| 0 <= i < v@.len() ==> #[trigger] vnv_wf(v@[i]@),
    ensures
        final(out)@ == old(out)@ + enc_arr_vn(e, v.deep_view()),
{
    let n = v.len();
    let mut i: usize = 0;
    while i < n
        invariant
            i <= n,
            n == v@.len(),
            forall|x: int| 0 <= x < v@.len() ==> #[trigger] vnv_wf(v@[x]@),
            out@ == old(out)@ + enc_arr_vn(e, v.deep_view().take(i as int)),
        decreases n - i,
    {
        wr_vn(out, e, &v[i]);
        i = i + 1;
        proof {
            assert(v.deep_view().take(i as int) =~= v.deep_view().take(i - 1).push(v@[i - 1]@));
            crate::wire::lemma_enc_arr_vn_push(e, v.deep_view().take(i - 1), v@[i - 1]@);
            assert(out@ =~= old(out)@ + enc_arr_vn(e, v.deep_view().take(i as int)));
        }
    }
    proof {
        assert(v.deep_view().take(n as int) =~= v.deep_view());
    }
}

} // verus!
