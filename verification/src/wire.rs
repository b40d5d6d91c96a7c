//! The mathematical model of the STDF wire format.
//!
//! Everything a record can carry is modelled by the ghost type [`Val`]; a
//! record variant is described by a sequence of [`FieldDef`]s giving each
//! field's wire kind, its default (if the payload may end before it) and, for
//! array fields, which earlier field holds the element count.  The
//! specification-level decoder [`sdecode`] and encoder [`enc_vals`] are the
//! single meaning of the format: every executable reader and writer is
//! proved against them, and [`lemma_roundtrip`] shows that decoding an
//! encoding gives the values back.

use vstd::prelude::*;

use crate::types::{Endian, VnV};

verus! {

// ---------------------------------------------------------------------
// Scalar wire integers
// ---------------------------------------------------------------------
/// The unsigned 16-bit value whose little-endian bytes are `b0, b1`.
pub open spec fn le16(b0: u8, b1: u8) -> u16 {
    (b0 as u16) | (b1 as u16) << 8
}

/// The unsigned 32-bit value whose little-endian bytes are `b0 .. b3`.
pub open spec fn le32(b0: u8, b1: u8, b2: u8, b3: u8) -> u32 {
    (b0 as u32) | (b1 as u32) << 8 | (b2 as u32) << 16 | (b3 as u32) << 24
}

/// The unsigned 64-bit value whose little-endian bytes are `b0 .. b7`.
pub open spec fn le64(b0: u8, b1: u8, b2: u8, b3: u8, b4: u8, b5: u8, b6: u8, b7: u8) -> u64 {
    (b0 as u64) | (b1 as u64) << 8 | (b2 as u64) << 16 | (b3 as u64) << 24 | (b4 as u64) << 32
        | (b5 as u64) << 40 | (b6 as u64) << 48 | (b7 as u64) << 56
}

/// The two wire bytes of an unsigned 16-bit value under a byte order.
pub open spec fn enc16(e: Endian, v: u16) -> Seq<u8> {
    match e {
        Endian::Little => seq![(v & 0xff) as u8, ((v >> 8) & 0xff) as u8],
        Endian::Big => seq![((v >> 8) & 0xff) as u8, (v & 0xff) as u8],
    }
}

/// The four wire bytes of an unsigned 32-bit value under a byte order.
pub open spec fn enc32(e: Endian, v: u32) -> Seq<u8> {
    match e {
        Endian::Little => seq![
            (v & 0xff) as u8,
            ((v >> 8) & 0xff) as u8,
            ((v >> 16) & 0xff) as u8,
            ((v >> 24) & 0xff) as u8,
        ],
        Endian::Big => seq![
            ((v >> 24) & 0xff) as u8,
            ((v >> 16) & 0xff) as u8,
            ((v >> 8) & 0xff) as u8,
            (v & 0xff) as u8,
        ],
    }
}

/// The eight wire bytes of an unsigned 64-bit value under a byte order.
pub open spec fn enc64(e: Endian, v: u64) -> Seq<u8> {
    match e {
        Endian::Little => seq![
            (v & 0xff) as u8,
            ((v >> 8) & 0xff) as u8,
            ((v >> 16) & 0xff) as u8,
            ((v >> 24) & 0xff) as u8,
            ((v >> 32) & 0xff) as u8,
            ((v >> 40) & 0xff) as u8,
            ((v >> 48) & 0xff) as u8,
            ((v >> 56) & 0xff) as u8,
        ],
        Endian::Big => seq![
            ((v >> 56) & 0xff) as u8,
            ((v >> 48) & 0xff) as u8,
            ((v >> 40) & 0xff) as u8,
            ((v >> 32) & 0xff) as u8,
            ((v >> 24) & 0xff) as u8,
            ((v >> 16) & 0xff) as u8,
            ((v >> 8) & 0xff) as u8,
            (v & 0xff) as u8,
        ],
    }
}

/// The 16-bit value read from two bytes in wire order.
pub open spec fn comb16(e: Endian, b0: u8, b1: u8) -> u16 {
    match e {
        Endian::Little => le16(b0, b1),
        Endian::Big => le16(b1, b0),
    }
}

/// The 32-bit value read from four bytes in wire order.
pub open spec fn comb32(e: Endian, b0: u8, b1: u8, b2: u8, b3: u8) -> u32 {
    match e {
        Endian::Little => le32(b0, b1, b2, b3),
        Endian::Big => le32(b3, b2, b1, b0),
    }
}

/// The 64-bit value read from eight bytes in wire order.
pub open spec fn comb64(
    e: Endian,
    b0: u8,
    b1: u8,
    b2: u8,
    b3: u8,
    b4: u8,
    b5: u8,
    b6: u8,
    b7: u8,
) -> u64 {
    match e {
        Endian::Little => le64(b0, b1, b2, b3, b4, b5, b6, b7),
        Endian::Big => le64(b7, b6, b5, b4, b3, b2, b1, b0),
    }
}

/// Reading back the encoding of a 16-bit value gives the value.
pub proof fn lemma_enc16_comb(e: Endian, v: u16)
    ensures
        enc16(e, v).len() == 2,
        comb16(e, enc16(e, v)[0], enc16(e, v)[1]) == v,
{
    let lo = (v & 0xff) as u8;
    let hi = ((v >> 8) & 0xff) as u8;
    assert(le16(lo, hi) == v) by (bit_vector)
        requires
            lo == (v & 0xff) as u8,
            hi == ((v >> 8) & 0xff) as u8,
    ;
}

/// Encoding the value read from two bytes gives the bytes back.
pub proof fn lemma_comb16_enc(e: Endian, b0: u8, b1: u8)
    ensures
        enc16(e, comb16(e, b0, b1)) =~= seq![b0, b1],
{
    let v = comb16(e, b0, b1);
    match e {
        Endian::Little => {
            assert((v & 0xff) as u8 == b0 && ((v >> 8) & 0xff) as u8 == b1) by (bit_vector)
                requires
                    v == (b0 as u16) | (b1 as u16) << 8,
            ;
        },
        Endian::Big => {
            assert((v & 0xff) as u8 == b1 && ((v >> 8) & 0xff) as u8 == b0) by (bit_vector)
                requires
                    v == (b1 as u16) | (b0 as u16) << 8,
            ;
        },
    }
}

/// Reading back the encoding of a 32-bit value gives the value.
pub proof fn lemma_enc32_comb(e: Endian, v: u32)
    ensures
        enc32(e, v).len() == 4,
        comb32(e, enc32(e, v)[0], enc32(e, v)[1], enc32(e, v)[2], enc32(e, v)[3]) == v,
{
    let b0 = (v & 0xff) as u8;
    let b1 = ((v >> 8) & 0xff) as u8;
    let b2 = ((v >> 16) & 0xff) as u8;
    let b3 = ((v >> 24) & 0xff) as u8;
    assert(le32(b0, b1, b2, b3) == v) by (bit_vector)
        requires
            b0 == (v & 0xff) as u8,
            b1 == ((v >> 8) & 0xff) as u8,
            b2 == ((v >> 16) & 0xff) as u8,
            b3 == ((v >> 24) & 0xff) as u8,
    ;
}

/// Encoding the value read from four bytes gives the bytes back.
pub proof fn lemma_comb32_enc(e: Endian, b0: u8, b1: u8, b2: u8, b3: u8)
    ensures
        enc32(e, comb32(e, b0, b1, b2, b3)) =~= seq![b0, b1, b2, b3],
{
    let v = comb32(e, b0, b1, b2, b3);
    match e {
        Endian::Little => {
            assert((v & 0xff) as u8 == b0 && ((v >> 8) & 0xff) as u8 == b1 && ((v >> 16)
                & 0xff) as u8 == b2 && ((v >> 24) & 0xff) as u8 == b3) by (bit_vector)
                requires
                    v == (b0 as u32) | (b1 as u32) << 8 | (b2 as u32) << 16 | (b3 as u32) << 24,
            ;
        },
        Endian::Big => {
            assert((v & 0xff) as u8 == b3 && ((v >> 8) & 0xff) as u8 == b2 && ((v >> 16)
                & 0xff) as u8 == b1 && ((v >> 24) & 0xff) as u8 == b0) by (bit_vector)
                requires
                    v == (b3 as u32) | (b2 as u32) << 8 | (b1 as u32) << 16 | (b0 as u32) << 24,
            ;
        },
    }
}

/// Reading back the encoding of a 64-bit value gives the value.
pub proof fn lemma_enc64_comb(e: Endian, v: u64)
    ensures
        enc64(e, v).len() == 8,
        comb64(
            e,
            enc64(e, v)[0],
            enc64(e, v)[1],
            enc64(e, v)[2],
            enc64(e, v)[3],
            enc64(e, v)[4],
            enc64(e, v)[5],
            enc64(e, v)[6],
            enc64(e, v)[7],
        ) == v,
{
    let b0 = (v & 0xff) as u8;
    let b1 = ((v >> 8) & 0xff) as u8;
    let b2 = ((v >> 16) & 0xff) as u8;
    let b3 = ((v >> 24) & 0xff) as u8;
    let b4 = ((v >> 32) & 0xff) as u8;
    let b5 = ((v >> 40) & 0xff) as u8;
    let b6 = ((v >> 48) & 0xff) as u8;
    let b7 = ((v >> 56) & 0xff) as u8;
    assert(le64(b0, b1, b2, b3, b4, b5, b6, b7) == v) by (bit_vector)
        requires
            b0 == (v & 0xff) as u8,
            b1 == ((v >> 8) & 0xff) as u8,
            b2 == ((v >> 16) & 0xff) as u8,
            b3 == ((v >> 24) & 0xff) as u8,
            b4 == ((v >> 32) & 0xff) as u8,
            b5 == ((v >> 40) & 0xff) as u8,
            b6 == ((v >> 48) & 0xff) as u8,
            b7 == ((v >> 56) & 0xff) as u8,
    ;
}

/// Encoding the value read from eight bytes gives the bytes back.
pub proof fn lemma_comb64_enc(e: Endian, b0: u8, b1: u8, b2: u8, b3: u8, b4: u8, b5: u8, b6: u8, b7: u8)
    ensures
        enc64(e, comb64(e, b0, b1, b2, b3, b4, b5, b6, b7)) =~= seq![b0, b1, b2, b3, b4, b5, b6, b7],
{
    let v = comb64(e, b0, b1, b2, b3, b4, b5, b6, b7);
    match e {
        Endian::Little => {
            assert((v & 0xff) as u8 == b0 && ((v >> 8) & 0xff) as u8 == b1 && ((v >> 16)
                & 0xff) as u8 == b2 && ((v >> 24) & 0xff) as u8 == b3 && ((v >> 32) & 0xff) as u8
                == b4 && ((v >> 40) & 0xff) as u8 == b5 && ((v >> 48) & 0xff) as u8 == b6 && ((v
                >> 56) & 0xff) as u8 == b7) by (bit_vector)
                requires
                    v == (b0 as u64) | (b1 as u64) << 8 | (b2 as u64) << 16 | (b3 as u64) << 24 | (
                    b4 as u64) << 32 | (b5 as u64) << 40 | (b6 as u64) << 48 | (b7 as u64) << 56,
            ;
        },
        Endian::Big => {
            assert((v & 0xff) as u8 == b7 && ((v >> 8) & 0xff) as u8 == b6 && ((v >> 16)
                & 0xff) as u8 == b5 && ((v >> 24) & 0xff) as u8 == b4 && ((v >> 32) & 0xff) as u8
                == b3 && ((v >> 40) & 0xff) as u8 == b2 && ((v >> 48) & 0xff) as u8 == b1 && ((v
                >> 56) & 0xff) as u8 == b0) by (bit_vector)
                requires
                    v == (b7 as u64) | (b6 as u64) << 8 | (b5 as u64) << 16 | (b4 as u64) << 24 | (
                    b3 as u64) << 32 | (b2 as u64) << 40 | (b1 as u64) << 48 | (b0 as u64) << 56,
            ;
        },
    }
}

// ---------------------------------------------------------------------
// Signed scalars: two's-complement reinterpretation of the unsigned value
// ---------------------------------------------------------------------
/// The signed value whose two's-complement bit pattern is `u`.
pub open spec fn as_i8(u: u8) -> i8 {
    if u < 0x80 {
        u as i8
    } else {
        (u - 0x100) as i8
    }
}

/// The bit pattern of a signed 8-bit value.
pub open spec fn from_i8(v: i8) -> u8 {
    if v >= 0 {
        v as u8
    } else {
        (v + 0x100) as u8
    }
}

/// The signed value whose two's-complement bit pattern is `u`.
pub open spec fn as_i16(u: u16) -> i16 {
    if u < 0x8000 {
        u as i16
    } else {
        (u - 0x10000) as i16
    }
}

/// The bit pattern of a signed 16-bit value.
pub open spec fn from_i16(v: i16) -> u16 {
    if v >= 0 {
        v as u16
    } else {
        (v + 0x10000) as u16
    }
}

/// The signed value whose two's-complement bit pattern is `u`.
pub open spec fn as_i32(u: u32) -> i32 {
    if u < 0x8000_0000 {
        u as i32
    } else {
        (u - 0x1_0000_0000) as i32
    }
}

/// The bit pattern of a signed 32-bit value.
pub open spec fn from_i32(v: i32) -> u32 {
    if v >= 0 {
        v as u32
    } else {
        (v + 0x1_0000_0000) as u32
    }
}

/// The signed value whose two's-complement bit pattern is `u`.
pub open spec fn as_i64(u: u64) -> i64 {
    if u < 0x8000_0000_0000_0000 {
        u as i64
    } else {
        (u - 0x1_0000_0000_0000_0000) as i64
    }
}

/// The bit pattern of a signed 64-bit value.
pub open spec fn from_i64(v: i64) -> u64 {
    if v >= 0 {
        v as u64
    } else {
        (v + 0x1_0000_0000_0000_0000) as u64
    }
}

/// The signed reinterpretations are inverse to each other.
pub proof fn lemma_signed_round_trip()
    ensures
        forall|v: i8| #[trigger] as_i8(from_i8(v)) == v,
        forall|u: u8| #[trigger] from_i8(as_i8(u)) == u,
        forall|v: i16| #[trigger] as_i16(from_i16(v)) == v,
        forall|u: u16| #[trigger] from_i16(as_i16(u)) == u,
        forall|v: i32| #[trigger] as_i32(from_i32(v)) == v,
        forall|u: u32| #[trigger] from_i32(as_i32(u)) == u,
        forall|v: i64| #[trigger] as_i64(from_i64(v)) == v,
        forall|u: u64| #[trigger] from_i64(as_i64(u)) == u,
{
}

} // verus!

verus! {

// ---------------------------------------------------------------------
// Ghost values and field descriptors
// ---------------------------------------------------------------------
/// The mathematical value of one record field.  Only wire layouts are
/// distinguished here: every one-byte scalar is a `U1`, signed scalars and
/// bit patterns are carried as their unsigned wire value, and both string
/// and byte arrays are a `Cn`.
pub enum Val {
    U1(u8),
    U2(u16),
    U4(u32),
    U8(u64),
    Cn(Seq<u8>),
    Dn(u16, Seq<u8>),
    ArrU1(Seq<u8>),
    ArrU2(Seq<u16>),
    ArrN1(Seq<u8>),
    ArrU4(Seq<u32>),
    ArrCn(Seq<Seq<u8>>),
    ArrVn(Seq<VnV>),
}

/// The element kind of a count-bound array field.
pub enum Elem {
    EU1,
    EU2,
    EN1,
    EU4,
    ECn,
    EVn,
}

/// The wire kind of one field.  An array names the position of the earlier
/// field that holds its element count.
pub enum FieldKind {
    KU1,
    KU2,
    KU4,
    KU8,
    KCn,
    KDn,
    KArr(Elem, int),
}

/// The default of an optional field: the value it takes when the payload
/// ends before the field begins.
pub enum Dflt {
    DU1(u8),
    DU2(u16),
    DU4(u32),
    DU8(u64),
    DCn,
    DDn,
}

/// One field of a record variant: its wire kind and its default, if any.
pub struct FieldDef {
    pub kind: FieldKind,
    pub dflt: Option<Dflt>,
}

/// Shorthand for building descriptor entries.
pub open spec fn fd(kind: FieldKind, dflt: Option<Dflt>) -> FieldDef {
    FieldDef { kind, dflt }
}

/// The value an absent optional field takes.
pub open spec fn dflt_val(d: Dflt) -> Val {
    match d {
        Dflt::DU1(x) => Val::U1(x),
        Dflt::DU2(x) => Val::U2(x),
        Dflt::DU4(x) => Val::U4(x),
        Dflt::DU8(x) => Val::U8(x),
        Dflt::DCn => Val::Cn(seq![]),
        Dflt::DDn => Val::Dn(0, seq![]),
    }
}

// ---------------------------------------------------------------------
// Accessors over ghost values
// ---------------------------------------------------------------------
pub open spec fn g_u1(v: Val) -> u8 {
    match v {
        Val::U1(x) => x,
        _ => 0,
    }
}

pub open spec fn g_u2(v: Val) -> u16 {
    match v {
        Val::U2(x) => x,
        _ => 0,
    }
}

pub open spec fn g_u4(v: Val) -> u32 {
    match v {
        Val::U4(x) => x,
        _ => 0,
    }
}

pub open spec fn g_u8(v: Val) -> u64 {
    match v {
        Val::U8(x) => x,
        _ => 0,
    }
}

pub open spec fn g_cn(v: Val) -> Seq<u8> {
    match v {
        Val::Cn(x) => x,
        _ => seq![],
    }
}

pub open spec fn g_dn(v: Val) -> (u16, Seq<u8>) {
    match v {
        Val::Dn(d, x) => (d, x),
        _ => (0, seq![]),
    }
}

pub open spec fn g_arr_u1(v: Val) -> Seq<u8> {
    match v {
        Val::ArrU1(x) => x,
        _ => seq![],
    }
}

pub open spec fn g_arr_u2(v: Val) -> Seq<u16> {
    match v {
        Val::ArrU2(x) => x,
        _ => seq![],
    }
}

pub open spec fn g_arr_n1(v: Val) -> Seq<u8> {
    match v {
        Val::ArrN1(x) => x,
        _ => seq![],
    }
}

pub open spec fn g_arr_u4(v: Val) -> Seq<u32> {
    match v {
        Val::ArrU4(x) => x,
        _ => seq![],
    }
}

pub open spec fn g_arr_cn(v: Val) -> Seq<Seq<u8>> {
    match v {
        Val::ArrCn(x) => x,
        _ => seq![],
    }
}

pub open spec fn g_arr_vn(v: Val) -> Seq<VnV> {
    match v {
        Val::ArrVn(x) => x,
        _ => seq![],
    }
}

/// The element count an array field takes from a count field; a value that
/// cannot hold a count yields -1.
pub open spec fn count_of(v: Val) -> int {
    match v {
        Val::U1(x) => x as int,
        Val::U2(x) => x as int,
        _ => -1,
    }
}

/// The number of elements an array value holds; -1 for non-arrays.
pub open spec fn arr_len_of(v: Val) -> int {
    match v {
        Val::ArrU1(x) => x.len() as int,
        Val::ArrU2(x) => x.len() as int,
        Val::ArrN1(x) => x.len() as int,
        Val::ArrU4(x) => x.len() as int,
        Val::ArrCn(x) => x.len() as int,
        Val::ArrVn(x) => x.len() as int,
        _ => -1,
    }
}

// ---------------------------------------------------------------------
// Well-formedness: what every encodable (and every decoded) value obeys
// ---------------------------------------------------------------------
/// Well-formedness of a generic-data value: variable-length payloads carry
/// their own length bound.
pub open spec fn vnv_wf(v: VnV) -> bool {
    match v {
        VnV::Cn(s) => s.len() <= 255,
        VnV::Bn(s) => s.len() <= 255,
        VnV::Dn(d, data) => data.len() == (d as int + 7) / 8,
        _ => true,
    }
}

/// Well-formedness of a field value: string lengths fit their length byte,
/// a bit field carries exactly one byte per eight bits begun, and nibbles
/// fit four bits.
pub open spec fn val_wf(v: Val) -> bool {
    match v {
        Val::Cn(s) => s.len() <= 255,
        Val::Dn(d, data) => data.len() == (d as int + 7) / 8,
        Val::ArrN1(s) => forall|i: int| 0 <= i < s.len() ==> s[i] < 16,
        Val::ArrCn(ss) => forall|i: int| 0 <= i < ss.len() ==> #[trigger] ss[i].len() <= 255,
        Val::ArrVn(ws) => forall|i: int| 0 <= i < ws.len() ==> #[trigger] vnv_wf(ws[i]),
        _ => true,
    }
}

/// Whether a value has the layout that an array of the given element kind
/// requires.
pub open spec fn elem_fits(el: Elem, v: Val) -> bool {
    match el {
        Elem::EU1 => v is ArrU1,
        Elem::EU2 => v is ArrU2,
        Elem::EN1 => v is ArrN1,
        Elem::EU4 => v is ArrU4,
        Elem::ECn => v is ArrCn,
        Elem::EVn => v is ArrVn,
    }
}

/// Whether a value has the layout of a field kind.
pub open spec fn kind_fits(k: FieldKind, v: Val) -> bool {
    match k {
        FieldKind::KU1 => v is U1,
        FieldKind::KU2 => v is U2,
        FieldKind::KU4 => v is U4,
        FieldKind::KU8 => v is U8,
        FieldKind::KCn => v is Cn,
        FieldKind::KDn => v is Dn,
        FieldKind::KArr(el, _) => elem_fits(el, v),
    }
}

/// One field value conforms to its descriptor entry: right layout,
/// well-formed, and an array has exactly as many elements as its count
/// field says, unless the payload ended before it and left it empty.
pub open spec fn val_matches_at(fs: Seq<FieldDef>, vs: Seq<Val>, i: int) -> bool {
    kind_fits(fs[i].kind, vs[i]) && val_wf(vs[i]) && match fs[i].kind {
        FieldKind::KArr(_, j) => 0 <= j < i && count_of(vs[j]) >= 0 && (arr_len_of(vs[i])
            == count_of(vs[j]) || arr_len_of(vs[i]) == 0),
        _ => true,
    }
}

/// A whole value sequence conforms to a record descriptor.
pub open spec fn vals_match(fs: Seq<FieldDef>, vs: Seq<Val>) -> bool {
    vs.len() == fs.len() && forall|i: int| 0 <= i < fs.len() ==> #[trigger] val_matches_at(fs, vs, i)
}

/// Every array holds exactly as many elements as its count field says:
/// what a record needs beyond conformance before its encoding can frame
/// each array by its count.
pub open spec fn counts_strict(fs: Seq<FieldDef>, vs: Seq<Val>) -> bool {
    forall|i: int|
        0 <= i < fs.len() ==> match #[trigger] fs[i].kind {
            FieldKind::KArr(_, j) => arr_len_of(vs[i]) == count_of(vs[j]),
            _ => true,
        }
}

/// Every array among the first `p` fields holds exactly as many elements
/// as its count field says: arrays that stood on the wire were framed by
/// their counts, whatever an absent tail holds.
pub open spec fn counts_strict_upto(fs: Seq<FieldDef>, vs: Seq<Val>, p: int) -> bool {
    forall|i: int|
        0 <= i < p && i < fs.len() ==> match #[trigger] fs[i].kind {
            FieldKind::KArr(_, j) => arr_len_of(vs[i]) == count_of(vs[j]),
            _ => true,
        }
}

/// Whether a field can stand off the wire: a scalar holding its declared
/// default, or an empty array.
pub open spec fn suppressible(f: FieldDef, v: Val) -> bool {
    match f.kind {
        FieldKind::KArr(_, _) => arr_len_of(v) == 0,
        _ => match f.dflt {
            Some(d) => v == dflt_val(d),
            None => false,
        },
    }
}

} // verus!

verus! {

// ---------------------------------------------------------------------
// The specification-level decoder
// ---------------------------------------------------------------------
/// Reads one byte.
pub open spec fn sread_u1(s: Seq<u8>, off: int) -> Option<(u8, int)> {
    if 0 <= off && off + 1 <= s.len() {
        Some((s[off], off + 1))
    } else {
        None
    }
}

/// Reads a 16-bit scalar in wire order.
pub open spec fn sread_u2(s: Seq<u8>, e: Endian, off: int) -> Option<(u16, int)> {
    if 0 <= off && off + 2 <= s.len() {
        Some((comb16(e, s[off], s[off + 1]), off + 2))
    } else {
        None
    }
}

/// Reads a 32-bit scalar in wire order.
pub open spec fn sread_u4(s: Seq<u8>, e: Endian, off: int) -> Option<(u32, int)> {
    if 0 <= off && off + 4 <= s.len() {
        Some((comb32(e, s[off], s[off + 1], s[off + 2], s[off + 3]), off + 4))
    } else {
        None
    }
}

/// Reads a 64-bit scalar in wire order.
pub open spec fn sread_u8w(s: Seq<u8>, e: Endian, off: int) -> Option<(u64, int)> {
    if 0 <= off && off + 8 <= s.len() {
        Some(
            (
                comb64(
                    e,
                    s[off],
                    s[off + 1],
                    s[off + 2],
                    s[off + 3],
                    s[off + 4],
                    s[off + 5],
                    s[off + 6],
                    s[off + 7],
                ),
                off + 8,
            ),
        )
    } else {
        None
    }
}

/// Reads a length-prefixed string or byte array: one length byte, then that
/// many payload bytes.
pub open spec fn sread_cn(s: Seq<u8>, off: int) -> Option<(Seq<u8>, int)> {
    if 0 <= off && off + 1 <= s.len() {
        let n = s[off] as int;
        if off + 1 + n <= s.len() {
            Some((s.subrange(off + 1, off + 1 + n), off + 1 + n))
        } else {
            None
        }
    } else {
        None
    }
}

/// Reads a bit field: a 16-bit bit count, then one byte per eight bits
/// begun.
pub open spec fn sread_dn(s: Seq<u8>, e: Endian, off: int) -> Option<((u16, Seq<u8>), int)> {
    match sread_u2(s, e, off) {
        None => None,
        Some((d, o2)) => {
            let bl = (d as int + 7) / 8;
            if o2 + bl <= s.len() {
                Some(((d, s.subrange(o2, o2 + bl)), o2 + bl))
            } else {
                None
            }
        },
    }
}

/// Reads a generic-data value: a one-byte type tag, then the payload of
/// that tag.  An unknown tag fails.
pub open spec fn sread_vn(s: Seq<u8>, e: Endian, off: int) -> Option<(VnV, int)> {
    match sread_u1(s, off) {
        None => None,
        Some((tag, o2)) => match tag {
            0u8 => Some((VnV::B0, o2)),
            1u8 => match sread_u1(s, o2) {
                None => None,
                Some((x, o3)) => Some((VnV::U1(x), o3)),
            },
            2u8 => match sread_u2(s, e, o2) {
                None => None,
                Some((x, o3)) => Some((VnV::U2(x), o3)),
            },
            3u8 => match sread_u4(s, e, o2) {
                None => None,
                Some((x, o3)) => Some((VnV::U4(x), o3)),
            },
            4u8 => match sread_u1(s, o2) {
                None => None,
                Some((x, o3)) => Some((VnV::I1(as_i8(x)), o3)),
            },
            5u8 => match sread_u2(s, e, o2) {
                None => None,
                Some((x, o3)) => Some((VnV::I2(as_i16(x)), o3)),
            },
            6u8 => match sread_u4(s, e, o2) {
                None => None,
                Some((x, o3)) => Some((VnV::I4(as_i32(x)), o3)),
            },
            7u8 => match sread_u4(s, e, o2) {
                None => None,
                Some((x, o3)) => Some((VnV::R4(x), o3)),
            },
            8u8 => match sread_u8w(s, e, o2) {
                None => None,
                Some((x, o3)) => Some((VnV::R8(x), o3)),
            },
            10u8 => match sread_cn(s, o2) {
                None => None,
                Some((x, o3)) => Some((VnV::Cn(x), o3)),
            },
            11u8 => match sread_cn(s, o2) {
                None => None,
                Some((x, o3)) => Some((VnV::Bn(x), o3)),
            },
            12u8 => match sread_dn(s, e, o2) {
                None => None,
                Some(((d, x), o3)) => Some((VnV::Dn(d, x), o3)),
            },
            13u8 => match sread_u1(s, o2) {
                None => None,
                Some((x, o3)) => Some((VnV::N1(x), o3)),
            },
            _ => None,
        },
    }
}

/// The nibble at position `i` of a nibble-packed array starting at `off`:
/// two nibbles per byte, low nibble first.
pub open spec fn nib_at(s: Seq<u8>, off: int, i: int) -> u8 {
    if i % 2 == 0 {
        s[off + i / 2] & 0xf
    } else {
        s[off + i / 2] >> 4
    }
}

/// Reads a nibble-packed array of `k` nibbles: one byte per two nibbles
/// begun; the high nibble of an odd tail byte is discarded.
pub open spec fn sread_arr_n1(s: Seq<u8>, k: int, off: int) -> Option<(Seq<u8>, int)> {
    let bl = (k + 1) / 2;
    if 0 <= off && k >= 0 && off + bl <= s.len() {
        Some((Seq::new(k as nat, |i: int| nib_at(s, off, i)), off + bl))
    } else {
        None
    }
}

/// Reads `k` contiguous bytes.
pub open spec fn sread_arr_u1(s: Seq<u8>, k: int, off: int) -> Option<(Seq<u8>, int)> {
    if 0 <= off && k >= 0 && off + k <= s.len() {
        Some((s.subrange(off, off + k), off + k))
    } else {
        None
    }
}

/// Reads `k` 16-bit scalars.
pub open spec fn sread_arr_u2(s: Seq<u8>, e: Endian, k: int, off: int) -> Option<(Seq<u16>, int)>
    decreases k,
{
    if k <= 0 {
        Some((seq![], off))
    } else {
        match sread_u2(s, e, off) {
            None => None,
            Some((v, o2)) => match sread_arr_u2(s, e, k - 1, o2) {
                None => None,
                Some((rest, o3)) => Some((seq![v] + rest, o3)),
            },
        }
    }
}

/// Reads `k` 32-bit scalars.
pub open spec fn sread_arr_u4(s: Seq<u8>, e: Endian, k: int, off: int) -> Option<(Seq<u32>, int)>
    decreases k,
{
    if k <= 0 {
        Some((seq![], off))
    } else {
        match sread_u4(s, e, off) {
            None => None,
            Some((v, o2)) => match sread_arr_u4(s, e, k - 1, o2) {
                None => None,
                Some((rest, o3)) => Some((seq![v] + rest, o3)),
            },
        }
    }
}

/// Reads `k` length-prefixed strings.
pub open spec fn sread_arr_cn(s: Seq<u8>, k: int, off: int) -> Option<(Seq<Seq<u8>>, int)>
    decreases k,
{
    if k <= 0 {
        Some((seq![], off))
    } else {
        match sread_cn(s, off) {
            None => None,
            Some((v, o2)) => match sread_arr_cn(s, k - 1, o2) {
                None => None,
                Some((rest, o3)) => Some((seq![v] + rest, o3)),
            },
        }
    }
}

/// Reads `k` generic-data values.
pub open spec fn sread_arr_vn(s: Seq<u8>, e: Endian, k: int, off: int) -> Option<(Seq<VnV>, int)>
    decreases k,
{
    if k <= 0 {
        Some((seq![], off))
    } else {
        match sread_vn(s, e, off) {
            None => None,
            Some((v, o2)) => match sread_arr_vn(s, e, k - 1, o2) {
                None => None,
                Some((rest, o3)) => Some((seq![v] + rest, o3)),
            },
        }
    }
}

/// Reads an array field of `k` elements.
pub open spec fn sread_elems(s: Seq<u8>, e: Endian, el: Elem, k: int, off: int) -> Option<
    (Val, int),
> {
    match el {
        Elem::EU1 => match sread_arr_u1(s, k, off) {
            None => None,
            Some((v, o2)) => Some((Val::ArrU1(v), o2)),
        },
        Elem::EU2 => match sread_arr_u2(s, e, k, off) {
            None => None,
            Some((v, o2)) => Some((Val::ArrU2(v), o2)),
        },
        Elem::EN1 => match sread_arr_n1(s, k, off) {
            None => None,
            Some((v, o2)) => Some((Val::ArrN1(v), o2)),
        },
        Elem::EU4 => match sread_arr_u4(s, e, k, off) {
            None => None,
            Some((v, o2)) => Some((Val::ArrU4(v), o2)),
        },
        Elem::ECn => match sread_arr_cn(s, k, off) {
            None => None,
            Some((v, o2)) => Some((Val::ArrCn(v), o2)),
        },
        Elem::EVn => match sread_arr_vn(s, e, k, off) {
            None => None,
            Some((v, o2)) => Some((Val::ArrVn(v), o2)),
        },
    }
}

/// Reads a scalar field of the given kind at `off`.
pub open spec fn sread_scalar(s: Seq<u8>, e: Endian, k: FieldKind, off: int) -> Option<
    (Val, int),
> {
    match k {
        FieldKind::KU1 => match sread_u1(s, off) {
            None => None,
            Some((v, o2)) => Some((Val::U1(v), o2)),
        },
        FieldKind::KU2 => match sread_u2(s, e, off) {
            None => None,
            Some((v, o2)) => Some((Val::U2(v), o2)),
        },
        FieldKind::KU4 => match sread_u4(s, e, off) {
            None => None,
            Some((v, o2)) => Some((Val::U4(v), o2)),
        },
        FieldKind::KU8 => match sread_u8w(s, e, off) {
            None => None,
            Some((v, o2)) => Some((Val::U8(v), o2)),
        },
        FieldKind::KCn => match sread_cn(s, off) {
            None => None,
            Some((v, o2)) => Some((Val::Cn(v), o2)),
        },
        FieldKind::KDn => match sread_dn(s, e, off) {
            None => None,
            Some(((d, v), o2)) => Some((Val::Dn(d, v), o2)),
        },
        FieldKind::KArr(_, _) => None,
    }
}

/// The empty array of an element kind: what an array field holds when
/// the payload ends before it begins.
pub open spec fn empty_arr(el: Elem) -> Val {
    match el {
        Elem::EU1 => Val::ArrU1(seq![]),
        Elem::EU2 => Val::ArrU2(seq![]),
        Elem::EN1 => Val::ArrN1(seq![]),
        Elem::EU4 => Val::ArrU4(seq![]),
        Elem::ECn => Val::ArrCn(seq![]),
        Elem::EVn => Val::ArrVn(seq![]),
    }
}

/// Reads an array field: empty if the payload has already ended, else
/// exactly `k` elements.
pub open spec fn sread_arr_field(s: Seq<u8>, e: Endian, el: Elem, k: int, off: int) -> Option<
    (Val, int),
> {
    if off == s.len() {
        Some((empty_arr(el), off))
    } else {
        sread_elems(s, e, el, k, off)
    }
}

/// Reads one field.  An array field whose position has reached the
/// payload end is empty, and otherwise reads exactly as many elements as
/// its count field holds; a scalar field whose position has reached the
/// payload end takes its default, and is malformed if it has none.
pub open spec fn sread_field(s: Seq<u8>, e: Endian, f: FieldDef, acc: Seq<Val>, off: int) -> Option<
    (Val, int),
> {
    match f.kind {
        FieldKind::KArr(el, j) => {
            if 0 <= j < acc.len() && count_of(acc[j]) >= 0 {
                sread_arr_field(s, e, el, count_of(acc[j]), off)
            } else {
                None
            }
        },
        _ => {
            if off == s.len() {
                match f.dflt {
                    Some(d) => if kind_fits(f.kind, dflt_val(d)) {
                        Some((dflt_val(d), off))
                    } else {
                        None
                    },
                    None => None,
                }
            } else {
                sread_scalar(s, e, f.kind, off)
            }
        },
    }
}

/// Decodes fields `i ..` of a record payload, the earlier values being
/// `acc`.  Bytes beyond the last field are permitted and ignored.
pub open spec fn sdecode_from(
    s: Seq<u8>,
    e: Endian,
    fs: Seq<FieldDef>,
    i: int,
    off: int,
    acc: Seq<Val>,
) -> Option<Seq<Val>>
    decreases fs.len() - i,
{
    if i >= fs.len() {
        Some(acc)
    } else {
        match sread_field(s, e, fs[i], acc, off) {
            None => None,
            Some((v, o2)) => sdecode_from(s, e, fs, i + 1, o2, acc.push(v)),
        }
    }
}

/// Decodes a whole record payload against its descriptor.
pub open spec fn sdecode(s: Seq<u8>, e: Endian, fs: Seq<FieldDef>) -> Option<Seq<Val>> {
    sdecode_from(s, e, fs, 0, 0, seq![])
}

// ---------------------------------------------------------------------
// The specification-level encoder
// ---------------------------------------------------------------------
/// Encodes a length-prefixed string: its length byte, then its bytes.
pub open spec fn enc_cn(v: Seq<u8>) -> Seq<u8> {
    seq![v.len() as u8] + v
}

/// Encodes a bit field.  A bit count that asks for more bytes than the
/// value holds is clamped down to eight per byte held.
pub open spec fn enc_dn(e: Endian, d: u16, data: Seq<u8>) -> Seq<u8> {
    let bl = (d as int + 7) / 8;
    if bl > data.len() {
        enc16(e, (8 * data.len()) as u16) + data
    } else {
        enc16(e, d) + data.take(bl)
    }
}

/// Encodes a generic-data value: its type tag, then its payload.
pub open spec fn enc_vnv(e: Endian, v: VnV) -> Seq<u8> {
    match v {
        VnV::B0 => seq![0u8],
        VnV::U1(x) => seq![1u8, x],
        VnV::U2(x) => seq![2u8] + enc16(e, x),
        VnV::U4(x) => seq![3u8] + enc32(e, x),
        VnV::I1(x) => seq![4u8, from_i8(x)],
        VnV::I2(x) => seq![5u8] + enc16(e, from_i16(x)),
        VnV::I4(x) => seq![6u8] + enc32(e, from_i32(x)),
        VnV::R4(x) => seq![7u8] + enc32(e, x),
        VnV::R8(x) => seq![8u8] + enc64(e, x),
        VnV::Cn(x) => seq![10u8] + enc_cn(x),
        VnV::Bn(x) => seq![11u8] + enc_cn(x),
        VnV::Dn(d, x) => seq![12u8] + enc_dn(e, d, x),
        VnV::N1(x) => seq![13u8, x],
    }
}

/// Packs nibbles two per byte, low nibble first; the high nibble of an odd
/// tail byte is left at zero.
pub open spec fn nib_pack(v: Seq<u8>) -> Seq<u8> {
    Seq::new(
        ((v.len() + 1) / 2) as nat,
        |i: int|
            if 2 * i + 1 < v.len() {
                (v[2 * i] & 0xf) | v[2 * i + 1] << 4
            } else {
                v[2 * i] & 0xf
            },
    )
}

/// Encodes `k` 16-bit scalars.
pub open spec fn enc_arr_u2(e: Endian, v: Seq<u16>) -> Seq<u8>
    decreases v.len(),
{
    if v.len() == 0 {
        seq![]
    } else {
        enc16(e, v[0]) + enc_arr_u2(e, v.skip(1))
    }
}

/// Encodes `k` 32-bit scalars.
pub open spec fn enc_arr_u4(e: Endian, v: Seq<u32>) -> Seq<u8>
    decreases v.len(),
{
    if v.len() == 0 {
        seq![]
    } else {
        enc32(e, v[0]) + enc_arr_u4(e, v.skip(1))
    }
}

/// Encodes `k` length-prefixed strings.
pub open spec fn enc_arr_cn(v: Seq<Seq<u8>>) -> Seq<u8>
    decreases v.len(),
{
    if v.len() == 0 {
        seq![]
    } else {
        enc_cn(v[0]) + enc_arr_cn(v.skip(1))
    }
}

/// Encodes `k` generic-data values.
pub open spec fn enc_arr_vn(e: Endian, v: Seq<VnV>) -> Seq<u8>
    decreases v.len(),
{
    if v.len() == 0 {
        seq![]
    } else {
        enc_vnv(e, v[0]) + enc_arr_vn(e, v.skip(1))
    }
}

/// Encodes one field value.
pub open spec fn enc_val(e: Endian, v: Val) -> Seq<u8> {
    match v {
        Val::U1(x) => seq![x],
        Val::U2(x) => enc16(e, x),
        Val::U4(x) => enc32(e, x),
        Val::U8(x) => enc64(e, x),
        Val::Cn(x) => enc_cn(x),
        Val::Dn(d, x) => enc_dn(e, d, x),
        Val::ArrU1(x) => x,
        Val::ArrU2(x) => enc_arr_u2(e, x),
        Val::ArrN1(x) => nib_pack(x),
        Val::ArrU4(x) => enc_arr_u4(e, x),
        Val::ArrCn(x) => enc_arr_cn(x),
        Val::ArrVn(x) => enc_arr_vn(e, x),
    }
}

/// Encodes a whole record payload: every field in declaration order.
pub open spec fn enc_vals(e: Endian, vs: Seq<Val>) -> Seq<u8>
    decreases vs.len(),
{
    if vs.len() == 0 {
        seq![]
    } else {
        enc_val(e, vs[0]) + enc_vals(e, vs.skip(1))
    }
}

} // verus!

verus! {

// ---------------------------------------------------------------------
// Facts about the encoder
// ---------------------------------------------------------------------
/// Appending one value to a payload appends its encoding.
pub proof fn lemma_enc_vals_push(e: Endian, vs: Seq<Val>, v: Val)
    ensures
        enc_vals(e, vs.push(v)) == enc_vals(e, vs) + enc_val(e, v),
    decreases vs.len(),
{
    if vs.len() == 0 {
        let w = vs.push(v);
        assert(w[0] == v);
        assert(w.skip(1) =~= Seq::<Val>::empty());
        assert(enc_vals(e, w.skip(1)) == enc_vals(e, Seq::<Val>::empty()));
        assert(enc_vals(e, Seq::<Val>::empty()) == Seq::<u8>::empty());
        assert(enc_vals(e, w) == enc_val(e, v) + Seq::<u8>::empty());
        assert(enc_val(e, v) + Seq::<u8>::empty() =~= Seq::<u8>::empty() + enc_val(e, v));
        assert(enc_vals(e, vs) == Seq::<u8>::empty());
    } else {
        let w = vs.push(v);
        assert(w[0] == vs[0]);
        assert(w.skip(1) =~= vs.skip(1).push(v));
        lemma_enc_vals_push(e, vs.skip(1), v);
        assert(enc_vals(e, w) == enc_val(e, vs[0]) + (enc_vals(e, vs.skip(1)) + enc_val(e, v)));
        assert(enc_val(e, vs[0]) + (enc_vals(e, vs.skip(1)) + enc_val(e, v)) =~= (enc_val(e, vs[0])
            + enc_vals(e, vs.skip(1))) + enc_val(e, v));
    }
}

/// A payload encoding splits at any field boundary.
pub proof fn lemma_enc_vals_split(e: Endian, vs: Seq<Val>, i: int)
    requires
        0 <= i <= vs.len(),
    ensures
        enc_vals(e, vs) == enc_vals(e, vs.take(i)) + enc_vals(e, vs.skip(i)),
    decreases i,
{
    if i == 0 {
        assert(vs.take(0) =~= Seq::<Val>::empty());
        assert(vs.skip(0) =~= vs);
        assert(enc_vals(e, vs) =~= enc_vals(e, vs.take(0)) + enc_vals(e, vs.skip(0)));
    } else {
        lemma_enc_vals_split(e, vs, i - 1);
        assert(vs.take(i) =~= vs.take(i - 1).push(vs[i - 1]));
        lemma_enc_vals_push(e, vs.take(i - 1), vs[i - 1]);
        assert(vs.skip(i - 1)[0] == vs[i - 1]);
        assert(vs.skip(i - 1).skip(1) =~= vs.skip(i));
        assert(enc_vals(e, vs) =~= enc_vals(e, vs.take(i)) + enc_vals(e, vs.skip(i)));
    }
}

/// The encoding of a 16-bit array is two bytes per element.
pub proof fn lemma_enc_arr_u2_len(e: Endian, v: Seq<u16>)
    ensures
        enc_arr_u2(e, v).len() == 2 * v.len(),
    decreases v.len(),
{
    if v.len() > 0 {
        lemma_enc_arr_u2_len(e, v.skip(1));
    }
}

/// The encoding of a 32-bit array is four bytes per element.
pub proof fn lemma_enc_arr_u4_len(e: Endian, v: Seq<u32>)
    ensures
        enc_arr_u4(e, v).len() == 4 * v.len(),
    decreases v.len(),
{
    if v.len() > 0 {
        lemma_enc_arr_u4_len(e, v.skip(1));
    }
}

/// The encoding of a well-formed scalar field is never empty, and a
/// well-formed bit field encodes as its count then all its bytes.
pub proof fn lemma_enc_val_scalar(e: Endian, v: Val)
    ensures
        !(v is ArrU1 || v is ArrU2 || v is ArrN1 || v is ArrU4 || v is ArrCn || v is ArrVn)
            ==> enc_val(e, v).len() >= 1,
        v is Dn && val_wf(v) ==> enc_val(e, v) == enc16(e, g_dn(v).0) + g_dn(v).1,
{
    match v {
        Val::Dn(d, data) => {
            if val_wf(v) {
                assert(data.take((d as int + 7) / 8) =~= data);
            }
        },
        _ => {},
    }
}

// ---------------------------------------------------------------------
// Reading back an encoding
// ---------------------------------------------------------------------
/// A subrange equal to a concatenation splits into subranges equal to the
/// parts.
pub proof fn lemma_subrange_split(s: Seq<u8>, off: int, a: Seq<u8>, b: Seq<u8>)
    requires
        0 <= off,
        off + a.len() + b.len() <= s.len(),
        s.subrange(off, off + a.len() + b.len()) == a + b,
    ensures
        s.subrange(off, off + a.len()) =~= a,
        s.subrange(off + a.len(), off + a.len() + b.len()) =~= b,
{
    assert forall|i: int| 0 <= i < a.len() implies s.subrange(off, off + a.len())[i] == a[i] by {
        assert((a + b)[i] == s.subrange(off, off + a.len() + b.len())[i]);
    }
    assert forall|i: int| 0 <= i < b.len() implies s.subrange(
        off + a.len(),
        off + a.len() + b.len(),
    )[i] == b[i] by {
        assert((a + b)[a.len() + i] == s.subrange(off, off + a.len() + b.len())[a.len() + i]);
        assert(s.subrange(off, off + a.len() + b.len())[a.len() + i] == s[off + a.len() + i]);
        assert(s.subrange(off + a.len(), off + a.len() + b.len())[i] == s[off + a.len() + i]);
    }
}

/// Reads back a 16-bit scalar from its encoding inside a larger buffer.
pub proof fn lemma_sread_u2_at(s: Seq<u8>, e: Endian, off: int, v: u16)
    requires
        0 <= off,
        off + 2 <= s.len(),
        s.subrange(off, off + 2) == enc16(e, v),
    ensures
        sread_u2(s, e, off) == Some((v, off + 2)),
{
    lemma_enc16_comb(e, v);
    assert(s[off] == enc16(e, v)[0]);
    assert(s[off + 1] == enc16(e, v)[1]);
}

/// Reads back a 32-bit scalar from its encoding inside a larger buffer.
pub proof fn lemma_sread_u4_at(s: Seq<u8>, e: Endian, off: int, v: u32)
    requires
        0 <= off,
        off + 4 <= s.len(),
        s.subrange(off, off + 4) == enc32(e, v),
    ensures
        sread_u4(s, e, off) == Some((v, off + 4)),
{
    lemma_enc32_comb(e, v);
    assert forall|i: int| 0 <= i < 4 implies s[off + i] == enc32(e, v)[i] by {
        assert(s.subrange(off, off + 4)[i] == s[off + i]);
    }
}

/// Reads back a 64-bit scalar from its encoding inside a larger buffer.
pub proof fn lemma_sread_u8w_at(s: Seq<u8>, e: Endian, off: int, v: u64)
    requires
        0 <= off,
        off + 8 <= s.len(),
        s.subrange(off, off + 8) == enc64(e, v),
    ensures
        sread_u8w(s, e, off) == Some((v, off + 8)),
{
    lemma_enc64_comb(e, v);
    assert forall|i: int| 0 <= i < 8 implies s[off + i] == enc64(e, v)[i] by {
        assert(s.subrange(off, off + 8)[i] == s[off + i]);
    }
}

/// Reads back a length-prefixed string from its encoding.
pub proof fn lemma_sread_cn_at(s: Seq<u8>, off: int, v: Seq<u8>)
    requires
        0 <= off,
        v.len() <= 255,
        off + 1 + v.len() <= s.len(),
        s.subrange(off, off + 1 + v.len()) == enc_cn(v),
    ensures
        sread_cn(s, off) == Some((v, off + 1 + v.len())),
{
    assert(s[off] == enc_cn(v)[0]);
    assert(s[off] == v.len() as u8);
    assert forall|i: int| 0 <= i < v.len() implies s[off + 1 + i] == v[i] by {
        assert(s.subrange(off, off + 1 + v.len())[1 + i] == s[off + 1 + i]);
        assert(enc_cn(v)[1 + i] == v[i]);
    }
    assert(s.subrange(off + 1, off + 1 + v.len()) =~= v);
}

/// Reads back a well-formed bit field from its encoding.
pub proof fn lemma_sread_dn_at(s: Seq<u8>, e: Endian, off: int, d: u16, data: Seq<u8>)
    requires
        0 <= off,
        data.len() == (d as int + 7) / 8,
        off + 2 + data.len() <= s.len(),
        s.subrange(off, off + 2 + data.len()) == enc_dn(e, d, data),
    ensures
        sread_dn(s, e, off) == Some(((d, data), off + 2 + data.len())),
{
    lemma_enc_val_scalar(e, Val::Dn(d, data));
    lemma_subrange_split(s, off, enc16(e, d), data);
    lemma_sread_u2_at(s, e, off, d);
}

/// Reads back a well-formed generic-data value from its encoding.
pub proof fn lemma_sread_vn_at(s: Seq<u8>, e: Endian, off: int, v: VnV)
    requires
        0 <= off,
        vnv_wf(v),
        off + enc_vnv(e, v).len() <= s.len(),
        s.subrange(off, off + enc_vnv(e, v).len()) == enc_vnv(e, v),
    ensures
        sread_vn(s, e, off) == Some((v, off + enc_vnv(e, v).len())),
{
    let ev = enc_vnv(e, v);
    assert(s[off] == ev[0]);
    lemma_signed_round_trip();
    match v {
        VnV::B0 => {},
        VnV::U1(x) => {
            assert(s[off + 1] == ev[1]);
        },
        VnV::U2(x) => {
            lemma_subrange_split(s, off, seq![2u8], enc16(e, x));
            lemma_sread_u2_at(s, e, off + 1, x);
        },
        VnV::U4(x) => {
            lemma_subrange_split(s, off, seq![3u8], enc32(e, x));
            lemma_sread_u4_at(s, e, off + 1, x);
        },
        VnV::I1(x) => {
            assert(s[off + 1] == ev[1]);
        },
        VnV::I2(x) => {
            lemma_subrange_split(s, off, seq![5u8], enc16(e, from_i16(x)));
            lemma_sread_u2_at(s, e, off + 1, from_i16(x));
        },
        VnV::I4(x) => {
            lemma_subrange_split(s, off, seq![6u8], enc32(e, from_i32(x)));
            lemma_sread_u4_at(s, e, off + 1, from_i32(x));
        },
        VnV::R4(x) => {
            lemma_subrange_split(s, off, seq![7u8], enc32(e, x));
            lemma_sread_u4_at(s, e, off + 1, x);
        },
        VnV::R8(x) => {
            lemma_subrange_split(s, off, seq![8u8], enc64(e, x));
            lemma_sread_u8w_at(s, e, off + 1, x);
        },
        VnV::Cn(x) => {
            lemma_subrange_split(s, off, seq![10u8], enc_cn(x));
            lemma_sread_cn_at(s, off + 1, x);
        },
        VnV::Bn(x) => {
            lemma_subrange_split(s, off, seq![11u8], enc_cn(x));
            lemma_sread_cn_at(s, off + 1, x);
        },
        VnV::Dn(d, x) => {
            lemma_subrange_split(s, off, seq![12u8], enc_dn(e, d, x));
            lemma_sread_dn_at(s, e, off + 1, d, x);
        },
        VnV::N1(x) => {
            assert(s[off + 1] == ev[1]);
        },
    }
}

/// Reads back a nibble-packed array from its encoding.
pub proof fn lemma_sread_arr_n1_at(s: Seq<u8>, off: int, v: Seq<u8>)
    requires
        0 <= off,
        forall|i: int| 0 <= i < v.len() ==> v[i] < 16,
        off + (v.len() + 1) / 2 <= s.len(),
        s.subrange(off, off + ((v.len() + 1) / 2) as int) == nib_pack(v),
    ensures
        sread_arr_n1(s, v.len() as int, off) == Some((v, off + (v.len() + 1) / 2)),
{
    let k = v.len() as int;
    let bl = (k + 1) / 2;
    assert forall|i: int| 0 <= i < k implies nib_at(s, off, i) == v[i] by {
        let byte = s[off + i / 2];
        assert(byte == s.subrange(off, off + bl)[i / 2]);
        assert(byte == nib_pack(v)[i / 2]);
        if i % 2 == 0 {
            if 2 * (i / 2) + 1 < v.len() {
                let a = v[i];
                let b = v[i + 1];
                assert(((a & 0xf) | b << 4) & 0xf == a) by (bit_vector)
                    requires
                        a < 16,
                ;
            } else {
                let a = v[i];
                assert((a & 0xf) & 0xf == a) by (bit_vector)
                    requires
                        a < 16,
                ;
            }
        } else {
            let a = v[i - 1];
            let b = v[i];
            assert(((a & 0xf) | b << 4) >> 4 == b) by (bit_vector)
                requires
                    b < 16,
            ;
        }
    }
    assert(Seq::new(k as nat, |i: int| nib_at(s, off, i)) =~= v);
}

/// Reads back a 16-bit array from its encoding.
pub proof fn lemma_sread_arr_u2_at(s: Seq<u8>, e: Endian, off: int, v: Seq<u16>)
    requires
        0 <= off,
        off + 2 * v.len() <= s.len(),
        s.subrange(off, off + 2 * v.len()) == enc_arr_u2(e, v),
    ensures
        sread_arr_u2(s, e, v.len() as int, off) == Some((v, off + 2 * v.len())),
    decreases v.len(),
{
    lemma_enc_arr_u2_len(e, v);
    if v.len() > 0 {
        lemma_enc_arr_u2_len(e, v.skip(1));
        lemma_subrange_split(s, off, enc16(e, v[0]), enc_arr_u2(e, v.skip(1)));
        lemma_sread_u2_at(s, e, off, v[0]);
        lemma_sread_arr_u2_at(s, e, off + 2, v.skip(1));
        assert(seq![v[0]] + v.skip(1) =~= v);
    } else {
        assert(v =~= Seq::<u16>::empty());
    }
}

/// Reads back a 32-bit array from its encoding.
pub proof fn lemma_sread_arr_u4_at(s: Seq<u8>, e: Endian, off: int, v: Seq<u32>)
    requires
        0 <= off,
        off + 4 * v.len() <= s.len(),
        s.subrange(off, off + 4 * v.len()) == enc_arr_u4(e, v),
    ensures
        sread_arr_u4(s, e, v.len() as int, off) == Some((v, off + 4 * v.len())),
    decreases v.len(),
{
    lemma_enc_arr_u4_len(e, v);
    if v.len() > 0 {
        lemma_enc_arr_u4_len(e, v.skip(1));
        lemma_subrange_split(s, off, enc32(e, v[0]), enc_arr_u4(e, v.skip(1)));
        lemma_sread_u4_at(s, e, off, v[0]);
        lemma_sread_arr_u4_at(s, e, off + 4, v.skip(1));
        assert(seq![v[0]] + v.skip(1) =~= v);
    } else {
        assert(v =~= Seq::<u32>::empty());
    }
}

/// Reads back an array of length-prefixed strings from its encoding.
pub proof fn lemma_sread_arr_cn_at(s: Seq<u8>, off: int, v: Seq<Seq<u8>>)
    requires
        0 <= off,
        forall|i: int| 0 <= i < v.len() ==> #[trigger] v[i].len() <= 255,
        off + enc_arr_cn(v).len() <= s.len(),
        s.subrange(off, off + enc_arr_cn(v).len()) == enc_arr_cn(v),
    ensures
        sread_arr_cn(s, v.len() as int, off) == Some((v, off + enc_arr_cn(v).len())),
    decreases v.len(),
{
    if v.len() > 0 {
        lemma_subrange_split(s, off, enc_cn(v[0]), enc_arr_cn(v.skip(1)));
        lemma_sread_cn_at(s, off, v[0]);
        lemma_sread_arr_cn_at(s, off + enc_cn(v[0]).len(), v.skip(1));
        assert(seq![v[0]] + v.skip(1) =~= v);
    } else {
        assert(v =~= Seq::<Seq<u8>>::empty());
    }
}

/// Reads back an array of generic-data values from its encoding.
pub proof fn lemma_sread_arr_vn_at(s: Seq<u8>, e: Endian, off: int, v: Seq<VnV>)
    requires
        0 <= off,
        forall|i: int| 0 <= i < v.len() ==> #[trigger] vnv_wf(v[i]),
        off + enc_arr_vn(e, v).len() <= s.len(),
        s.subrange(off, off + enc_arr_vn(e, v).len()) == enc_arr_vn(e, v),
    ensures
        sread_arr_vn(s, e, v.len() as int, off) == Some((v, off + enc_arr_vn(e, v).len())),
    decreases v.len(),
{
    if v.len() > 0 {
        lemma_subrange_split(s, off, enc_vnv(e, v[0]), enc_arr_vn(e, v.skip(1)));
        lemma_sread_vn_at(s, e, off, v[0]);
        lemma_sread_arr_vn_at(s, e, off + enc_vnv(e, v[0]).len(), v.skip(1));
        assert(seq![v[0]] + v.skip(1) =~= v);
    } else {
        assert(v =~= Seq::<VnV>::empty());
    }
}

// ---------------------------------------------------------------------
// The round trip: decoding an encoding gives the values back
// ---------------------------------------------------------------------
/// Reads back one conformant field from its encoding inside a larger
/// buffer.
pub proof fn lemma_sread_field_at(
    s: Seq<u8>,
    e: Endian,
    fs: Seq<FieldDef>,
    vs: Seq<Val>,
    i: int,
    off: int,
)
    requires
        0 <= i < fs.len() && i <= vs.len(),
        val_matches_at(fs, vs, i),
        (fs[i].kind matches FieldKind::KArr(_, j) ==> arr_len_of(vs[i]) == count_of(vs[j])),
        0 <= off,
        fs[i].kind is KArr || off + enc_val(e, vs[i]).len() < s.len() || off + enc_val(
            e,
            vs[i],
        ).len() == s.len(),
        off + enc_val(e, vs[i]).len() <= s.len(),
        s.subrange(off, off + enc_val(e, vs[i]).len()) == enc_val(e, vs[i]),
    ensures
        sread_field(s, e, fs[i], vs.take(i), off) == Some(
            (vs[i], off + enc_val(e, vs[i]).len() as int),
        ),
{
    let ev = enc_val(e, vs[i]);
    let acc = vs.take(i);
    match fs[i].kind {
        FieldKind::KArr(el, j) => {
            assert(acc[j] == vs[j]);
            let k = count_of(vs[j]);
            assert(k == arr_len_of(vs[i]));
            if off == s.len() {
                // nothing of the array is on the wire, so it is empty
                match el {
                    Elem::EU1 => {
                        assert(g_arr_u1(vs[i]) =~= Seq::<u8>::empty());
                    },
                    Elem::EU2 => {
                        lemma_enc_arr_u2_len(e, g_arr_u2(vs[i]));
                        assert(g_arr_u2(vs[i]) =~= Seq::<u16>::empty());
                    },
                    Elem::EN1 => {
                        assert(g_arr_n1(vs[i]) =~= Seq::<u8>::empty());
                    },
                    Elem::EU4 => {
                        lemma_enc_arr_u4_len(e, g_arr_u4(vs[i]));
                        assert(g_arr_u4(vs[i]) =~= Seq::<u32>::empty());
                    },
                    Elem::ECn => {
                        if g_arr_cn(vs[i]).len() > 0 {
                            assert(enc_val(e, vs[i]).len() > 0);
                        }
                        assert(g_arr_cn(vs[i]) =~= Seq::<Seq<u8>>::empty());
                    },
                    Elem::EVn => {
                        if g_arr_vn(vs[i]).len() > 0 {
                            assert(enc_val(e, vs[i]).len() > 0);
                        }
                        assert(g_arr_vn(vs[i]) =~= Seq::<VnV>::empty());
                    },
                }
                assert(empty_arr(el) == vs[i]);
                return ;
            }
            match el {
                Elem::EU1 => {
                    assert(sread_arr_u1(s, k, off) == Some((g_arr_u1(vs[i]), off + k)));
                },
                Elem::EU2 => {
                    lemma_enc_arr_u2_len(e, g_arr_u2(vs[i]));
                    lemma_sread_arr_u2_at(s, e, off, g_arr_u2(vs[i]));
                },
                Elem::EN1 => {
                    lemma_sread_arr_n1_at(s, off, g_arr_n1(vs[i]));
                },
                Elem::EU4 => {
                    lemma_enc_arr_u4_len(e, g_arr_u4(vs[i]));
                    lemma_sread_arr_u4_at(s, e, off, g_arr_u4(vs[i]));
                },
                Elem::ECn => {
                    lemma_sread_arr_cn_at(s, off, g_arr_cn(vs[i]));
                },
                Elem::EVn => {
                    lemma_sread_arr_vn_at(s, e, off, g_arr_vn(vs[i]));
                },
            }
        },
        _ => {
            lemma_enc_val_scalar(e, vs[i]);
            assert(off < s.len());
            match fs[i].kind {
                FieldKind::KU1 => {
                    assert(s[off] == ev[0]);
                },
                FieldKind::KU2 => {
                    lemma_sread_u2_at(s, e, off, g_u2(vs[i]));
                },
                FieldKind::KU4 => {
                    lemma_sread_u4_at(s, e, off, g_u4(vs[i]));
                },
                FieldKind::KU8 => {
                    lemma_sread_u8w_at(s, e, off, g_u8(vs[i]));
                },
                FieldKind::KCn => {
                    lemma_sread_cn_at(s, off, g_cn(vs[i]));
                },
                FieldKind::KDn => {
                    lemma_sread_dn_at(s, e, off, g_dn(vs[i]).0, g_dn(vs[i]).1);
                },
                FieldKind::KArr(_, _) => {},
            }
        },
    }
}

/// Decoding fields `i ..` of a full encoding, the earlier values already
/// in hand, yields the whole value sequence.
pub proof fn lemma_roundtrip_from(s: Seq<u8>, e: Endian, fs: Seq<FieldDef>, vs: Seq<Val>, i: int)
    requires
        vals_match(fs, vs),
        counts_strict(fs, vs),
        0 <= i <= fs.len(),
        s == enc_vals(e, vs),
    ensures
        sdecode_from(s, e, fs, i, enc_vals(e, vs.take(i)).len() as int, vs.take(i)) == Some(vs),
    decreases fs.len() - i,
{
    let off = enc_vals(e, vs.take(i)).len() as int;
    if i == fs.len() {
        assert(vs.take(i) =~= vs);
    } else {
        lemma_enc_vals_split(e, vs, i);
        assert(vs.skip(i)[0] == vs[i]);
        assert(vs.skip(i).skip(1) =~= vs.skip(i + 1));
        let ev = enc_val(e, vs[i]);
        assert(enc_vals(e, vs.skip(i)) == ev + enc_vals(e, vs.skip(i + 1)));
        assert(off + ev.len() + enc_vals(e, vs.skip(i + 1)).len() == s.len());
        assert(s.subrange(off, off + ev.len()) =~= ev) by {
            assert forall|x: int| 0 <= x < ev.len() implies s[off + x] == ev[x] by {
                assert(s[off + x] == (enc_vals(e, vs.take(i)) + enc_vals(e, vs.skip(i)))[off + x]);
                assert(enc_vals(e, vs.skip(i))[x] == (ev + enc_vals(e, vs.skip(i + 1)))[x]);
            }
            assert(s.subrange(off, off + ev.len()).len() == ev.len());
            assert(forall|x: int|
                0 <= x < ev.len() ==> #[trigger] s.subrange(off, off + ev.len())[x] == s[off + x]);
        }
        assert(val_matches_at(fs, vs, i));
        lemma_sread_field_at(s, e, fs, vs, i, off);
        assert(vs.take(i).push(vs[i]) =~= vs.take(i + 1));
        lemma_enc_vals_push(e, vs.take(i), vs[i]);
        lemma_roundtrip_from(s, e, fs, vs, i + 1);
    }
}

/// Decoding the encoding of a conformant value sequence gives it back.
pub proof fn lemma_roundtrip(e: Endian, fs: Seq<FieldDef>, vs: Seq<Val>)
    requires
        vals_match(fs, vs),
        counts_strict(fs, vs),
    ensures
        sdecode(enc_vals(e, vs), e, fs) == Some(vs),
{
    assert(vs.take(0) =~= Seq::<Val>::empty());
    lemma_roundtrip_from(enc_vals(e, vs), e, fs, vs, 0);
}

} // verus!

verus! {

// ---------------------------------------------------------------------
// Every decode conforms to its descriptor
// ---------------------------------------------------------------------
/// An array read yields exactly the asked-for number of well-formed
/// elements.
proof fn lemma_sread_arr_u2_shape(s: Seq<u8>, e: Endian, k: int, off: int)
    requires
        sread_arr_u2(s, e, k, off) is Some,
        k >= 0,
    ensures
        sread_arr_u2(s, e, k, off)->Some_0.0.len() == k,
    decreases k,
{
    if k > 0 {
        let o2 = sread_u2(s, e, off)->Some_0.1;
        lemma_sread_arr_u2_shape(s, e, k - 1, o2);
    }
}

proof fn lemma_sread_arr_u4_shape(s: Seq<u8>, e: Endian, k: int, off: int)
    requires
        sread_arr_u4(s, e, k, off) is Some,
        k >= 0,
    ensures
        sread_arr_u4(s, e, k, off)->Some_0.0.len() == k,
    decreases k,
{
    if k > 0 {
        let o2 = sread_u4(s, e, off)->Some_0.1;
        lemma_sread_arr_u4_shape(s, e, k - 1, o2);
    }
}

proof fn lemma_sread_arr_cn_shape(s: Seq<u8>, k: int, off: int)
    requires
        sread_arr_cn(s, k, off) is Some,
        k >= 0,
    ensures
        sread_arr_cn(s, k, off)->Some_0.0.len() == k,
        forall|i: int|
            0 <= i < k ==> #[trigger] sread_arr_cn(s, k, off)->Some_0.0[i].len() <= 255,
    decreases k,
{
    if k > 0 {
        let o2 = sread_cn(s, off)->Some_0.1;
        lemma_sread_arr_cn_shape(s, k - 1, o2);
        let first = sread_cn(s, off)->Some_0.0;
        let rest = sread_arr_cn(s, k - 1, o2)->Some_0.0;
        let whole = sread_arr_cn(s, k, off)->Some_0.0;
        assert(whole == seq![first] + rest);
        assert forall|i: int| 0 <= i < k implies #[trigger] whole[i].len() <= 255 by {
            if i > 0 {
                assert(whole[i] == rest[i - 1]);
            }
        }
    }
}

/// A 16-bit-array read moves the position forward within the buffer.
proof fn lemma_sread_arr_u2_bounds(s: Seq<u8>, e: Endian, k: int, off: int)
    requires
        0 <= off <= s.len(),
        sread_arr_u2(s, e, k, off) is Some,
    ensures
        off <= sread_arr_u2(s, e, k, off)->Some_0.1 <= s.len(),
    decreases k,
{
    if k > 0 {
        let o2 = sread_u2(s, e, off)->Some_0.1;
        lemma_sread_arr_u2_bounds(s, e, k - 1, o2);
    }
}

/// A 32-bit-array read moves the position forward within the buffer.
proof fn lemma_sread_arr_u4_bounds(s: Seq<u8>, e: Endian, k: int, off: int)
    requires
        0 <= off <= s.len(),
        sread_arr_u4(s, e, k, off) is Some,
    ensures
        off <= sread_arr_u4(s, e, k, off)->Some_0.1 <= s.len(),
    decreases k,
{
    if k > 0 {
        let o2 = sread_u4(s, e, off)->Some_0.1;
        lemma_sread_arr_u4_bounds(s, e, k - 1, o2);
    }
}

/// A string-array read moves the position forward within the buffer.
proof fn lemma_sread_arr_cn_bounds(s: Seq<u8>, k: int, off: int)
    requires
        0 <= off <= s.len(),
        sread_arr_cn(s, k, off) is Some,
    ensures
        off <= sread_arr_cn(s, k, off)->Some_0.1 <= s.len(),
    decreases k,
{
    if k > 0 {
        let o2 = sread_cn(s, off)->Some_0.1;
        lemma_sread_arr_cn_bounds(s, k - 1, o2);
    }
}

/// A generic-data read moves the position forward within the buffer.
proof fn lemma_sread_vn_bounds(s: Seq<u8>, e: Endian, off: int)
    requires
        0 <= off <= s.len(),
        sread_vn(s, e, off) is Some,
    ensures
        off <= sread_vn(s, e, off)->Some_0.1 <= s.len(),
{
}

/// A generic-data-array read moves the position forward within the
/// buffer.
proof fn lemma_sread_arr_vn_bounds(s: Seq<u8>, e: Endian, k: int, off: int)
    requires
        0 <= off <= s.len(),
        sread_arr_vn(s, e, k, off) is Some,
    ensures
        off <= sread_arr_vn(s, e, k, off)->Some_0.1 <= s.len(),
    decreases k,
{
    if k > 0 {
        lemma_sread_vn_bounds(s, e, off);
        let o2 = sread_vn(s, e, off)->Some_0.1;
        lemma_sread_arr_vn_bounds(s, e, k - 1, o2);
    }
}

/// A field read moves the position forward within the buffer.
pub proof fn lemma_sread_field_bounds(s: Seq<u8>, e: Endian, f: FieldDef, acc: Seq<Val>, off: int)
    requires
        0 <= off <= s.len(),
        sread_field(s, e, f, acc, off) is Some,
    ensures
        off <= sread_field(s, e, f, acc, off)->Some_0.1 <= s.len(),
{
    match f.kind {
        FieldKind::KArr(el, j) => {
            if off < s.len() {
                let k = count_of(acc[j]);
                match el {
                    Elem::EU1 => {},
                    Elem::EU2 => {
                        lemma_sread_arr_u2_bounds(s, e, k, off);
                    },
                    Elem::EN1 => {},
                    Elem::EU4 => {
                        lemma_sread_arr_u4_bounds(s, e, k, off);
                    },
                    Elem::ECn => {
                        lemma_sread_arr_cn_bounds(s, k, off);
                    },
                    Elem::EVn => {
                        lemma_sread_arr_vn_bounds(s, e, k, off);
                    },
                }
            }
        },
        _ => {},
    }
}

/// A generic-data value read off the wire is well-formed.
proof fn lemma_sread_vn_wf(s: Seq<u8>, e: Endian, off: int)
    requires
        sread_vn(s, e, off) is Some,
    ensures
        vnv_wf(sread_vn(s, e, off)->Some_0.0),
{
}

proof fn lemma_sread_arr_vn_shape(s: Seq<u8>, e: Endian, k: int, off: int)
    requires
        sread_arr_vn(s, e, k, off) is Some,
        k >= 0,
    ensures
        sread_arr_vn(s, e, k, off)->Some_0.0.len() == k,
        forall|i: int| 0 <= i < k ==> #[trigger] vnv_wf(sread_arr_vn(s, e, k, off)->Some_0.0[i]),
    decreases k,
{
    if k > 0 {
        let o2 = sread_vn(s, e, off)->Some_0.1;
        lemma_sread_arr_vn_shape(s, e, k - 1, o2);
        let first = sread_vn(s, e, off)->Some_0.0;
        let rest = sread_arr_vn(s, e, k - 1, o2)->Some_0.0;
        let whole = sread_arr_vn(s, e, k, off)->Some_0.0;
        assert(whole == seq![first] + rest);
        lemma_sread_vn_wf(s, e, off);
        assert forall|i: int| 0 <= i < k implies #[trigger] vnv_wf(whole[i]) by {
            if i > 0 {
                assert(whole[i] == rest[i - 1]);
            }
        }
    }
}

/// Whatever one field read yields has the layout and well-formedness its
/// descriptor entry asks for.
proof fn lemma_sread_field_shape(s: Seq<u8>, e: Endian, f: FieldDef, acc: Seq<Val>, off: int)
    requires
        sread_field(s, e, f, acc, off) is Some,
    ensures
        kind_fits(f.kind, sread_field(s, e, f, acc, off)->Some_0.0),
        val_wf(sread_field(s, e, f, acc, off)->Some_0.0),
        f.kind matches FieldKind::KArr(_, j) ==> 0 <= j < acc.len() && (arr_len_of(
            sread_field(s, e, f, acc, off)->Some_0.0,
        ) == count_of(acc[j]) || arr_len_of(sread_field(s, e, f, acc, off)->Some_0.0) == 0),
{
    let v = sread_field(s, e, f, acc, off)->Some_0.0;
    match f.kind {
        FieldKind::KArr(el, j) => {
            let k = count_of(acc[j]);
            if off == s.len() {
                return ;
            }
            match el {
                Elem::EU1 => {},
                Elem::EU2 => {
                    lemma_sread_arr_u2_shape(s, e, k, off);
                },
                Elem::EN1 => {
                    let nibs = g_arr_n1(v);
                    assert forall|i: int| 0 <= i < nibs.len() implies nibs[i] < 16 by {
                        let byte = s[off + i / 2];
                        if i % 2 == 0 {
                            assert(byte & 0xf < 16) by (bit_vector);
                        } else {
                            assert(byte >> 4 < 16) by (bit_vector);
                        }
                    }
                },
                Elem::EU4 => {
                    lemma_sread_arr_u4_shape(s, e, k, off);
                },
                Elem::ECn => {
                    lemma_sread_arr_cn_shape(s, k, off);
                },
                Elem::EVn => {
                    lemma_sread_arr_vn_shape(s, e, k, off);
                },
            }
        },
        _ => {},
    }
}

/// A successful decode of the remaining fields extends the values in hand
/// to a conformant whole.
proof fn lemma_sdecode_from_match(
    s: Seq<u8>,
    e: Endian,
    fs: Seq<FieldDef>,
    i: int,
    off: int,
    acc: Seq<Val>,
)
    requires
        0 <= i <= fs.len(),
        acc.len() == i,
        sdecode_from(s, e, fs, i, off, acc) is Some,
    ensures
        sdecode_from(s, e, fs, i, off, acc)->Some_0.len() == fs.len(),
        sdecode_from(s, e, fs, i, off, acc)->Some_0.take(i) == acc,
        forall|j: int|
            i <= j < fs.len() ==> #[trigger] val_matches_at(
                fs,
                sdecode_from(s, e, fs, i, off, acc)->Some_0,
                j,
            ),
    decreases fs.len() - i,
{
    let vs = sdecode_from(s, e, fs, i, off, acc)->Some_0;
    if i == fs.len() {
        assert(vs.take(i) =~= acc);
    } else {
        let step = sread_field(s, e, fs[i], acc, off)->Some_0;
        let v = step.0;
        let o2 = step.1;
        lemma_sread_field_shape(s, e, fs[i], acc, off);
        lemma_sdecode_from_match(s, e, fs, i + 1, o2, acc.push(v));
        assert(vs.take(i + 1) == acc.push(v));
        assert(vs.take(i) =~= acc) by {
            assert forall|x: int| 0 <= x < i implies vs.take(i)[x] == acc[x] by {
                assert(vs.take(i + 1)[x] == acc.push(v)[x]);
            }
        }
        assert(vs[i] == vs.take(i + 1)[i]);
        assert(vs[i] == v);
        assert(val_matches_at(fs, vs, i)) by {
            match fs[i].kind {
                FieldKind::KArr(_, j) => {
                    assert(vs[j] == vs.take(i)[j]);
                },
                _ => {},
            }
        }
    }
}

/// Whatever a whole-payload decode yields conforms to the descriptor.
pub proof fn lemma_sdecode_match(s: Seq<u8>, e: Endian, fs: Seq<FieldDef>)
    requires
        sdecode(s, e, fs) is Some,
    ensures
        vals_match(fs, sdecode(s, e, fs)->Some_0),
{
    lemma_sdecode_from_match(s, e, fs, 0, 0, seq![]);
}

} // verus!

verus! {

/// Appending one element to a 16-bit array appends its encoding.
pub proof fn lemma_enc_arr_u2_push(e: Endian, s: Seq<u16>, x: u16)
    ensures
        enc_arr_u2(e, s.push(x)) == enc_arr_u2(e, s) + enc16(e, x),
    decreases s.len(),
{
    if s.len() == 0 {
        let w = s.push(x);
        assert(w[0] == x);
        assert(w.skip(1) =~= Seq::<u16>::empty());
        assert(enc_arr_u2(e, w.skip(1)) == enc_arr_u2(e, Seq::<u16>::empty()));
        assert(enc_arr_u2(e, Seq::<u16>::empty()) == Seq::<u8>::empty());
        assert(enc_arr_u2(e, w) == enc16(e, x) + Seq::<u8>::empty());
        assert(enc16(e, x) + Seq::<u8>::empty() =~= Seq::<u8>::empty() + enc16(e, x));
        assert(enc_arr_u2(e, s) == Seq::<u8>::empty());
    } else {
        let w = s.push(x);
        assert(w[0] == s[0]);
        assert(w.skip(1) =~= s.skip(1).push(x));
        lemma_enc_arr_u2_push(e, s.skip(1), x);
        assert(enc_arr_u2(e, w) == enc16(e, s[0]) + (enc_arr_u2(e, s.skip(1)) + enc16(e, x)));
        assert(enc16(e, s[0]) + (enc_arr_u2(e, s.skip(1)) + enc16(e, x)) =~= (enc16(e, s[0])
            + enc_arr_u2(e, s.skip(1))) + enc16(e, x));
    }
}

/// Appending one element to a 32-bit array appends its encoding.
pub proof fn lemma_enc_arr_u4_push(e: Endian, s: Seq<u32>, x: u32)
    ensures
        enc_arr_u4(e, s.push(x)) == enc_arr_u4(e, s) + enc32(e, x),
    decreases s.len(),
{
    if s.len() == 0 {
        let w = s.push(x);
        assert(w[0] == x);
        assert(w.skip(1) =~= Seq::<u32>::empty());
        assert(enc_arr_u4(e, w.skip(1)) == enc_arr_u4(e, Seq::<u32>::empty()));
        assert(enc_arr_u4(e, Seq::<u32>::empty()) == Seq::<u8>::empty());
        assert(enc_arr_u4(e, w) == enc32(e, x) + Seq::<u8>::empty());
        assert(enc32(e, x) + Seq::<u8>::empty() =~= Seq::<u8>::empty() + enc32(e, x));
        assert(enc_arr_u4(e, s) == Seq::<u8>::empty());
    } else {
        let w = s.push(x);
        assert(w[0] == s[0]);
        assert(w.skip(1) =~= s.skip(1).push(x));
        lemma_enc_arr_u4_push(e, s.skip(1), x);
        assert(enc_arr_u4(e, w) == enc32(e, s[0]) + (enc_arr_u4(e, s.skip(1)) + enc32(e, x)));
        assert(enc32(e, s[0]) + (enc_arr_u4(e, s.skip(1)) + enc32(e, x)) =~= (enc32(e, s[0])
            + enc_arr_u4(e, s.skip(1))) + enc32(e, x));
    }
}

/// Appending one element to a string array appends its encoding.
pub proof fn lemma_enc_arr_cn_push(s: Seq<Seq<u8>>, x: Seq<u8>)
    ensures
        enc_arr_cn(s.push(x)) == enc_arr_cn(s) + enc_cn(x),
    decreases s.len(),
{
    if s.len() == 0 {
        let w = s.push(x);
        assert(w[0] == x);
        assert(w.skip(1) =~= Seq::<Seq<u8>>::empty());
        assert(enc_arr_cn(w.skip(1)) == enc_arr_cn(Seq::<Seq<u8>>::empty()));
        assert(enc_arr_cn(Seq::<Seq<u8>>::empty()) == Seq::<u8>::empty());
        assert(enc_arr_cn(w) == enc_cn(x) + Seq::<u8>::empty());
        assert(enc_cn(x) + Seq::<u8>::empty() =~= Seq::<u8>::empty() + enc_cn(x));
        assert(enc_arr_cn(s) == Seq::<u8>::empty());
    } else {
        let w = s.push(x);
        assert(w[0] == s[0]);
        assert(w.skip(1) =~= s.skip(1).push(x));
        lemma_enc_arr_cn_push(s.skip(1), x);
        assert(enc_arr_cn(w) == enc_cn(s[0]) + (enc_arr_cn(s.skip(1)) + enc_cn(x)));
        assert(enc_cn(s[0]) + (enc_arr_cn(s.skip(1)) + enc_cn(x)) =~= (enc_cn(s[0])
            + enc_arr_cn(s.skip(1))) + enc_cn(x));
    }
}

/// Appending one element to a generic-data array appends its encoding.
pub proof fn lemma_enc_arr_vn_push(e: Endian, s: Seq<VnV>, x: VnV)
    ensures
        enc_arr_vn(e, s.push(x)) == enc_arr_vn(e, s) + enc_vnv(e, x),
    decreases s.len(),
{
    if s.len() == 0 {
        let w = s.push(x);
        assert(w[0] == x);
        assert(w.skip(1) =~= Seq::<VnV>::empty());
        assert(enc_arr_vn(e, w.skip(1)) == enc_arr_vn(e, Seq::<VnV>::empty()));
        assert(enc_arr_vn(e, Seq::<VnV>::empty()) == Seq::<u8>::empty());
        assert(enc_arr_vn(e, w) == enc_vnv(e, x) + Seq::<u8>::empty());
        assert(enc_vnv(e, x) + Seq::<u8>::empty() =~= Seq::<u8>::empty() + enc_vnv(e, x));
        assert(enc_arr_vn(e, s) == Seq::<u8>::empty());
    } else {
        let w = s.push(x);
        assert(w[0] == s[0]);
        assert(w.skip(1) =~= s.skip(1).push(x));
        lemma_enc_arr_vn_push(e, s.skip(1), x);
        assert(enc_arr_vn(e, w) == enc_vnv(e, s[0]) + (enc_arr_vn(e, s.skip(1)) + enc_vnv(e, x)));
        assert(enc_vnv(e, s[0]) + (enc_arr_vn(e, s.skip(1)) + enc_vnv(e, x)) =~= (enc_vnv(e, s[0])
            + enc_arr_vn(e, s.skip(1))) + enc_vnv(e, x));
    }
}

} // verus!

verus! {

// ---------------------------------------------------------------------
// Single steps of a record decode or encode, for the per-record code
// ---------------------------------------------------------------------
/// A whole-payload decode starts at the first field with nothing in hand.
pub proof fn lemma_read_begin(s: Seq<u8>, e: Endian, fs: Seq<FieldDef>)
    ensures
        sdecode(s, e, fs) == sdecode_from(s, e, fs, 0, 0, Seq::<Val>::empty()),
{
}

/// Reading one scalar field carries a decode one field forward.
pub proof fn lemma_read_step(
    s: Seq<u8>,
    e: Endian,
    fs: Seq<FieldDef>,
    i: int,
    f: FieldDef,
    off0: int,
    off1: int,
    acc: Seq<Val>,
    v: Val,
)
    requires
        0 <= i < fs.len(),
        fs[i] == f,
        !(f.kind is KArr),
        sread_field(s, e, f, Seq::<Val>::empty(), off0) == Some((v, off1)),
        sdecode(s, e, fs) == sdecode_from(s, e, fs, i, off0, acc),
    ensures
        sdecode(s, e, fs) == sdecode_from(s, e, fs, i + 1, off1, acc.push(v)),
{
    assert(sread_field(s, e, f, acc, off0) == sread_field(s, e, f, Seq::<Val>::empty(), off0));
}

/// A scalar field that cannot be read makes the whole payload malformed.
pub proof fn lemma_read_step_none(
    s: Seq<u8>,
    e: Endian,
    fs: Seq<FieldDef>,
    i: int,
    f: FieldDef,
    off0: int,
    acc: Seq<Val>,
)
    requires
        0 <= i < fs.len(),
        fs[i] == f,
        !(f.kind is KArr),
        sread_field(s, e, f, Seq::<Val>::empty(), off0) is None,
        sdecode(s, e, fs) == sdecode_from(s, e, fs, i, off0, acc),
    ensures
        sdecode(s, e, fs) is None,
{
    assert(sread_field(s, e, f, acc, off0) == sread_field(s, e, f, Seq::<Val>::empty(), off0));
}

/// Reading one array field carries a decode one field forward.
pub proof fn lemma_read_step_arr(
    s: Seq<u8>,
    e: Endian,
    fs: Seq<FieldDef>,
    i: int,
    el: Elem,
    j: int,
    off0: int,
    off1: int,
    acc: Seq<Val>,
    v: Val,
    k: int,
)
    requires
        0 <= i < fs.len(),
        fs[i] == fd(FieldKind::KArr(el, j), None),
        0 <= j < acc.len(),
        count_of(acc[j]) == k,
        k >= 0,
        sread_arr_field(s, e, el, k, off0) == Some((v, off1)),
        sdecode(s, e, fs) == sdecode_from(s, e, fs, i, off0, acc),
    ensures
        sdecode(s, e, fs) == sdecode_from(s, e, fs, i + 1, off1, acc.push(v)),
{
}

/// An array field that cannot be read makes the whole payload malformed.
pub proof fn lemma_read_step_arr_none(
    s: Seq<u8>,
    e: Endian,
    fs: Seq<FieldDef>,
    i: int,
    el: Elem,
    j: int,
    off0: int,
    acc: Seq<Val>,
    k: int,
)
    requires
        0 <= i < fs.len(),
        fs[i] == fd(FieldKind::KArr(el, j), None),
        0 <= j < acc.len(),
        count_of(acc[j]) == k,
        k >= 0,
        sread_arr_field(s, e, el, k, off0) is None,
        sdecode(s, e, fs) == sdecode_from(s, e, fs, i, off0, acc),
    ensures
        sdecode(s, e, fs) is None,
{
}

/// After the last field, the values in hand are the decode's result.
pub proof fn lemma_read_end(s: Seq<u8>, e: Endian, fs: Seq<FieldDef>, off: int, acc: Seq<Val>)
    requires
        sdecode(s, e, fs) == sdecode_from(s, e, fs, fs.len() as int, off, acc),
    ensures
        sdecode(s, e, fs) == Some(acc),
{
}

/// Appending the encoding of field `i` extends an encoded prefix by one
/// field.
pub proof fn lemma_write_step(
    e: Endian,
    vs: Seq<Val>,
    i: int,
    pre: Seq<u8>,
    a: Seq<u8>,
    b: Seq<u8>,
)
    requires
        0 <= i < vs.len(),
        a == pre + enc_vals(e, vs.take(i)),
        b == a + enc_val(e, vs[i]),
    ensures
        b == pre + enc_vals(e, vs.take(i + 1)),
{
    assert(vs.take(i).push(vs[i]) =~= vs.take(i + 1));
    lemma_enc_vals_push(e, vs.take(i), vs[i]);
    assert(b =~= pre + enc_vals(e, vs.take(i + 1)));
}

/// An empty buffer extension encodes the empty field prefix.
pub proof fn lemma_write_begin(e: Endian, vs: Seq<Val>, pre: Seq<u8>)
    ensures
        pre == pre + enc_vals(e, vs.take(0)),
{
    assert(vs.take(0) =~= Seq::<Val>::empty());
    assert(pre =~= pre + enc_vals(e, vs.take(0)));
}

/// After the last field, the whole payload encoding stands in the buffer.
pub proof fn lemma_write_end(e: Endian, vs: Seq<Val>, pre: Seq<u8>, b: Seq<u8>)
    requires
        b == pre + enc_vals(e, vs.take(vs.len() as int)),
    ensures
        b == pre + enc_vals(e, vs),
{
    assert(vs.take(vs.len() as int) =~= vs);
}

} // verus!

verus! {

// ---------------------------------------------------------------------
// How many fields stood on the wire
// ---------------------------------------------------------------------
/// How many of the fields from `i` on begin before the payload end, the
/// earlier values being `acc`: the count settles at the first field whose
/// position has reached the end.
pub open spec fn spres_from(
    s: Seq<u8>,
    e: Endian,
    fs: Seq<FieldDef>,
    i: int,
    off: int,
    acc: Seq<Val>,
) -> int
    decreases fs.len() - i,
{
    if i >= fs.len() {
        fs.len() as int
    } else if off >= s.len() {
        i
    } else {
        match sread_field(s, e, fs[i], acc, off) {
            None => i,
            Some((v, o2)) => spres_from(s, e, fs, i + 1, o2, acc.push(v)),
        }
    }
}

/// How many leading fields of a record payload stand on the wire.
pub open spec fn spres(s: Seq<u8>, e: Endian, fs: Seq<FieldDef>) -> int {
    spres_from(s, e, fs, 0, 0, Seq::<Val>::empty())
}

/// The bookkeeping a partial decode carries for the on-the-wire count:
/// once the payload has ended the count is settled, before that it is
/// the number of fields already passed.
pub open spec fn spres_inv(
    s: Seq<u8>,
    e: Endian,
    fs: Seq<FieldDef>,
    i: int,
    off: int,
    acc: Seq<Val>,
    p: int,
) -> bool {
    if off == s.len() {
        spres(s, e, fs) == p
    } else {
        spres(s, e, fs) == spres_from(s, e, fs, i, off, acc) && p == i
    }
}

/// A whole-payload count starts with no field passed.
pub proof fn lemma_pres_begin(s: Seq<u8>, e: Endian, fs: Seq<FieldDef>)
    ensures
        spres_inv(s, e, fs, 0, 0, Seq::<Val>::empty(), 0),
{
}

/// Reading one scalar field carries the count bookkeeping forward.
pub proof fn lemma_pres_step(
    s: Seq<u8>,
    e: Endian,
    fs: Seq<FieldDef>,
    i: int,
    f: FieldDef,
    off0: int,
    off1: int,
    acc: Seq<Val>,
    v: Val,
    p0: int,
    p1: int,
)
    requires
        0 <= i < fs.len(),
        fs[i] == f,
        !(f.kind is KArr),
        0 <= off0 <= s.len(),
        off1 <= s.len(),
        sread_field(s, e, f, Seq::<Val>::empty(), off0) == Some((v, off1)),
        spres_inv(s, e, fs, i, off0, acc, p0),
        p1 == if off0 < s.len() {
            i + 1
        } else {
            p0
        },
    ensures
        spres_inv(s, e, fs, i + 1, off1, acc.push(v), p1),
{
    assert(sread_field(s, e, f, acc, off0) == sread_field(s, e, f, Seq::<Val>::empty(), off0));
    if off0 < s.len() {
        assert(spres_from(s, e, fs, i, off0, acc) == spres_from(s, e, fs, i + 1, off1, acc.push(v)));
        if off1 == s.len() {
            assert(spres_from(s, e, fs, i + 1, off1, acc.push(v)) == i + 1);
        }
    }
}

/// Reading one array field carries the count bookkeeping forward.
pub proof fn lemma_pres_step_arr(
    s: Seq<u8>,
    e: Endian,
    fs: Seq<FieldDef>,
    i: int,
    el: Elem,
    j: int,
    off0: int,
    off1: int,
    acc: Seq<Val>,
    v: Val,
    k: int,
    p0: int,
    p1: int,
)
    requires
        0 <= i < fs.len(),
        fs[i] == fd(FieldKind::KArr(el, j), None),
        0 <= j < acc.len(),
        count_of(acc[j]) == k,
        k >= 0,
        0 <= off0 <= s.len(),
        off1 <= s.len(),
        sread_arr_field(s, e, el, k, off0) == Some((v, off1)),
        spres_inv(s, e, fs, i, off0, acc, p0),
        p1 == if off0 < s.len() {
            i + 1
        } else {
            p0
        },
    ensures
        spres_inv(s, e, fs, i + 1, off1, acc.push(v), p1),
{
    if off0 < s.len() {
        assert(spres_from(s, e, fs, i, off0, acc) == spres_from(s, e, fs, i + 1, off1, acc.push(v)));
        if off1 == s.len() {
            assert(spres_from(s, e, fs, i + 1, off1, acc.push(v)) == i + 1);
        }
    }
}

/// After the last field, the bookkeeping has settled the count.
pub proof fn lemma_pres_end(
    s: Seq<u8>,
    e: Endian,
    fs: Seq<FieldDef>,
    off: int,
    acc: Seq<Val>,
    p: int,
)
    requires
        0 <= off <= s.len(),
        spres_inv(s, e, fs, fs.len() as int, off, acc, p),
    ensures
        spres(s, e, fs) == p,
{
}

/// Whatever a successful decode leaves beyond the on-the-wire count holds
/// its default or is empty, and every array within the count is framed by
/// its count field.
proof fn lemma_sdecode_present_from(
    s: Seq<u8>,
    e: Endian,
    fs: Seq<FieldDef>,
    i: int,
    off: int,
    acc: Seq<Val>,
)
    requires
        0 <= i <= fs.len(),
        acc.len() == i,
        0 <= off <= s.len(),
        sdecode_from(s, e, fs, i, off, acc) is Some,
    ensures
        ({
            let vs = sdecode_from(s, e, fs, i, off, acc)->Some_0;
            let q = spres_from(s, e, fs, i, off, acc);
            &&& i <= q <= fs.len()
            &&& forall|j: int| q <= j < fs.len() ==> #[trigger] suppressible(fs[j], vs[j])
            &&& forall|j: int|
                i <= j < q ==> match #[trigger] fs[j].kind {
                    FieldKind::KArr(_, jj) => arr_len_of(vs[j]) == count_of(vs[jj]),
                    _ => true,
                }
        }),
    decreases fs.len() - i,
{
    let vs = sdecode_from(s, e, fs, i, off, acc)->Some_0;
    let q = spres_from(s, e, fs, i, off, acc);
    if i == fs.len() {
    } else {
        let step = sread_field(s, e, fs[i], acc, off)->Some_0;
        let v = step.0;
        let o2 = step.1;
        lemma_sread_field_shape(s, e, fs[i], acc, off);
        lemma_sread_field_bounds(s, e, fs[i], acc, off);
        lemma_sdecode_from_match(s, e, fs, i + 1, o2, acc.push(v));
        lemma_sdecode_from_match(s, e, fs, i, off, acc);
        assert(vs.take(i + 1) == acc.push(v));
        assert(vs[i] == vs.take(i + 1)[i]);
        assert(vs[i] == v);
        lemma_sdecode_present_from(s, e, fs, i + 1, o2, acc.push(v));
        if off == s.len() {
            assert(q == i);
            assert(suppressible(fs[i], v)) by {
                match fs[i].kind {
                    FieldKind::KArr(el, _) => {
                        assert(v == empty_arr(el));
                    },
                    _ => {},
                }
            }
            assert(o2 == off);
            assert(spres_from(s, e, fs, i + 1, o2, acc.push(v)) == i + 1);
        } else {
            assert(q == spres_from(s, e, fs, i + 1, o2, acc.push(v)));
            assert(match fs[i].kind {
                FieldKind::KArr(_, jj) => arr_len_of(vs[i]) == count_of(vs[jj]),
                _ => true,
            }) by {
                match fs[i].kind {
                    FieldKind::KArr(_, jj) => {
                        assert(vs.take(i)[jj] == vs[jj]);
                    },
                    _ => {},
                }
            }
        }
    }
}

/// Whatever a whole-payload decode yields: the fields beyond the
/// on-the-wire count hold their defaults or are empty, and every array
/// within it is framed by its count field.
pub proof fn lemma_sdecode_present(s: Seq<u8>, e: Endian, fs: Seq<FieldDef>)
    requires
        sdecode(s, e, fs) is Some,
    ensures
        ({
            let vs = sdecode(s, e, fs)->Some_0;
            let q = spres(s, e, fs);
            &&& 0 <= q <= fs.len()
            &&& forall|j: int| q <= j < fs.len() ==> #[trigger] suppressible(fs[j], vs[j])
            &&& counts_strict_upto(fs, vs, q)
        }),
{
    lemma_sdecode_present_from(s, e, fs, 0, 0, Seq::<Val>::empty());
}

} // verus!

verus! {

// ---------------------------------------------------------------------
// The round trip of a trimmed encoding
// ---------------------------------------------------------------------
/// Fields that are all absent decode at the payload end to exactly the
/// values in hand.
proof fn lemma_trim_tail(s: Seq<u8>, e: Endian, fs: Seq<FieldDef>, vs: Seq<Val>, i: int)
    requires
        vals_match(fs, vs),
        0 <= i <= fs.len(),
        forall|j: int| i <= j < fs.len() ==> #[trigger] suppressible(fs[j], vs[j]),
    ensures
        sdecode_from(s, e, fs, i, s.len() as int, vs.take(i)) == Some(vs),
    decreases fs.len() - i,
{
    if i == fs.len() {
        assert(vs.take(i) =~= vs);
    } else {
        assert(val_matches_at(fs, vs, i));
        assert(suppressible(fs[i], vs[i]));
        let acc = vs.take(i);
        assert(sread_field(s, e, fs[i], acc, s.len() as int) == Some(
            (vs[i], s.len() as int),
        )) by {
            match fs[i].kind {
                FieldKind::KArr(el, j) => {
                    assert(acc[j] == vs[j]);
                    match el {
                        Elem::EU1 => {
                            assert(g_arr_u1(vs[i]) =~= Seq::<u8>::empty());
                        },
                        Elem::EU2 => {
                            assert(g_arr_u2(vs[i]) =~= Seq::<u16>::empty());
                        },
                        Elem::EN1 => {
                            assert(g_arr_n1(vs[i]) =~= Seq::<u8>::empty());
                        },
                        Elem::EU4 => {
                            assert(g_arr_u4(vs[i]) =~= Seq::<u32>::empty());
                        },
                        Elem::ECn => {
                            assert(g_arr_cn(vs[i]) =~= Seq::<Seq<u8>>::empty());
                        },
                        Elem::EVn => {
                            assert(g_arr_vn(vs[i]) =~= Seq::<VnV>::empty());
                        },
                    }
                    assert(empty_arr(el) == vs[i]);
                },
                _ => {},
            }
        }
        assert(vs.take(i).push(vs[i]) =~= vs.take(i + 1));
        lemma_trim_tail(s, e, fs, vs, i + 1);
    }
}

/// Decoding a trimmed encoding from field `i` on yields all the values,
/// and the count of fields on the wire never passes the trim point.
proof fn lemma_trim_from(s: Seq<u8>, e: Endian, fs: Seq<FieldDef>, vs: Seq<Val>, p: int, i: int)
    requires
        vals_match(fs, vs),
        counts_strict_upto(fs, vs, p),
        forall|j: int| p <= j < fs.len() ==> #[trigger] suppressible(fs[j], vs[j]),
        0 <= i <= p <= fs.len(),
        s == enc_vals(e, vs.take(p)),
    ensures
        sdecode_from(s, e, fs, i, enc_vals(e, vs.take(i)).len() as int, vs.take(i)) == Some(vs),
        ({
            let q = spres_from(s, e, fs, i, enc_vals(e, vs.take(i)).len() as int, vs.take(i));
            i <= q <= p && enc_vals(e, vs.take(q)) == s
        }),
    decreases p - i,
{
    let off = enc_vals(e, vs.take(i)).len() as int;
    let acc = vs.take(i);
    lemma_enc_vals_split_take(e, vs, i, p);
    assert(off <= s.len());
    if i == p {
        lemma_trim_tail(s, e, fs, vs, i);
        assert(vs.take(p) =~= vs.take(p));
        assert(off == s.len());
        if i < fs.len() {
            assert(spres_from(s, e, fs, i, off, acc) == i);
        }
    } else {
        assert(val_matches_at(fs, vs, i));
        let ev = enc_val(e, vs[i]);
        assert(vs.take(p).take(i) =~= vs.take(i));
        lemma_enc_vals_split(e, vs.take(p), i);
        lemma_enc_vals_split(e, vs.take(p), i + 1);
        assert(vs.take(p).take(i + 1) =~= vs.take(i + 1));
        assert(vs.take(p)[i] == vs[i]);
        assert(vs.take(p).skip(i)[0] == vs[i]);
        assert(vs.take(p).skip(i).skip(1) =~= vs.take(p).skip(i + 1));
        assert(enc_vals(e, vs.take(p).skip(i)) == ev + enc_vals(e, vs.take(p).skip(i + 1)));
        assert(off + ev.len() + enc_vals(e, vs.take(p).skip(i + 1)).len() == s.len());
        assert(s.subrange(off, off + ev.len()) =~= ev) by {
            assert forall|x: int| 0 <= x < ev.len() implies s[off + x] == ev[x] by {
                assert(s[off + x] == (enc_vals(e, vs.take(i)) + enc_vals(e, vs.take(p).skip(i)))[off
                    + x]);
                assert(enc_vals(e, vs.take(p).skip(i))[x] == (ev + enc_vals(
                    e,
                    vs.take(p).skip(i + 1),
                ))[x]);
            }
            assert(s.subrange(off, off + ev.len()).len() == ev.len());
            assert(forall|x: int|
                0 <= x < ev.len() ==> #[trigger] s.subrange(off, off + ev.len())[x] == s[off + x]);
        }
        lemma_sread_field_at(s, e, fs, vs, i, off);
        assert(vs.take(i).push(vs[i]) =~= vs.take(i + 1));
        lemma_enc_vals_push(e, vs.take(i), vs[i]);
        lemma_trim_from(s, e, fs, vs, p, i + 1);
        if off < s.len() {
            assert(spres_from(s, e, fs, i, off, acc) == spres_from(
                s,
                e,
                fs,
                i + 1,
                off + ev.len() as int,
                vs.take(i + 1),
            ));
        } else {
            // every remaining byte is spoken for, so the encodings of the
            // fields up to the trim point are all empty from here on
            assert(spres_from(s, e, fs, i, off, acc) == i);
            assert(enc_vals(e, vs.take(i)).len() == s.len());
            assert(enc_vals(e, vs.take(i)) =~= s) by {
                assert(forall|x: int|
                    0 <= x < s.len() ==> #[trigger] (enc_vals(e, vs.take(i)) + enc_vals(
                        e,
                        vs.take(p).skip(i),
                    ))[x] == enc_vals(e, vs.take(i))[x]);
            }
        }
    }
}

/// The enc of a longer prefix splits as the enc of a shorter one plus the
/// middle fields.
proof fn lemma_enc_vals_split_take(e: Endian, vs: Seq<Val>, i: int, p: int)
    requires
        0 <= i <= p <= vs.len(),
    ensures
        enc_vals(e, vs.take(p)) == enc_vals(e, vs.take(i)) + enc_vals(e, vs.take(p).skip(i)),
{
    lemma_enc_vals_split(e, vs.take(p), i);
    assert(vs.take(p).take(i) =~= vs.take(i));
}

/// Decoding the trimmed encoding of a conformant value sequence gives
/// every value back: the fields past the trim point take their defaults
/// or are empty, just as they stood.  The count of fields on the wire
/// never passes the trim point, and re-trimming at that count gives the
/// same bytes.
pub proof fn lemma_roundtrip_trim(e: Endian, fs: Seq<FieldDef>, vs: Seq<Val>, p: int)
    requires
        vals_match(fs, vs),
        counts_strict_upto(fs, vs, p),
        forall|j: int| p <= j < fs.len() ==> #[trigger] suppressible(fs[j], vs[j]),
        0 <= p <= fs.len(),
    ensures
        sdecode(enc_vals(e, vs.take(p)), e, fs) == Some(vs),
        0 <= spres(enc_vals(e, vs.take(p)), e, fs) <= p,
        enc_vals(e, vs.take(spres(enc_vals(e, vs.take(p)), e, fs))) == enc_vals(e, vs.take(p)),
{
    assert(vs.take(0) =~= Seq::<Val>::empty());
    assert(enc_vals(e, vs.take(0)) == Seq::<u8>::empty());
    lemma_trim_from(enc_vals(e, vs.take(p)), e, fs, vs, p, 0);
}

} // verus!
