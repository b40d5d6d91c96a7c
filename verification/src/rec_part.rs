//! Part-level records: one part begins with a PIR and ends with a PRR.

use vstd::prelude::*;

use crate::fields::{
    d_cn, d_dn, d_u1, d_u2, d_u4, d_u8, i16_from_bits, i16_to_bits, i32_from_bits, i32_to_bits,
    i64_from_bits, i64_to_bits, i8_from_bits, i8_to_bits, rd_arr_cn, rd_arr_n1, rd_arr_u1,
    rd_arr_u2, rd_arr_u4, rd_arr_vn, rd_cn, rd_dn, rd_u1, rd_u2, rd_u4, rd_u8w, wr_arr_cn,
    wr_arr_n1, wr_arr_u1, wr_arr_u2, wr_arr_u4, wr_arr_vn, wr_cn, wr_dn, wr_u1, wr_u2, wr_u4,
    wr_u8w,
};
use crate::types::{Bn, Cn, Dn, Endian, StdfError, Vn, B1, C1, I1, I2, I4, I8, N1, R4, R8, U1, U2,
    U4, U4E, U8};
use crate::wire::{
    counts_strict_upto, enc_vals, fd, from_i16, from_i32, from_i64, from_i8, lemma_pres_begin,
    lemma_pres_end, lemma_pres_step, lemma_pres_step_arr, lemma_read_begin, lemma_read_end,
    lemma_read_step, lemma_read_step_arr, lemma_read_step_arr_none, lemma_read_step_none,
    lemma_sdecode_match, lemma_sdecode_present, lemma_signed_round_trip, lemma_write_begin,
    lemma_write_end, lemma_write_step, sdecode, sdecode_from, spres, spres_inv, suppressible,
    val_matches_at, vals_match, vnv_wf, Dflt, Elem, FieldDef, FieldKind, Val,
};


verus! {

/// PIR: the Part Information Record, with pair (5, 10).
#[derive(Clone, Debug, PartialEq, Eq)]
pub struct PIR {
    pub head_num: U1,
    pub site_num: U1,
    /// How many leading fields stood on the wire when the record
    /// was decoded; `write` puts exactly these back.
    pub present: usize,
}

impl PIR {
    /// The field layout of the record: wire kind, default, and for
    /// an array the position of its count field.
    pub open spec fn fields() -> Seq<FieldDef> {
        seq![
            fd(FieldKind::KU1, d_u1(None)),
            fd(FieldKind::KU1, d_u1(None)),
        ]
    }

    /// The field values of the record, in declaration order.
    pub open spec fn val_seq(self) -> Seq<Val> {
        seq![
            Val::U1(self.head_num.0),
            Val::U1(self.site_num.0),
        ]
    }

    /// Well-formedness: every value fits its wire layout, arrays are
    /// as long as their count fields say or stand empty past the
    /// wire, and the on-the-wire count covers at most every field.
    pub open spec fn wf(self) -> bool {
        vals_match(Self::fields(), self.val_seq()) && self.present <= 2
    }

    /// Well-formedness is exactly conformance of the values to the
    /// layout, with the on-the-wire count in bounds.
    pub proof fn lemma_wf_is_match(self)
        ensures
            self.wf() == (vals_match(Self::fields(), self.val_seq()) && self.present
                <= Self::fields().len()),
    {
    }

    /// The payload bytes of the record under a byte order: the
    /// fields that stood on the wire, in declaration order; the
    /// absent tail stays off it.
    pub open spec fn enc(self, e: Endian) -> Seq<u8> {
        enc_vals(e, self.val_seq().take(self.present as int))
    }

    /// Every array that stood on the wire is as long as its count
    /// field says, so the record can be framed back onto it.
    pub open spec fn counts_ok(self) -> bool {
        counts_strict_upto(Self::fields(), self.val_seq(), self.present as int)
    }

    /// Every field past the on-the-wire count holds its declared
    /// default or is empty.
    pub open spec fn tail_absent(self) -> bool {
        forall|i: int|
            self.present <= i < Self::fields().len() ==> #[trigger] suppressible(
                Self::fields()[i],
                self.val_seq()[i],
            )
    }

    /// A record decoded off the wire is framed: its on-the-wire
    /// arrays match their counts and its absent fields hold their
    /// defaults.
    pub proof fn lemma_decoded_shape(self, s: Seq<u8>, e: Endian)
        requires
            sdecode(s, e, Self::fields()) == Some(self.val_seq()),
            self.present as int == spres(s, e, Self::fields()),
        ensures
            self.counts_ok(),
            self.tail_absent(),
    {
        lemma_sdecode_present(s, e, Self::fields());
    }

    /// Decodes a record payload: fields in declaration order, trailing
    /// absent fields at their defaults.
    pub fn read(bytes: &[u8], e: Endian) -> (r: Result<PIR, StdfError>)
        ensures
            match r {
                Ok(rec) => sdecode(bytes@, e, Self::fields()) == Some(rec.val_seq())
                    && rec.wf() && rec.present as int == spres(bytes@, e, Self::fields()),
                Err(_) => sdecode(bytes@, e, Self::fields()) is None,
            },
    {
        let ghost s = bytes@;
        let ghost fs = Self::fields();
        let mut off: usize = 0;
        let mut pres: usize = 0;
        let ghost mut acc = Seq::<Val>::empty();
        proof {
            lemma_read_begin(s, e, fs);
            lemma_pres_begin(s, e, fs);
        }
        let ghost off0 = off as int;
        let ghost p0 = pres as int;
        if off < bytes.len() {
            pres = 1;
        }
        let rv_head_num = match rd_u1(bytes, &mut off, e, None) {
            Ok(v) => v,
            Err(er) => {
                proof {
                    lemma_read_step_none(s, e, fs, 0, fd(FieldKind::KU1, d_u1(None)), off0, acc);
                }
                return Err(er);
            },
        };
        proof {
            lemma_read_step(s, e, fs, 0, fd(FieldKind::KU1, d_u1(None)), off0, off as int, acc, Val::U1(rv_head_num));
            lemma_pres_step(s, e, fs, 0, fd(FieldKind::KU1, d_u1(None)), off0, off as int, acc, Val::U1(rv_head_num), p0,
                pres as int);
            acc = acc.push(Val::U1(rv_head_num));
        }
        let ghost off0 = off as int;
        let ghost p0 = pres as int;
        if off < bytes.len() {
            pres = 2;
        }
        let rv_site_num = match rd_u1(bytes, &mut off, e, None) {
            Ok(v) => v,
            Err(er) => {
                proof {
                    lemma_read_step_none(s, e, fs, 1, fd(FieldKind::KU1, d_u1(None)), off0, acc);
                }
                return Err(er);
            },
        };
        proof {
            lemma_read_step(s, e, fs, 1, fd(FieldKind::KU1, d_u1(None)), off0, off as int, acc, Val::U1(rv_site_num));
            lemma_pres_step(s, e, fs, 1, fd(FieldKind::KU1, d_u1(None)), off0, off as int, acc, Val::U1(rv_site_num), p0,
                pres as int);
            acc = acc.push(Val::U1(rv_site_num));
        }
        let rec = PIR {
            head_num: U1(rv_head_num),
            site_num: U1(rv_site_num),
            present: pres,
        };
        proof {
            lemma_read_end(s, e, fs, off as int, acc);
            lemma_pres_end(s, e, fs, off as int, acc, pres as int);
            assert(rec.val_seq() =~= acc);
            lemma_sdecode_match(s, e, fs);
        }
        Ok(rec)
    }

    /// Appends the payload encoding of the record to a buffer.
    pub fn write(&self, out: &mut Vec<u8>, e: Endian)
        requires
            self.wf(),
        ensures
            final(out)@ == old(out)@ + self.enc(e),
    {
        let ghost vs = self.val_seq();
        let ghost kk = self.present as int;
        let keep = self.present;
        proof {
            assert(0 <= kk <= 2);
            lemma_write_begin(e, vs, old(out)@);
        }
        let ghost mid = out@;
        if keep > 0 {
            wr_u1(out, self.head_num.0);
            proof {
                assert(vs[0] == Val::U1(self.head_num.0));
                lemma_write_step(e, vs, 0, old(out)@, mid, out@);
            }
        }
        proof {
            assert(out@ == old(out)@ + enc_vals(e, vs.take(
                if kk > 0 {
                    1int
                } else {
                    kk
                },
            )));
        }
        let ghost mid = out@;
        if keep > 1 {
            wr_u1(out, self.site_num.0);
            proof {
                assert(vs[1] == Val::U1(self.site_num.0));
                lemma_write_step(e, vs, 1, old(out)@, mid, out@);
            }
        }
        proof {
            assert(out@ == old(out)@ + enc_vals(e, vs.take(
                if kk > 1 {
                    2int
                } else {
                    kk
                },
            )));
        }
        proof {
            assert(out@ == old(out)@ + enc_vals(e, vs.take(kk)));
        }
    }
}

/// PRR: the Part Results Record, with pair (5, 20).
#[derive(Clone, Debug, PartialEq, Eq)]
pub struct PRR {
    pub head_num: U1,
    pub site_num: U1,
    pub part_flg: B1,
    pub num_test: U2,
    pub hard_bin: U2,
    pub soft_bin: U2,
    pub x_coord: I2,
    pub y_coord: I2,
    pub test_t: U4,
    pub part_id: Cn,
    pub part_txt: Cn,
    pub part_fix: Bn,
    /// How many leading fields stood on the wire when the record
    /// was decoded; `write` puts exactly these back.
    pub present: usize,
}

impl PRR {
    /// The field layout of the record: wire kind, default, and for
    /// an array the position of its count field.
    pub open spec fn fields() -> Seq<FieldDef> {
        seq![
            fd(FieldKind::KU1, d_u1(None)),
            fd(FieldKind::KU1, d_u1(None)),
            fd(FieldKind::KU1, d_u1(None)),
            fd(FieldKind::KU2, d_u2(None)),
            fd(FieldKind::KU2, d_u2(None)),
            fd(FieldKind::KU2, d_u2(Some(0xffffu16))),
            fd(FieldKind::KU2, d_u2(Some(0x8000u16))),
            fd(FieldKind::KU2, d_u2(Some(0x8000u16))),
            fd(FieldKind::KU4, d_u4(Some(0u32))),
            fd(FieldKind::KCn, d_cn(true)),
            fd(FieldKind::KCn, d_cn(true)),
            fd(FieldKind::KCn, d_cn(true)),
        ]
    }

    /// The field values of the record, in declaration order.
    pub open spec fn val_seq(self) -> Seq<Val> {
        seq![
            Val::U1(self.head_num.0),
            Val::U1(self.site_num.0),
            Val::U1(self.part_flg.0),
            Val::U2(self.num_test.0),
            Val::U2(self.hard_bin.0),
            Val::U2(self.soft_bin.0),
            Val::U2(from_i16(self.x_coord.0)),
            Val::U2(from_i16(self.y_coord.0)),
            Val::U4(self.test_t.0),
            Val::Cn(self.part_id.0@),
            Val::Cn(self.part_txt.0@),
            Val::Cn(self.part_fix.0@),
        ]
    }

    /// Well-formedness: every value fits its wire layout, arrays are
    /// as long as their count fields say or stand empty past the
    /// wire, and the on-the-wire count covers at most every field.
    pub open spec fn wf(self) -> bool {
        vals_match(Self::fields(), self.val_seq()) && self.present <= 12
    }

    /// Well-formedness is exactly conformance of the values to the
    /// layout, with the on-the-wire count in bounds.
    pub proof fn lemma_wf_is_match(self)
        ensures
            self.wf() == (vals_match(Self::fields(), self.val_seq()) && self.present
                <= Self::fields().len()),
    {
    }

    /// The payload bytes of the record under a byte order: the
    /// fields that stood on the wire, in declaration order; the
    /// absent tail stays off it.
    pub open spec fn enc(self, e: Endian) -> Seq<u8> {
        enc_vals(e, self.val_seq().take(self.present as int))
    }

    /// Every array that stood on the wire is as long as its count
    /// field says, so the record can be framed back onto it.
    pub open spec fn counts_ok(self) -> bool {
        counts_strict_upto(Self::fields(), self.val_seq(), self.present as int)
    }

    /// Every field past the on-the-wire count holds its declared
    /// default or is empty.
    pub open spec fn tail_absent(self) -> bool {
        forall|i: int|
            self.present <= i < Self::fields().len() ==> #[trigger] suppressible(
                Self::fields()[i],
                self.val_seq()[i],
            )
    }

    /// A record decoded off the wire is framed: its on-the-wire
    /// arrays match their counts and its absent fields hold their
    /// defaults.
    pub proof fn lemma_decoded_shape(self, s: Seq<u8>, e: Endian)
        requires
            sdecode(s, e, Self::fields()) == Some(self.val_seq()),
            self.present as int == spres(s, e, Self::fields()),
        ensures
            self.counts_ok(),
            self.tail_absent(),
    {
        lemma_sdecode_present(s, e, Self::fields());
    }

    /// Reads fields 0 .. 7 of the record.
    #[verifier::rlimit(100)]
    #[verifier::spinoff_prover]
    fn read_seg0(
        bytes: &[u8],
        off: &mut usize,
        pres: &mut usize,
        e: Endian,
        Ghost(acc0): Ghost<Seq<Val>>,
    ) -> (r: Result<(u8, u8, u8, u16, u16, u16, u16), StdfError>)
        requires
            *old(off) <= bytes@.len(),
            *old(pres) <= 0,
            acc0.len() == 0,
            sdecode(bytes@, e, Self::fields()) == sdecode_from(
                bytes@, e, Self::fields(), 0, *old(off) as int, acc0,
            ),
            spres_inv(bytes@, e, Self::fields(), 0, *old(off) as int, acc0,
                *old(pres) as int),
        ensures
            *final(off) <= bytes@.len(),
            *final(pres) <= 7,
            match r {
                Ok(t) => sdecode(bytes@, e, Self::fields()) == sdecode_from(
                    bytes@, e, Self::fields(), 7, *final(off) as int,
                    acc0.push(Val::U1(t.0)).push(Val::U1(t.1)).push(Val::U1(t.2)).push(Val::U2(t.3)).push(Val::U2(t.4)).push(Val::U2(t.5)).push(Val::U2(t.6)),
                ) && spres_inv(bytes@, e, Self::fields(), 7, *final(off) as int,
                    acc0.push(Val::U1(t.0)).push(Val::U1(t.1)).push(Val::U1(t.2)).push(Val::U2(t.3)).push(Val::U2(t.4)).push(Val::U2(t.5)).push(Val::U2(t.6)),
                    *final(pres) as int,
                ),
                Err(_) => sdecode(bytes@, e, Self::fields()) is None,
            },
    {
        let ghost s = bytes@;
        let ghost fs = Self::fields();
        let ghost mut acc = acc0;
        let ghost off0 = *off as int;
        let ghost p0 = *pres as int;
        if *off < bytes.len() {
            *pres = 1;
        }
        let rv_head_num = match rd_u1(bytes, off, e, None) {
            Ok(v) => v,
            Err(er) => {
                proof {
                    lemma_read_step_none(s, e, fs, 0, fd(FieldKind::KU1, d_u1(None)), off0, acc);
                }
                return Err(er);
            },
        };
        proof {
            lemma_read_step(s, e, fs, 0, fd(FieldKind::KU1, d_u1(None)), off0, *off as int, acc, Val::U1(rv_head_num));
            lemma_pres_step(s, e, fs, 0, fd(FieldKind::KU1, d_u1(None)), off0, *off as int, acc, Val::U1(rv_head_num), p0,
                *pres as int);
            acc = acc.push(Val::U1(rv_head_num));
        }
        let ghost off0 = *off as int;
        let ghost p0 = *pres as int;
        if *off < bytes.len() {
            *pres = 2;
        }
        let rv_site_num = match rd_u1(bytes, off, e, None) {
            Ok(v) => v,
            Err(er) => {
                proof {
                    lemma_read_step_none(s, e, fs, 1, fd(FieldKind::KU1, d_u1(None)), off0, acc);
                }
                return Err(er);
            },
        };
        proof {
            lemma_read_step(s, e, fs, 1, fd(FieldKind::KU1, d_u1(None)), off0, *off as int, acc, Val::U1(rv_site_num));
            lemma_pres_step(s, e, fs, 1, fd(FieldKind::KU1, d_u1(None)), off0, *off as int, acc, Val::U1(rv_site_num), p0,
                *pres as int);
            acc = acc.push(Val::U1(rv_site_num));
        }
        let ghost off0 = *off as int;
        let ghost p0 = *pres as int;
        if *off < bytes.len() {
            *pres = 3;
        }
        let rv_part_flg = match rd_u1(bytes, off, e, None) {
            Ok(v) => v,
            Err(er) => {
                proof {
                    lemma_read_step_none(s, e, fs, 2, fd(FieldKind::KU1, d_u1(None)), off0, acc);
                }
                return Err(er);
            },
        };
        proof {
            lemma_read_step(s, e, fs, 2, fd(FieldKind::KU1, d_u1(None)), off0, *off as int, acc, Val::U1(rv_part_flg));
            lemma_pres_step(s, e, fs, 2, fd(FieldKind::KU1, d_u1(None)), off0, *off as int, acc, Val::U1(rv_part_flg), p0,
                *pres as int);
            acc = acc.push(Val::U1(rv_part_flg));
        }
        let ghost off0 = *off as int;
        let ghost p0 = *pres as int;
        if *off < bytes.len() {
            *pres = 4;
        }
        let rv_num_test = match rd_u2(bytes, off, e, None) {
            Ok(v) => v,
            Err(er) => {
                proof {
                    lemma_read_step_none(s, e, fs, 3, fd(FieldKind::KU2, d_u2(None)), off0, acc);
                }
                return Err(er);
            },
        };
        proof {
            lemma_read_step(s, e, fs, 3, fd(FieldKind::KU2, d_u2(None)), off0, *off as int, acc, Val::U2(rv_num_test));
            lemma_pres_step(s, e, fs, 3, fd(FieldKind::KU2, d_u2(None)), off0, *off as int, acc, Val::U2(rv_num_test), p0,
                *pres as int);
            acc = acc.push(Val::U2(rv_num_test));
        }
        let ghost off0 = *off as int;
        let ghost p0 = *pres as int;
        if *off < bytes.len() {
            *pres = 5;
        }
        let rv_hard_bin = match rd_u2(bytes, off, e, None) {
            Ok(v) => v,
            Err(er) => {
                proof {
                    lemma_read_step_none(s, e, fs, 4, fd(FieldKind::KU2, d_u2(None)), off0, acc);
                }
                return Err(er);
            },
        };
        proof {
            lemma_read_step(s, e, fs, 4, fd(FieldKind::KU2, d_u2(None)), off0, *off as int, acc, Val::U2(rv_hard_bin));
            lemma_pres_step(s, e, fs, 4, fd(FieldKind::KU2, d_u2(None)), off0, *off as int, acc, Val::U2(rv_hard_bin), p0,
                *pres as int);
            acc = acc.push(Val::U2(rv_hard_bin));
        }
        let ghost off0 = *off as int;
        let ghost p0 = *pres as int;
        if *off < bytes.len() {
            *pres = 6;
        }
        let rv_soft_bin = match rd_u2(bytes, off, e, Some(0xffffu16)) {
            Ok(v) => v,
            Err(er) => {
                proof {
                    lemma_read_step_none(s, e, fs, 5, fd(FieldKind::KU2, d_u2(Some(0xffffu16))), off0, acc);
                }
                return Err(er);
            },
        };
        proof {
            lemma_read_step(s, e, fs, 5, fd(FieldKind::KU2, d_u2(Some(0xffffu16))), off0, *off as int, acc, Val::U2(rv_soft_bin));
            lemma_pres_step(s, e, fs, 5, fd(FieldKind::KU2, d_u2(Some(0xffffu16))), off0, *off as int, acc, Val::U2(rv_soft_bin), p0,
                *pres as int);
            acc = acc.push(Val::U2(rv_soft_bin));
        }
        let ghost off0 = *off as int;
        let ghost p0 = *pres as int;
        if *off < bytes.len() {
            *pres = 7;
        }
        let rv_x_coord = match rd_u2(bytes, off, e, Some(0x8000u16)) {
            Ok(v) => v,
            Err(er) => {
                proof {
                    lemma_read_step_none(s, e, fs, 6, fd(FieldKind::KU2, d_u2(Some(0x8000u16))), off0, acc);
                }
                return Err(er);
            },
        };
        proof {
            lemma_read_step(s, e, fs, 6, fd(FieldKind::KU2, d_u2(Some(0x8000u16))), off0, *off as int, acc, Val::U2(rv_x_coord));
            lemma_pres_step(s, e, fs, 6, fd(FieldKind::KU2, d_u2(Some(0x8000u16))), off0, *off as int, acc, Val::U2(rv_x_coord), p0,
                *pres as int);
            acc = acc.push(Val::U2(rv_x_coord));
        }
        Ok((rv_head_num, rv_site_num, rv_part_flg, rv_num_test, rv_hard_bin, rv_soft_bin, rv_x_coord))
    }

    /// Reads fields 7 .. 12 of the record.
    #[verifier::rlimit(100)]
    #[verifier::spinoff_prover]
    fn read_seg1(
        bytes: &[u8],
        off: &mut usize,
        pres: &mut usize,
        e: Endian,
        Ghost(acc0): Ghost<Seq<Val>>,
    ) -> (r: Result<(u16, u32, Vec<u8>, Vec<u8>, Vec<u8>), StdfError>)
        requires
            *old(off) <= bytes@.len(),
            *old(pres) <= 7,
            acc0.len() == 7,
            sdecode(bytes@, e, Self::fields()) == sdecode_from(
                bytes@, e, Self::fields(), 7, *old(off) as int, acc0,
            ),
            spres_inv(bytes@, e, Self::fields(), 7, *old(off) as int, acc0,
                *old(pres) as int),
        ensures
            *final(off) <= bytes@.len(),
            *final(pres) <= 12,
            match r {
                Ok(t) => sdecode(bytes@, e, Self::fields()) == sdecode_from(
                    bytes@, e, Self::fields(), 12, *final(off) as int,
                    acc0.push(Val::U2(t.0)).push(Val::U4(t.1)).push(Val::Cn(t.2@)).push(Val::Cn(t.3@)).push(Val::Cn(t.4@)),
                ) && spres_inv(bytes@, e, Self::fields(), 12, *final(off) as int,
                    acc0.push(Val::U2(t.0)).push(Val::U4(t.1)).push(Val::Cn(t.2@)).push(Val::Cn(t.3@)).push(Val::Cn(t.4@)),
                    *final(pres) as int,
                ),
                Err(_) => sdecode(bytes@, e, Self::fields()) is None,
            },
    {
        let ghost s = bytes@;
        let ghost fs = Self::fields();
        let ghost mut acc = acc0;
        let ghost off0 = *off as int;
        let ghost p0 = *pres as int;
        if *off < bytes.len() {
            *pres = 8;
        }
        let rv_y_coord = match rd_u2(bytes, off, e, Some(0x8000u16)) {
            Ok(v) => v,
            Err(er) => {
                proof {
                    lemma_read_step_none(s, e, fs, 7, fd(FieldKind::KU2, d_u2(Some(0x8000u16))), off0, acc);
                }
                return Err(er);
            },
        };
        proof {
            lemma_read_step(s, e, fs, 7, fd(FieldKind::KU2, d_u2(Some(0x8000u16))), off0, *off as int, acc, Val::U2(rv_y_coord));
            lemma_pres_step(s, e, fs, 7, fd(FieldKind::KU2, d_u2(Some(0x8000u16))), off0, *off as int, acc, Val::U2(rv_y_coord), p0,
                *pres as int);
            acc = acc.push(Val::U2(rv_y_coord));
        }
        let ghost off0 = *off as int;
        let ghost p0 = *pres as int;
        if *off < bytes.len() {
            *pres = 9;
        }
        let rv_test_t = match rd_u4(bytes, off, e, Some(0u32)) {
            Ok(v) => v,
            Err(er) => {
                proof {
                    lemma_read_step_none(s, e, fs, 8, fd(FieldKind::KU4, d_u4(Some(0u32))), off0, acc);
                }
                return Err(er);
            },
        };
        proof {
            lemma_read_step(s, e, fs, 8, fd(FieldKind::KU4, d_u4(Some(0u32))), off0, *off as int, acc, Val::U4(rv_test_t));
            lemma_pres_step(s, e, fs, 8, fd(FieldKind::KU4, d_u4(Some(0u32))), off0, *off as int, acc, Val::U4(rv_test_t), p0,
                *pres as int);
            acc = acc.push(Val::U4(rv_test_t));
        }
        let ghost off0 = *off as int;
        let ghost p0 = *pres as int;
        if *off < bytes.len() {
            *pres = 10;
        }
        let rv_part_id = match rd_cn(bytes, off, e, true) {
            Ok(v) => v,
            Err(er) => {
                proof {
                    lemma_read_step_none(s, e, fs, 9, fd(FieldKind::KCn, d_cn(true)), off0, acc);
                }
                return Err(er);
            },
        };
        proof {
            lemma_read_step(s, e, fs, 9, fd(FieldKind::KCn, d_cn(true)), off0, *off as int, acc, Val::Cn(rv_part_id@));
            lemma_pres_step(s, e, fs, 9, fd(FieldKind::KCn, d_cn(true)), off0, *off as int, acc, Val::Cn(rv_part_id@), p0,
                *pres as int);
            acc = acc.push(Val::Cn(rv_part_id@));
        }
        let ghost off0 = *off as int;
        let ghost p0 = *pres as int;
        if *off < bytes.len() {
            *pres = 11;
        }
        let rv_part_txt = match rd_cn(bytes, off, e, true) {
            Ok(v) => v,
            Err(er) => {
                proof {
                    lemma_read_step_none(s, e, fs, 10, fd(FieldKind::KCn, d_cn(true)), off0, acc);
                }
                return Err(er);
            },
        };
        proof {
            lemma_read_step(s, e, fs, 10, fd(FieldKind::KCn, d_cn(true)), off0, *off as int, acc, Val::Cn(rv_part_txt@));
            lemma_pres_step(s, e, fs, 10, fd(FieldKind::KCn, d_cn(true)), off0, *off as int, acc, Val::Cn(rv_part_txt@), p0,
                *pres as int);
            acc = acc.push(Val::Cn(rv_part_txt@));
        }
        let ghost off0 = *off as int;
        let ghost p0 = *pres as int;
        if *off < bytes.len() {
            *pres = 12;
        }
        let rv_part_fix = match rd_cn(bytes, off, e, true) {
            Ok(v) => v,
            Err(er) => {
                proof {
                    lemma_read_step_none(s, e, fs, 11, fd(FieldKind::KCn, d_cn(true)), off0, acc);
                }
                return Err(er);
            },
        };
        proof {
            lemma_read_step(s, e, fs, 11, fd(FieldKind::KCn, d_cn(true)), off0, *off as int, acc, Val::Cn(rv_part_fix@));
            lemma_pres_step(s, e, fs, 11, fd(FieldKind::KCn, d_cn(true)), off0, *off as int, acc, Val::Cn(rv_part_fix@), p0,
                *pres as int);
            acc = acc.push(Val::Cn(rv_part_fix@));
        }
        Ok((rv_y_coord, rv_test_t, rv_part_id, rv_part_txt, rv_part_fix))
    }

    /// Decodes a record payload: fields in declaration order, trailing
    /// absent fields at their defaults.
    #[verifier::rlimit(100)]
    #[verifier::spinoff_prover]
    pub fn read(bytes: &[u8], e: Endian) -> (r: Result<PRR, StdfError>)
        ensures
            match r {
                Ok(rec) => sdecode(bytes@, e, Self::fields()) == Some(rec.val_seq())
                    && rec.wf() && rec.present as int == spres(bytes@, e, Self::fields()),
                Err(_) => sdecode(bytes@, e, Self::fields()) is None,
            },
    {
        let ghost s = bytes@;
        let ghost fs = Self::fields();
        let mut off: usize = 0;
        let mut pres: usize = 0;
        proof {
            lemma_read_begin(s, e, fs);
            lemma_pres_begin(s, e, fs);
        }
        let ghost acc_0 = Seq::<Val>::empty();
        let t0 = match Self::read_seg0(bytes, &mut off, &mut pres, e, Ghost(acc_0)) {
            Ok(t) => t,
            Err(er) => {
                return Err(er);
            },
        };
        let ghost acc_1 = acc_0.push(Val::U1(t0.0)).push(Val::U1(t0.1)).push(Val::U1(t0.2)).push(Val::U2(t0.3)).push(Val::U2(t0.4)).push(Val::U2(t0.5)).push(Val::U2(t0.6));
        let t1 = match Self::read_seg1(bytes, &mut off, &mut pres, e, Ghost(acc_1)) {
            Ok(t) => t,
            Err(er) => {
                return Err(er);
            },
        };
        let ghost acc_2 = acc_1.push(Val::U2(t1.0)).push(Val::U4(t1.1)).push(Val::Cn(t1.2@)).push(Val::Cn(t1.3@)).push(Val::Cn(t1.4@));
        let rec = PRR {
            head_num: U1(t0.0),
            site_num: U1(t0.1),
            part_flg: B1(t0.2),
            num_test: U2(t0.3),
            hard_bin: U2(t0.4),
            soft_bin: U2(t0.5),
            x_coord: I2(i16_from_bits(t0.6)),
            y_coord: I2(i16_from_bits(t1.0)),
            test_t: U4(t1.1),
            part_id: Cn(t1.2),
            part_txt: Cn(t1.3),
            part_fix: Bn(t1.4),
            present: pres,
        };
        proof {
            lemma_signed_round_trip();
            lemma_read_end(s, e, fs, off as int, acc_2);
            lemma_pres_end(s, e, fs, off as int, acc_2, pres as int);
            Self::lemma_val_seq_unfold(rec);
            lemma_sdecode_match(s, e, fs);
        }
        Ok(rec)
    }

    /// The field values, written out as the pushes the decoder makes.
    #[verifier::rlimit(100)]
    #[verifier::spinoff_prover]
    proof fn lemma_val_seq_unfold(rec: PRR)
        ensures
            rec.val_seq() == Seq::<Val>::empty()
                .push(Val::U1(rec.head_num.0))
                .push(Val::U1(rec.site_num.0))
                .push(Val::U1(rec.part_flg.0))
                .push(Val::U2(rec.num_test.0))
                .push(Val::U2(rec.hard_bin.0))
                .push(Val::U2(rec.soft_bin.0))
                .push(Val::U2(from_i16(rec.x_coord.0)))
                .push(Val::U2(from_i16(rec.y_coord.0)))
                .push(Val::U4(rec.test_t.0))
                .push(Val::Cn(rec.part_id.0@))
                .push(Val::Cn(rec.part_txt.0@))
                .push(Val::Cn(rec.part_fix.0@))
            ,
    {
        assert(rec.val_seq() =~= Seq::<Val>::empty()
            .push(Val::U1(rec.head_num.0))
            .push(Val::U1(rec.site_num.0))
            .push(Val::U1(rec.part_flg.0))
            .push(Val::U2(rec.num_test.0))
            .push(Val::U2(rec.hard_bin.0))
            .push(Val::U2(rec.soft_bin.0))
            .push(Val::U2(from_i16(rec.x_coord.0)))
            .push(Val::U2(from_i16(rec.y_coord.0)))
            .push(Val::U4(rec.test_t.0))
            .push(Val::Cn(rec.part_id.0@))
            .push(Val::Cn(rec.part_txt.0@))
            .push(Val::Cn(rec.part_fix.0@))
        );
    }

    /// Appends the payload encoding of the record to a buffer.
    #[verifier::rlimit(100)]
    #[verifier::spinoff_prover]
    pub fn write(&self, out: &mut Vec<u8>, e: Endian)
        requires
            self.wf(),
        ensures
            final(out)@ == old(out)@ + self.enc(e),
    {
        let ghost vs = self.val_seq();
        let ghost kk = self.present as int;
        let keep = self.present;
        proof {
            assert(0 <= kk <= 12);
            lemma_write_begin(e, vs, old(out)@);
        }
        let ghost mid = out@;
        if keep > 0 {
            wr_u1(out, self.head_num.0);
            proof {
                assert(vs[0] == Val::U1(self.head_num.0));
                lemma_write_step(e, vs, 0, old(out)@, mid, out@);
            }
        }
        proof {
            assert(out@ == old(out)@ + enc_vals(e, vs.take(
                if kk > 0 {
                    1int
                } else {
                    kk
                },
            )));
        }
        let ghost mid = out@;
        if keep > 1 {
            wr_u1(out, self.site_num.0);
            proof {
                assert(vs[1] == Val::U1(self.site_num.0));
                lemma_write_step(e, vs, 1, old(out)@, mid, out@);
            }
        }
        proof {
            assert(out@ == old(out)@ + enc_vals(e, vs.take(
                if kk > 1 {
                    2int
                } else {
                    kk
                },
            )));
        }
        let ghost mid = out@;
        if keep > 2 {
            wr_u1(out, self.part_flg.0);
            proof {
                assert(vs[2] == Val::U1(self.part_flg.0));
                lemma_write_step(e, vs, 2, old(out)@, mid, out@);
            }
        }
        proof {
            assert(out@ == old(out)@ + enc_vals(e, vs.take(
                if kk > 2 {
                    3int
                } else {
                    kk
                },
            )));
        }
        let ghost mid = out@;
        if keep > 3 {
            wr_u2(out, e, self.num_test.0);
            proof {
                assert(vs[3] == Val::U2(self.num_test.0));
                lemma_write_step(e, vs, 3, old(out)@, mid, out@);
            }
        }
        proof {
            assert(out@ == old(out)@ + enc_vals(e, vs.take(
                if kk > 3 {
                    4int
                } else {
                    kk
                },
            )));
        }
        let ghost mid = out@;
        if keep > 4 {
            wr_u2(out, e, self.hard_bin.0);
            proof {
                assert(vs[4] == Val::U2(self.hard_bin.0));
                lemma_write_step(e, vs, 4, old(out)@, mid, out@);
            }
        }
        proof {
            assert(out@ == old(out)@ + enc_vals(e, vs.take(
                if kk > 4 {
                    5int
                } else {
                    kk
                },
            )));
        }
        let ghost mid = out@;
        if keep > 5 {
            wr_u2(out, e, self.soft_bin.0);
            proof {
                assert(vs[5] == Val::U2(self.soft_bin.0));
                lemma_write_step(e, vs, 5, old(out)@, mid, out@);
            }
        }
        proof {
            assert(out@ == old(out)@ + enc_vals(e, vs.take(
                if kk > 5 {
                    6int
                } else {
                    kk
                },
            )));
        }
        let ghost mid = out@;
        if keep > 6 {
            wr_u2(out, e, i16_to_bits(self.x_coord.0));
            proof {
                assert(vs[6] == Val::U2(from_i16(self.x_coord.0)));
                lemma_write_step(e, vs, 6, old(out)@, mid, out@);
            }
        }
        proof {
            assert(out@ == old(out)@ + enc_vals(e, vs.take(
                if kk > 6 {
                    7int
                } else {
                    kk
                },
            )));
        }
        let ghost mid = out@;
        if keep > 7 {
            wr_u2(out, e, i16_to_bits(self.y_coord.0));
            proof {
                assert(vs[7] == Val::U2(from_i16(self.y_coord.0)));
                lemma_write_step(e, vs, 7, old(out)@, mid, out@);
            }
        }
        proof {
            assert(out@ == old(out)@ + enc_vals(e, vs.take(
                if kk > 7 {
                    8int
                } else {
                    kk
                },
            )));
        }
        let ghost mid = out@;
        if keep > 8 {
            wr_u4(out, e, self.test_t.0);
            proof {
                assert(vs[8] == Val::U4(self.test_t.0));
                lemma_write_step(e, vs, 8, old(out)@, mid, out@);
            }
        }
        proof {
            assert(out@ == old(out)@ + enc_vals(e, vs.take(
                if kk > 8 {
                    9int
                } else {
                    kk
                },
            )));
        }
        let ghost mid = out@;
        if keep > 9 {
            proof {
                assert(val_matches_at(Self::fields(), vs, 9));
            }
            wr_cn(out, self.part_id.0.as_slice());
            proof {
                assert(vs[9] == Val::Cn(self.part_id.0@));
                lemma_write_step(e, vs, 9, old(out)@, mid, out@);
            }
        }
        proof {
            assert(out@ == old(out)@ + enc_vals(e, vs.take(
                if kk > 9 {
                    10int
                } else {
                    kk
                },
            )));
        }
        let ghost mid = out@;
        if keep > 10 {
            proof {
                assert(val_matches_at(Self::fields(), vs, 10));
            }
            wr_cn(out, self.part_txt.0.as_slice());
            proof {
                assert(vs[10] == Val::Cn(self.part_txt.0@));
                lemma_write_step(e, vs, 10, old(out)@, mid, out@);
            }
        }
        proof {
            assert(out@ == old(out)@ + enc_vals(e, vs.take(
                if kk > 10 {
                    11int
                } else {
                    kk
                },
            )));
        }
        let ghost mid = out@;
        if keep > 11 {
            proof {
                assert(val_matches_at(Self::fields(), vs, 11));
            }
            wr_cn(out, self.part_fix.0.as_slice());
            proof {
                assert(vs[11] == Val::Cn(self.part_fix.0@));
                lemma_write_step(e, vs, 11, old(out)@, mid, out@);
            }
        }
        proof {
            assert(out@ == old(out)@ + enc_vals(e, vs.take(
                if kk > 11 {
                    12int
                } else {
                    kk
                },
            )));
        }
        proof {
            assert(out@ == old(out)@ + enc_vals(e, vs.take(kk)));
        }
    }
}

} // verus!

verus! {

/// The part flag stands third in the part-results record's values.
pub proof fn lemma_prr_part_flg_val(rec: PRR)
    ensures
        rec.val_seq().len() == 12,
        rec.val_seq()[2] == Val::U1(rec.part_flg.0),
{
}

} // verus!
