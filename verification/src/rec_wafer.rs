//! Wafer-level records: wafer information, results, and configuration.

use vstd::prelude::*;

use crate::fields::{
    d_cn, d_dn, d_u1, d_u2, d_u4, d_u8, i16_from_bits, i16_to_bits, i32_from_bits, i32_to_bits,
    i64_from_bits, i64_to_bits, i8_from_bits, i8_to_bits, rd_arr_cn, rd_arr_n1, rd_arr_u1,
    rd_arr_u2, rd_arr_u4, rd_arr_vn, rd_cn, rd_dn, rd_u1, rd_u2, rd_u4, rd_u8w, wr_arr_cn,
    wr_arr_n1, wr_arr_u1, wr_arr_u2, wr_arr_u4, wr_arr_vn, wr_cn, wr_dn, wr_u1, wr_u2, wr_u4,
    wr_u8w,
};
use crate::types::{Bn, Cn, Dn, Endian, StdfError, Vn, B1, C1, I1, I2, I4, I8, N1, R4, R8, U1, U2,
    U4, U4E, U8};
use crate::wire::{
    counts_strict_upto, enc_vals, fd, from_i16, from_i32, from_i64, from_i8, lemma_pres_begin,
    lemma_pres_end, lemma_pres_step, lemma_pres_step_arr, lemma_read_begin, lemma_read_end,
    lemma_read_step, lemma_read_step_arr, lemma_read_step_arr_none, lemma_read_step_none,
    lemma_sdecode_match, lemma_sdecode_present, lemma_signed_round_trip, lemma_write_begin,
    lemma_write_end, lemma_write_step, sdecode, sdecode_from, spres, spres_inv, suppressible,
    val_matches_at, vals_match, vnv_wf, Dflt, Elem, FieldDef, FieldKind, Val,
};


verus! {

/// WIR: the Wafer Information Record, with pair (2, 10).
#[derive(Clone, Debug, PartialEq, Eq)]
pub struct WIR {
    pub head_num: U1,
    pub site_grp: U1,
    pub start_t: U4E,
    pub wafer_id: Cn,
    /// How many leading fields stood on the wire when the record
    /// was decoded; `write` puts exactly these back.
    pub present: usize,
}

impl WIR {
    /// The field layout of the record: wire kind, default, and for
    /// an array the position of its count field.
    pub open spec fn fields() -> Seq<FieldDef> {
        seq![
            fd(FieldKind::KU1, d_u1(None)),
            fd(FieldKind::KU1, d_u1(Some(255u8))),
            fd(FieldKind::KU4, d_u4(None)),
            fd(FieldKind::KCn, d_cn(true)),
        ]
    }

    /// The field values of the record, in declaration order.
    pub open spec fn val_seq(self) -> Seq<Val> {
        seq![
            Val::U1(self.head_num.0),
            Val::U1(self.site_grp.0),
            Val::U4(self.start_t.0),
            Val::Cn(self.wafer_id.0@),
        ]
    }

    /// Well-formedness: every value fits its wire layout, arrays are
    /// as long as their count fields say or stand empty past the
    /// wire, and the on-the-wire count covers at most every field.
    pub open spec fn wf(self) -> bool {
        vals_match(Self::fields(), self.val_seq()) && self.present <= 4
    }

    /// Well-formedness is exactly conformance of the values to the
    /// layout, with the on-the-wire count in bounds.
    pub proof fn lemma_wf_is_match(self)
        ensures
            self.wf() == (vals_match(Self::fields(), self.val_seq()) && self.present
                <= Self::fields().len()),
    {
    }

    /// The payload bytes of the record under a byte order: the
    /// fields that stood on the wire, in declaration order; the
    /// absent tail stays off it.
    pub open spec fn enc(self, e: Endian) -> Seq<u8> {
        enc_vals(e, self.val_seq().take(self.present as int))
    }

    /// Every array that stood on the wire is as long as its count
    /// field says, so the record can be framed back onto it.
    pub open spec fn counts_ok(self) -> bool {
        counts_strict_upto(Self::fields(), self.val_seq(), self.present as int)
    }

    /// Every field past the on-the-wire count holds its declared
    /// default or is empty.
    pub open spec fn tail_absent(self) -> bool {
        forall|i: int|
            self.present <= i < Self::fields().len() ==> #[trigger] suppressible(
                Self::fields()[i],
                self.val_seq()[i],
            )
    }

    /// A record decoded off the wire is framed: its on-the-wire
    /// arrays match their counts and its absent fields hold their
    /// defaults.
    pub proof fn lemma_decoded_shape(self, s: Seq<u8>, e: Endian)
        requires
            sdecode(s, e, Self::fields()) == Some(self.val_seq()),
            self.present as int == spres(s, e, Self::fields()),
        ensures
            self.counts_ok(),
            self.tail_absent(),
    {
        lemma_sdecode_present(s, e, Self::fields());
    }

    /// Decodes a record payload: fields in declaration order, trailing
    /// absent fields at their defaults.
    pub fn read(bytes: &[u8], e: Endian) -> (r: Result<WIR, StdfError>)
        ensures
            match r {
                Ok(rec) => sdecode(bytes@, e, Self::fields()) == Some(rec.val_seq())
                    && rec.wf() && rec.present as int == spres(bytes@, e, Self::fields()),
                Err(_) => sdecode(bytes@, e, Self::fields()) is None,
            },
    {
        let ghost s = bytes@;
        let ghost fs = Self::fields();
        let mut off: usize = 0;
        let mut pres: usize = 0;
        let ghost mut acc = Seq::<Val>::empty();
        proof {
            lemma_read_begin(s, e, fs);
            lemma_pres_begin(s, e, fs);
        }
        let ghost off0 = off as int;
        let ghost p0 = pres as int;
        if off < bytes.len() {
            pres = 1;
        }
        let rv_head_num = match rd_u1(bytes, &mut off, e, None) {
            Ok(v) => v,
            Err(er) => {
                proof {
                    lemma_read_step_none(s, e, fs, 0, fd(FieldKind::KU1, d_u1(None)), off0, acc);
                }
                return Err(er);
            },
        };
        proof {
            lemma_read_step(s, e, fs, 0, fd(FieldKind::KU1, d_u1(None)), off0, off as int, acc, Val::U1(rv_head_num));
            lemma_pres_step(s, e, fs, 0, fd(FieldKind::KU1, d_u1(None)), off0, off as int, acc, Val::U1(rv_head_num), p0,
                pres as int);
            acc = acc.push(Val::U1(rv_head_num));
        }
        let ghost off0 = off as int;
        let ghost p0 = pres as int;
        if off < bytes.len() {
            pres = 2;
        }
        let rv_site_grp = match rd_u1(bytes, &mut off, e, Some(255u8)) {
            Ok(v) => v,
            Err(er) => {
                proof {
                    lemma_read_step_none(s, e, fs, 1, fd(FieldKind::KU1, d_u1(Some(255u8))), off0, acc);
                }
                return Err(er);
            },
        };
        proof {
            lemma_read_step(s, e, fs, 1, fd(FieldKind::KU1, d_u1(Some(255u8))), off0, off as int, acc, Val::U1(rv_site_grp));
            lemma_pres_step(s, e, fs, 1, fd(FieldKind::KU1, d_u1(Some(255u8))), off0, off as int, acc, Val::U1(rv_site_grp), p0,
                pres as int);
            acc = acc.push(Val::U1(rv_site_grp));
        }
        let ghost off0 = off as int;
        let ghost p0 = pres as int;
        if off < bytes.len() {
            pres = 3;
        }
        let rv_start_t = match rd_u4(bytes, &mut off, e, None) {
            Ok(v) => v,
            Err(er) => {
                proof {
                    lemma_read_step_none(s, e, fs, 2, fd(FieldKind::KU4, d_u4(None)), off0, acc);
                }
                return Err(er);
            },
        };
        proof {
            lemma_read_step(s, e, fs, 2, fd(FieldKind::KU4, d_u4(None)), off0, off as int, acc, Val::U4(rv_start_t));
            lemma_pres_step(s, e, fs, 2, fd(FieldKind::KU4, d_u4(None)), off0, off as int, acc, Val::U4(rv_start_t), p0,
                pres as int);
            acc = acc.push(Val::U4(rv_start_t));
        }
        let ghost off0 = off as int;
        let ghost p0 = pres as int;
        if off < bytes.len() {
            pres = 4;
        }
        let rv_wafer_id = match rd_cn(bytes, &mut off, e, true) {
            Ok(v) => v,
            Err(er) => {
                proof {
                    lemma_read_step_none(s, e, fs, 3, fd(FieldKind::KCn, d_cn(true)), off0, acc);
                }
                return Err(er);
            },
        };
        proof {
            lemma_read_step(s, e, fs, 3, fd(FieldKind::KCn, d_cn(true)), off0, off as int, acc, Val::Cn(rv_wafer_id@));
            lemma_pres_step(s, e, fs, 3, fd(FieldKind::KCn, d_cn(true)), off0, off as int, acc, Val::Cn(rv_wafer_id@), p0,
                pres as int);
            acc = acc.push(Val::Cn(rv_wafer_id@));
        }
        let rec = WIR {
            head_num: U1(rv_head_num),
            site_grp: U1(rv_site_grp),
            start_t: U4E(rv_start_t),
            wafer_id: Cn(rv_wafer_id),
            present: pres,
        };
        proof {
            lemma_read_end(s, e, fs, off as int, acc);
            lemma_pres_end(s, e, fs, off as int, acc, pres as int);
            assert(rec.val_seq() =~= acc);
            lemma_sdecode_match(s, e, fs);
        }
        Ok(rec)
    }

    /// Appends the payload encoding of the record to a buffer.
    pub fn write(&self, out: &mut Vec<u8>, e: Endian)
        requires
            self.wf(),
        ensures
            final(out)@ == old(out)@ + self.enc(e),
    {
        let ghost vs = self.val_seq();
        let ghost kk = self.present as int;
        let keep = self.present;
        proof {
            assert(0 <= kk <= 4);
            lemma_write_begin(e, vs, old(out)@);
        }
        let ghost mid = out@;
        if keep > 0 {
            wr_u1(out, self.head_num.0);
            proof {
                assert(vs[0] == Val::U1(self.head_num.0));
                lemma_write_step(e, vs, 0, old(out)@, mid, out@);
            }
        }
        proof {
            assert(out@ == old(out)@ + enc_vals(e, vs.take(
                if kk > 0 {
                    1int
                } else {
                    kk
                },
            )));
        }
        let ghost mid = out@;
        if keep > 1 {
            wr_u1(out, self.site_grp.0);
            proof {
                assert(vs[1] == Val::U1(self.site_grp.0));
                lemma_write_step(e, vs, 1, old(out)@, mid, out@);
            }
        }
        proof {
            assert(out@ == old(out)@ + enc_vals(e, vs.take(
                if kk > 1 {
                    2int
                } else {
                    kk
                },
            )));
        }
        let ghost mid = out@;
        if keep > 2 {
            wr_u4(out, e, self.start_t.0);
            proof {
                assert(vs[2] == Val::U4(self.start_t.0));
                lemma_write_step(e, vs, 2, old(out)@, mid, out@);
            }
        }
        proof {
            assert(out@ == old(out)@ + enc_vals(e, vs.take(
                if kk > 2 {
                    3int
                } else {
                    kk
                },
            )));
        }
        let ghost mid = out@;
        if keep > 3 {
            proof {
                assert(val_matches_at(Self::fields(), vs, 3));
            }
            wr_cn(out, self.wafer_id.0.as_slice());
            proof {
                assert(vs[3] == Val::Cn(self.wafer_id.0@));
                lemma_write_step(e, vs, 3, old(out)@, mid, out@);
            }
        }
        proof {
            assert(out@ == old(out)@ + enc_vals(e, vs.take(
                if kk > 3 {
                    4int
                } else {
                    kk
                },
            )));
        }
        proof {
            assert(out@ == old(out)@ + enc_vals(e, vs.take(kk)));
        }
    }
}

/// WRR: the Wafer Results Record, with pair (2, 20).
#[derive(Clone, Debug, PartialEq, Eq)]
pub struct WRR {
    pub head_num: U1,
    pub site_grp: U1,
    pub finish_t: U4E,
    pub part_cnt: U4,
    pub rtst_cnt: U4,
    pub abrt_cnt: U4,
    pub good_cnt: U4,
    pub func_cnt: U4,
    pub wafer_id: Cn,
    pub fabwf_id: Cn,
    pub frame_id: Cn,
    pub mask_id: Cn,
    pub usr_desc: Cn,
    pub exc_desc: Cn,
    /// How many leading fields stood on the wire when the record
    /// was decoded; `write` puts exactly these back.
    pub present: usize,
}

impl WRR {
    /// The field layout of the record: wire kind, default, and for
    /// an array the position of its count field.
    pub open spec fn fields() -> Seq<FieldDef> {
        seq![
            fd(FieldKind::KU1, d_u1(None)),
            fd(FieldKind::KU1, d_u1(Some(255u8))),
            fd(FieldKind::KU4, d_u4(None)),
            fd(FieldKind::KU4, d_u4(None)),
            fd(FieldKind::KU4, d_u4(Some(0xffff_ffffu32))),
            fd(FieldKind::KU4, d_u4(Some(0xffff_ffffu32))),
            fd(FieldKind::KU4, d_u4(Some(0xffff_ffffu32))),
            fd(FieldKind::KU4, d_u4(Some(0xffff_ffffu32))),
            fd(FieldKind::KCn, d_cn(true)),
            fd(FieldKind::KCn, d_cn(true)),
            fd(FieldKind::KCn, d_cn(true)),
            fd(FieldKind::KCn, d_cn(true)),
            fd(FieldKind::KCn, d_cn(true)),
            fd(FieldKind::KCn, d_cn(true)),
        ]
    }

    /// The field values of the record, in declaration order.
    pub open spec fn val_seq(self) -> Seq<Val> {
        seq![
            Val::U1(self.head_num.0),
            Val::U1(self.site_grp.0),
            Val::U4(self.finish_t.0),
            Val::U4(self.part_cnt.0),
            Val::U4(self.rtst_cnt.0),
            Val::U4(self.abrt_cnt.0),
            Val::U4(self.good_cnt.0),
            Val::U4(self.func_cnt.0),
            Val::Cn(self.wafer_id.0@),
            Val::Cn(self.fabwf_id.0@),
            Val::Cn(self.frame_id.0@),
            Val::Cn(self.mask_id.0@),
            Val::Cn(self.usr_desc.0@),
            Val::Cn(self.exc_desc.0@),
        ]
    }

    /// Well-formedness: every value fits its wire layout, arrays are
    /// as long as their count fields say or stand empty past the
    /// wire, and the on-the-wire count covers at most every field.
    pub open spec fn wf(self) -> bool {
        vals_match(Self::fields(), self.val_seq()) && self.present <= 14
    }

    /// Well-formedness is exactly conformance of the values to the
    /// layout, with the on-the-wire count in bounds.
    pub proof fn lemma_wf_is_match(self)
        ensures
            self.wf() == (vals_match(Self::fields(), self.val_seq()) && self.present
                <= Self::fields().len()),
    {
    }

    /// The payload bytes of the record under a byte order: the
    /// fields that stood on the wire, in declaration order; the
    /// absent tail stays off it.
    pub open spec fn enc(self, e: Endian) -> Seq<u8> {
        enc_vals(e, self.val_seq().take(self.present as int))
    }

    /// Every array that stood on the wire is as long as its count
    /// field says, so the record can be framed back onto it.
    pub open spec fn counts_ok(self) -> bool {
        counts_strict_upto(Self::fields(), self.val_seq(), self.present as int)
    }

    /// Every field past the on-the-wire count holds its declared
    /// default or is empty.
    pub open spec fn tail_absent(self) -> bool {
        forall|i: int|
            self.present <= i < Self::fields().len() ==> #[trigger] suppressible(
                Self::fields()[i],
                self.val_seq()[i],
            )
    }

    /// A record decoded off the wire is framed: its on-the-wire
    /// arrays match their counts and its absent fields hold their
    /// defaults.
    pub proof fn lemma_decoded_shape(self, s: Seq<u8>, e: Endian)
        requires
            sdecode(s, e, Self::fields()) == Some(self.val_seq()),
            self.present as int == spres(s, e, Self::fields()),
        ensures
            self.counts_ok(),
            self.tail_absent(),
    {
        lemma_sdecode_present(s, e, Self::fields());
    }

    /// Reads fields 0 .. 7 of the record.
    #[verifier::rlimit(100)]
    #[verifier::spinoff_prover]
    fn read_seg0(
        bytes: &[u8],
        off: &mut usize,
        pres: &mut usize,
        e: Endian,
        Ghost(acc0): Ghost<Seq<Val>>,
    ) -> (r: Result<(u8, u8, u32, u32, u32, u32, u32), StdfError>)
        requires
            *old(off) <= bytes@.len(),
            *old(pres) <= 0,
            acc0.len() == 0,
            sdecode(bytes@, e, Self::fields()) == sdecode_from(
                bytes@, e, Self::fields(), 0, *old(off) as int, acc0,
            ),
            spres_inv(bytes@, e, Self::fields(), 0, *old(off) as int, acc0,
                *old(pres) as int),
        ensures
            *final(off) <= bytes@.len(),
            *final(pres) <= 7,
            match r {
                Ok(t) => sdecode(bytes@, e, Self::fields()) == sdecode_from(
                    bytes@, e, Self::fields(), 7, *final(off) as int,
                    acc0.push(Val::U1(t.0)).push(Val::U1(t.1)).push(Val::U4(t.2)).push(Val::U4(t.3)).push(Val::U4(t.4)).push(Val::U4(t.5)).push(Val::U4(t.6)),
                ) && spres_inv(bytes@, e, Self::fields(), 7, *final(off) as int,
                    acc0.push(Val::U1(t.0)).push(Val::U1(t.1)).push(Val::U4(t.2)).push(Val::U4(t.3)).push(Val::U4(t.4)).push(Val::U4(t.5)).push(Val::U4(t.6)),
                    *final(pres) as int,
                ),
                Err(_) => sdecode(bytes@, e, Self::fields()) is None,
            },
    {
        let ghost s = bytes@;
        let ghost fs = Self::fields();
        let ghost mut acc = acc0;
        let ghost off0 = *off as int;
        let ghost p0 = *pres as int;
        if *off < bytes.len() {
            *pres = 1;
        }
        let rv_head_num = match rd_u1(bytes, off, e, None) {
            Ok(v) => v,
            Err(er) => {
                proof {
                    lemma_read_step_none(s, e, fs, 0, fd(FieldKind::KU1, d_u1(None)), off0, acc);
                }
                return Err(er);
            },
        };
        proof {
            lemma_read_step(s, e, fs, 0, fd(FieldKind::KU1, d_u1(None)), off0, *off as int, acc, Val::U1(rv_head_num));
            lemma_pres_step(s, e, fs, 0, fd(FieldKind::KU1, d_u1(None)), off0, *off as int, acc, Val::U1(rv_head_num), p0,
                *pres as int);
            acc = acc.push(Val::U1(rv_head_num));
        }
        let ghost off0 = *off as int;
        let ghost p0 = *pres as int;
        if *off < bytes.len() {
            *pres = 2;
        }
        let rv_site_grp = match rd_u1(bytes, off, e, Some(255u8)) {
            Ok(v) => v,
            Err(er) => {
                proof {
                    lemma_read_step_none(s, e, fs, 1, fd(FieldKind::KU1, d_u1(Some(255u8))), off0, acc);
                }
                return Err(er);
            },
        };
        proof {
            lemma_read_step(s, e, fs, 1, fd(FieldKind::KU1, d_u1(Some(255u8))), off0, *off as int, acc, Val::U1(rv_site_grp));
            lemma_pres_step(s, e, fs, 1, fd(FieldKind::KU1, d_u1(Some(255u8))), off0, *off as int, acc, Val::U1(rv_site_grp), p0,
                *pres as int);
            acc = acc.push(Val::U1(rv_site_grp));
        }
        let ghost off0 = *off as int;
        let ghost p0 = *pres as int;
        if *off < bytes.len() {
            *pres = 3;
        }
        let rv_finish_t = match rd_u4(bytes, off, e, None) {
            Ok(v) => v,
            Err(er) => {
                proof {
                    lemma_read_step_none(s, e, fs, 2, fd(FieldKind::KU4, d_u4(None)), off0, acc);
                }
                return Err(er);
            },
        };
        proof {
            lemma_read_step(s, e, fs, 2, fd(FieldKind::KU4, d_u4(None)), off0, *off as int, acc, Val::U4(rv_finish_t));
            lemma_pres_step(s, e, fs, 2, fd(FieldKind::KU4, d_u4(None)), off0, *off as int, acc, Val::U4(rv_finish_t), p0,
                *pres as int);
            acc = acc.push(Val::U4(rv_finish_t));
        }
        let ghost off0 = *off as int;
        let ghost p0 = *pres as int;
        if *off < bytes.len() {
            *pres = 4;
        }
        let rv_part_cnt = match rd_u4(bytes, off, e, None) {
            Ok(v) => v,
            Err(er) => {
                proof {
                    lemma_read_step_none(s, e, fs, 3, fd(FieldKind::KU4, d_u4(None)), off0, acc);
                }
                return Err(er);
            },
        };
        proof {
            lemma_read_step(s, e, fs, 3, fd(FieldKind::KU4, d_u4(None)), off0, *off as int, acc, Val::U4(rv_part_cnt));
            lemma_pres_step(s, e, fs, 3, fd(FieldKind::KU4, d_u4(None)), off0, *off as int, acc, Val::U4(rv_part_cnt), p0,
                *pres as int);
            acc = acc.push(Val::U4(rv_part_cnt));
        }
        let ghost off0 = *off as int;
        let ghost p0 = *pres as int;
        if *off < bytes.len() {
            *pres = 5;
        }
        let rv_rtst_cnt = match rd_u4(bytes, off, e, Some(0xffff_ffffu32)) {
            Ok(v) => v,
            Err(er) => {
                proof {
                    lemma_read_step_none(s, e, fs, 4, fd(FieldKind::KU4, d_u4(Some(0xffff_ffffu32))), off0, acc);
                }
                return Err(er);
            },
        };
        proof {
            lemma_read_step(s, e, fs, 4, fd(FieldKind::KU4, d_u4(Some(0xffff_ffffu32))), off0, *off as int, acc, Val::U4(rv_rtst_cnt));
            lemma_pres_step(s, e, fs, 4, fd(FieldKind::KU4, d_u4(Some(0xffff_ffffu32))), off0, *off as int, acc, Val::U4(rv_rtst_cnt), p0,
                *pres as int);
            acc = acc.push(Val::U4(rv_rtst_cnt));
        }
        let ghost off0 = *off as int;
        let ghost p0 = *pres as int;
        if *off < bytes.len() {
            *pres = 6;
        }
        let rv_abrt_cnt = match rd_u4(bytes, off, e, Some(0xffff_ffffu32)) {
            Ok(v) => v,
            Err(er) => {
                proof {
                    lemma_read_step_none(s, e, fs, 5, fd(FieldKind::KU4, d_u4(Some(0xffff_ffffu32))), off0, acc);
                }
                return Err(er);
            },
        };
        proof {
            lemma_read_step(s, e, fs, 5, fd(FieldKind::KU4, d_u4(Some(0xffff_ffffu32))), off0, *off as int, acc, Val::U4(rv_abrt_cnt));
            lemma_pres_step(s, e, fs, 5, fd(FieldKind::KU4, d_u4(Some(0xffff_ffffu32))), off0, *off as int, acc, Val::U4(rv_abrt_cnt), p0,
                *pres as int);
            acc = acc.push(Val::U4(rv_abrt_cnt));
        }
        let ghost off0 = *off as int;
        let ghost p0 = *pres as int;
        if *off < bytes.len() {
            *pres = 7;
        }
        let rv_good_cnt = match rd_u4(bytes, off, e, Some(0xffff_ffffu32)) {
            Ok(v) => v,
            Err(er) => {
                proof {
                    lemma_read_step_none(s, e, fs, 6, fd(FieldKind::KU4, d_u4(Some(0xffff_ffffu32))), off0, acc);
                }
                return Err(er);
            },
        };
        proof {
            lemma_read_step(s, e, fs, 6, fd(FieldKind::KU4, d_u4(Some(0xffff_ffffu32))), off0, *off as int, acc, Val::U4(rv_good_cnt));
            lemma_pres_step(s, e, fs, 6, fd(FieldKind::KU4, d_u4(Some(0xffff_ffffu32))), off0, *off as int, acc, Val::U4(rv_good_cnt), p0,
                *pres as int);
            acc = acc.push(Val::U4(rv_good_cnt));
        }
        Ok((rv_head_num, rv_site_grp, rv_finish_t, rv_part_cnt, rv_rtst_cnt, rv_abrt_cnt, rv_good_cnt))
    }

    /// Reads fields 7 .. 14 of the record.
    #[verifier::rlimit(100)]
    #[verifier::spinoff_prover]
    fn read_seg1(
        bytes: &[u8],
        off: &mut usize,
        pres: &mut usize,
        e: Endian,
        Ghost(acc0): Ghost<Seq<Val>>,
    ) -> (r: Result<(u32, Vec<u8>, Vec<u8>, Vec<u8>, Vec<u8>, Vec<u8>, Vec<u8>), StdfError>)
        requires
            *old(off) <= bytes@.len(),
            *old(pres) <= 7,
            acc0.len() == 7,
            sdecode(bytes@, e, Self::fields()) == sdecode_from(
                bytes@, e, Self::fields(), 7, *old(off) as int, acc0,
            ),
            spres_inv(bytes@, e, Self::fields(), 7, *old(off) as int, acc0,
                *old(pres) as int),
        ensures
            *final(off) <= bytes@.len(),
            *final(pres) <= 14,
            match r {
                Ok(t) => sdecode(bytes@, e, Self::fields()) == sdecode_from(
                    bytes@, e, Self::fields(), 14, *final(off) as int,
                    acc0.push(Val::U4(t.0)).push(Val::Cn(t.1@)).push(Val::Cn(t.2@)).push(Val::Cn(t.3@)).push(Val::Cn(t.4@)).push(Val::Cn(t.5@)).push(Val::Cn(t.6@)),
                ) && spres_inv(bytes@, e, Self::fields(), 14, *final(off) as int,
                    acc0.push(Val::U4(t.0)).push(Val::Cn(t.1@)).push(Val::Cn(t.2@)).push(Val::Cn(t.3@)).push(Val::Cn(t.4@)).push(Val::Cn(t.5@)).push(Val::Cn(t.6@)),
                    *final(pres) as int,
                ),
                Err(_) => sdecode(bytes@, e, Self::fields()) is None,
            },
    {
        let ghost s = bytes@;
        let ghost fs = Self::fields();
        let ghost mut acc = acc0;
        let ghost off0 = *off as int;
        let ghost p0 = *pres as int;
        if *off < bytes.len() {
            *pres = 8;
        }
        let rv_func_cnt = match rd_u4(bytes, off, e, Some(0xffff_ffffu32)) {
            Ok(v) => v,
            Err(er) => {
                proof {
                    lemma_read_step_none(s, e, fs, 7, fd(FieldKind::KU4, d_u4(Some(0xffff_ffffu32))), off0, acc);
                }
                return Err(er);
            },
        };
        proof {
            lemma_read_step(s, e, fs, 7, fd(FieldKind::KU4, d_u4(Some(0xffff_ffffu32))), off0, *off as int, acc, Val::U4(rv_func_cnt));
            lemma_pres_step(s, e, fs, 7, fd(FieldKind::KU4, d_u4(Some(0xffff_ffffu32))), off0, *off as int, acc, Val::U4(rv_func_cnt), p0,
                *pres as int);
            acc = acc.push(Val::U4(rv_func_cnt));
        }
        let ghost off0 = *off as int;
        let ghost p0 = *pres as int;
        if *off < bytes.len() {
            *pres = 9;
        }
        let rv_wafer_id = match rd_cn(bytes, off, e, true) {
            Ok(v) => v,
            Err(er) => {
                proof {
                    lemma_read_step_none(s, e, fs, 8, fd(FieldKind::KCn, d_cn(true)), off0, acc);
                }
                return Err(er);
            },
        };
        proof {
            lemma_read_step(s, e, fs, 8, fd(FieldKind::KCn, d_cn(true)), off0, *off as int, acc, Val::Cn(rv_wafer_id@));
            lemma_pres_step(s, e, fs, 8, fd(FieldKind::KCn, d_cn(true)), off0, *off as int, acc, Val::Cn(rv_wafer_id@), p0,
                *pres as int);
            acc = acc.push(Val::Cn(rv_wafer_id@));
        }
        let ghost off0 = *off as int;
        let ghost p0 = *pres as int;
        if *off < bytes.len() {
            *pres = 10;
        }
        let rv_fabwf_id = match rd_cn(bytes, off, e, true) {
            Ok(v) => v,
            Err(er) => {
                proof {
                    lemma_read_step_none(s, e, fs, 9, fd(FieldKind::KCn, d_cn(true)), off0, acc);
                }
                return Err(er);
            },
        };
        proof {
            lemma_read_step(s, e, fs, 9, fd(FieldKind::KCn, d_cn(true)), off0, *off as int, acc, Val::Cn(rv_fabwf_id@));
            lemma_pres_step(s, e, fs, 9, fd(FieldKind::KCn, d_cn(true)), off0, *off as int, acc, Val::Cn(rv_fabwf_id@), p0,
                *pres as int);
            acc = acc.push(Val::Cn(rv_fabwf_id@));
        }
        let ghost off0 = *off as int;
        let ghost p0 = *pres as int;
        if *off < bytes.len() {
            *pres = 11;
        }
        let rv_frame_id = match rd_cn(bytes, off, e, true) {
            Ok(v) => v,
            Err(er) => {
                proof {
                    lemma_read_step_none(s, e, fs, 10, fd(FieldKind::KCn, d_cn(true)), off0, acc);
                }
                return Err(er);
            },
        };
        proof {
            lemma_read_step(s, e, fs, 10, fd(FieldKind::KCn, d_cn(true)), off0, *off as int, acc, Val::Cn(rv_frame_id@));
            lemma_pres_step(s, e, fs, 10, fd(FieldKind::KCn, d_cn(true)), off0, *off as int, acc, Val::Cn(rv_frame_id@), p0,
                *pres as int);
            acc = acc.push(Val::Cn(rv_frame_id@));
        }
        let ghost off0 = *off as int;
        let ghost p0 = *pres as int;
        if *off < bytes.len() {
            *pres = 12;
        }
        let rv_mask_id = match rd_cn(bytes, off, e, true) {
            Ok(v) => v,
            Err(er) => {
                proof {
                    lemma_read_step_none(s, e, fs, 11, fd(FieldKind::KCn, d_cn(true)), off0, acc);
                }
                return Err(er);
            },
        };
        proof {
            lemma_read_step(s, e, fs, 11, fd(FieldKind::KCn, d_cn(true)), off0, *off as int, acc, Val::Cn(rv_mask_id@));
            lemma_pres_step(s, e, fs, 11, fd(FieldKind::KCn, d_cn(true)), off0, *off as int, acc, Val::Cn(rv_mask_id@), p0,
                *pres as int);
            acc = acc.push(Val::Cn(rv_mask_id@));
        }
        let ghost off0 = *off as int;
        let ghost p0 = *pres as int;
        if *off < bytes.len() {
            *pres = 13;
        }
        let rv_usr_desc = match rd_cn(bytes, off, e, true) {
            Ok(v) => v,
            Err(er) => {
                proof {
                    lemma_read_step_none(s, e, fs, 12, fd(FieldKind::KCn, d_cn(true)), off0, acc);
                }
                return Err(er);
            },
        };
        proof {
            lemma_read_step(s, e, fs, 12, fd(FieldKind::KCn, d_cn(true)), off0, *off as int, acc, Val::Cn(rv_usr_desc@));
            lemma_pres_step(s, e, fs, 12, fd(FieldKind::KCn, d_cn(true)), off0, *off as int, acc, Val::Cn(rv_usr_desc@), p0,
                *pres as int);
            acc = acc.push(Val::Cn(rv_usr_desc@));
        }
        let ghost off0 = *off as int;
        let ghost p0 = *pres as int;
        if *off < bytes.len() {
            *pres = 14;
        }
        let rv_exc_desc = match rd_cn(bytes, off, e, true) {
            Ok(v) => v,
            Err(er) => {
                proof {
                    lemma_read_step_none(s, e, fs, 13, fd(FieldKind::KCn, d_cn(true)), off0, acc);
                }
                return Err(er);
            },
        };
        proof {
            lemma_read_step(s, e, fs, 13, fd(FieldKind::KCn, d_cn(true)), off0, *off as int, acc, Val::Cn(rv_exc_desc@));
            lemma_pres_step(s, e, fs, 13, fd(FieldKind::KCn, d_cn(true)), off0, *off as int, acc, Val::Cn(rv_exc_desc@), p0,
                *pres as int);
            acc = acc.push(Val::Cn(rv_exc_desc@));
        }
        Ok((rv_func_cnt, rv_wafer_id, rv_fabwf_id, rv_frame_id, rv_mask_id, rv_usr_desc, rv_exc_desc))
    }

    /// Decodes a record payload: fields in declaration order, trailing
    /// absent fields at their defaults.
    #[verifier::rlimit(100)]
    #[verifier::spinoff_prover]
    pub fn read(bytes: &[u8], e: Endian) -> (r: Result<WRR, StdfError>)
        ensures
            match r {
                Ok(rec) => sdecode(bytes@, e, Self::fields()) == Some(rec.val_seq())
                    && rec.wf() && rec.present as int == spres(bytes@, e, Self::fields()),
                Err(_) => sdecode(bytes@, e, Self::fields()) is None,
            },
    {
        let ghost s = bytes@;
        let ghost fs = Self::fields();
        let mut off: usize = 0;
        let mut pres: usize = 0;
        proof {
            lemma_read_begin(s, e, fs);
            lemma_pres_begin(s, e, fs);
        }
        let ghost acc_0 = Seq::<Val>::empty();
        let t0 = match Self::read_seg0(bytes, &mut off, &mut pres, e, Ghost(acc_0)) {
            Ok(t) => t,
            Err(er) => {
                return Err(er);
            },
        };
        let ghost acc_1 = acc_0.push(Val::U1(t0.0)).push(Val::U1(t0.1)).push(Val::U4(t0.2)).push(Val::U4(t0.3)).push(Val::U4(t0.4)).push(Val::U4(t0.5)).push(Val::U4(t0.6));
        let t1 = match Self::read_seg1(bytes, &mut off, &mut pres, e, Ghost(acc_1)) {
            Ok(t) => t,
            Err(er) => {
                return Err(er);
            },
        };
        let ghost acc_2 = acc_1.push(Val::U4(t1.0)).push(Val::Cn(t1.1@)).push(Val::Cn(t1.2@)).push(Val::Cn(t1.3@)).push(Val::Cn(t1.4@)).push(Val::Cn(t1.5@)).push(Val::Cn(t1.6@));
        let rec = WRR {
            head_num: U1(t0.0),
            site_grp: U1(t0.1),
            finish_t: U4E(t0.2),
            part_cnt: U4(t0.3),
            rtst_cnt: U4(t0.4),
            abrt_cnt: U4(t0.5),
            good_cnt: U4(t0.6),
            func_cnt: U4(t1.0),
            wafer_id: Cn(t1.1),
            fabwf_id: Cn(t1.2),
            frame_id: Cn(t1.3),
            mask_id: Cn(t1.4),
            usr_desc: Cn(t1.5),
            exc_desc: Cn(t1.6),
            present: pres,
        };
        proof {
            lemma_read_end(s, e, fs, off as int, acc_2);
            lemma_pres_end(s, e, fs, off as int, acc_2, pres as int);
            Self::lemma_val_seq_unfold(rec);
            lemma_sdecode_match(s, e, fs);
        }
        Ok(rec)
    }

    /// The field values, written out as the pushes the decoder makes.
    #[verifier::rlimit(100)]
    #[verifier::spinoff_prover]
    proof fn lemma_val_seq_unfold(rec: WRR)
        ensures
            rec.val_seq() == Seq::<Val>::empty()
                .push(Val::U1(rec.head_num.0))
                .push(Val::U1(rec.site_grp.0))
                .push(Val::U4(rec.finish_t.0))
                .push(Val::U4(rec.part_cnt.0))
                .push(Val::U4(rec.rtst_cnt.0))
                .push(Val::U4(rec.abrt_cnt.0))
                .push(Val::U4(rec.good_cnt.0))
                .push(Val::U4(rec.func_cnt.0))
                .push(Val::Cn(rec.wafer_id.0@))
                .push(Val::Cn(rec.fabwf_id.0@))
                .push(Val::Cn(rec.frame_id.0@))
                .push(Val::Cn(rec.mask_id.0@))
                .push(Val::Cn(rec.usr_desc.0@))
                .push(Val::Cn(rec.exc_desc.0@))
            ,
    {
        assert(rec.val_seq() =~= Seq::<Val>::empty()
            .push(Val::U1(rec.head_num.0))
            .push(Val::U1(rec.site_grp.0))
            .push(Val::U4(rec.finish_t.0))
            .push(Val::U4(rec.part_cnt.0))
            .push(Val::U4(rec.rtst_cnt.0))
            .push(Val::U4(rec.abrt_cnt.0))
            .push(Val::U4(rec.good_cnt.0))
            .push(Val::U4(rec.func_cnt.0))
            .push(Val::Cn(rec.wafer_id.0@))
            .push(Val::Cn(rec.fabwf_id.0@))
            .push(Val::Cn(rec.frame_id.0@))
            .push(Val::Cn(rec.mask_id.0@))
            .push(Val::Cn(rec.usr_desc.0@))
            .push(Val::Cn(rec.exc_desc.0@))
        );
    }

    /// Appends the payload encoding of the record to a buffer.
    #[verifier::rlimit(100)]
    #[verifier::spinoff_prover]
    pub fn write(&self, out: &mut Vec<u8>, e: Endian)
        requires
            self.wf(),
        ensures
            final(out)@ == old(out)@ + self.enc(e),
    {
        let ghost vs = self.val_seq();
        let ghost kk = self.present as int;
        let keep = self.present;
        proof {
            assert(0 <= kk <= 14);
            lemma_write_begin(e, vs, old(out)@);
        }
        let ghost mid = out@;
        if keep > 0 {
            wr_u1(out, self.head_num.0);
            proof {
                assert(vs[0] == Val::U1(self.head_num.0));
                lemma_write_step(e, vs, 0, old(out)@, mid, out@);
            }
        }
        proof {
            assert(out@ == old(out)@ + enc_vals(e, vs.take(
                if kk > 0 {
                    1int
                } else {
                    kk
                },
            )));
        }
        let ghost mid = out@;
        if keep > 1 {
            wr_u1(out, self.site_grp.0);
            proof {
                assert(vs[1] == Val::U1(self.site_grp.0));
                lemma_write_step(e, vs, 1, old(out)@, mid, out@);
            }
        }
        proof {
            assert(out@ == old(out)@ + enc_vals(e, vs.take(
                if kk > 1 {
                    2int
                } else {
                    kk
                },
            )));
        }
        let ghost mid = out@;
        if keep > 2 {
            wr_u4(out, e, self.finish_t.0);
            proof {
                assert(vs[2] == Val::U4(self.finish_t.0));
                lemma_write_step(e, vs, 2, old(out)@, mid, out@);
            }
        }
        proof {
            assert(out@ == old(out)@ + enc_vals(e, vs.take(
                if kk > 2 {
                    3int
                } else {
                    kk
                },
            )));
        }
        let ghost mid = out@;
        if keep > 3 {
            wr_u4(out, e, self.part_cnt.0);
            proof {
                assert(vs[3] == Val::U4(self.part_cnt.0));
                lemma_write_step(e, vs, 3, old(out)@, mid, out@);
            }
        }
        proof {
            assert(out@ == old(out)@ + enc_vals(e, vs.take(
                if kk > 3 {
                    4int
                } else {
                    kk
                },
            )));
        }
        let ghost mid = out@;
        if keep > 4 {
            wr_u4(out, e, self.rtst_cnt.0);
            proof {
                assert(vs[4] == Val::U4(self.rtst_cnt.0));
                lemma_write_step(e, vs, 4, old(out)@, mid, out@);
            }
        }
        proof {
            assert(out@ == old(out)@ + enc_vals(e, vs.take(
                if kk > 4 {
                    5int
                } else {
                    kk
                },
            )));
        }
        let ghost mid = out@;
        if keep > 5 {
            wr_u4(out, e, self.abrt_cnt.0);
            proof {
                assert(vs[5] == Val::U4(self.abrt_cnt.0));
                lemma_write_step(e, vs, 5, old(out)@, mid, out@);
            }
        }
        proof {
            assert(out@ == old(out)@ + enc_vals(e, vs.take(
                if kk > 5 {
                    6int
                } else {
                    kk
                },
            )));
        }
        let ghost mid = out@;
        if keep > 6 {
            wr_u4(out, e, self.good_cnt.0);
            proof {
                assert(vs[6] == Val::U4(self.good_cnt.0));
                lemma_write_step(e, vs, 6, old(out)@, mid, out@);
            }
        }
        proof {
            assert(out@ == old(out)@ + enc_vals(e, vs.take(
                if kk > 6 {
                    7int
                } else {
                    kk
                },
            )));
        }
        let ghost mid = out@;
        if keep > 7 {
            wr_u4(out, e, self.func_cnt.0);
            proof {
                assert(vs[7] == Val::U4(self.func_cnt.0));
                lemma_write_step(e, vs, 7, old(out)@, mid, out@);
            }
        }
        proof {
            assert(out@ == old(out)@ + enc_vals(e, vs.take(
                if kk > 7 {
                    8int
                } else {
                    kk
                },
            )));
        }
        let ghost mid = out@;
        if keep > 8 {
            proof {
                assert(val_matches_at(Self::fields(), vs, 8));
            }
            wr_cn(out, self.wafer_id.0.as_slice());
            proof {
                assert(vs[8] == Val::Cn(self.wafer_id.0@));
                lemma_write_step(e, vs, 8, old(out)@, mid, out@);
            }
        }
        proof {
            assert(out@ == old(out)@ + enc_vals(e, vs.take(
                if kk > 8 {
                    9int
                } else {
                    kk
                },
            )));
        }
        let ghost mid = out@;
        if keep > 9 {
            proof {
                assert(val_matches_at(Self::fields(), vs, 9));
            }
            wr_cn(out, self.fabwf_id.0.as_slice());
            proof {
                assert(vs[9] == Val::Cn(self.fabwf_id.0@));
                lemma_write_step(e, vs, 9, old(out)@, mid, out@);
            }
        }
        proof {
            assert(out@ == old(out)@ + enc_vals(e, vs.take(
                if kk > 9 {
                    10int
                } else {
                    kk
                },
            )));
        }
        let ghost mid = out@;
        if keep > 10 {
            proof {
                assert(val_matches_at(Self::fields(), vs, 10));
            }
            wr_cn(out, self.frame_id.0.as_slice());
            proof {
                assert(vs[10] == Val::Cn(self.frame_id.0@));
                lemma_write_step(e, vs, 10, old(out)@, mid, out@);
            }
        }
        proof {
            assert(out@ == old(out)@ + enc_vals(e, vs.take(
                if kk > 10 {
                    11int
                } else {
                    kk
                },
            )));
        }
        let ghost mid = out@;
        if keep > 11 {
            proof {
                assert(val_matches_at(Self::fields(), vs, 11));
            }
            wr_cn(out, self.mask_id.0.as_slice());
            proof {
                assert(vs[11] == Val::Cn(self.mask_id.0@));
                lemma_write_step(e, vs, 11, old(out)@, mid, out@);
            }
        }
        proof {
            assert(out@ == old(out)@ + enc_vals(e, vs.take(
                if kk > 11 {
                    12int
                } else {
                    kk
                },
            )));
        }
        let ghost mid = out@;
        if keep > 12 {
            proof {
                assert(val_matches_at(Self::fields(), vs, 12));
            }
            wr_cn(out, self.usr_desc.0.as_slice());
            proof {
                assert(vs[12] == Val::Cn(self.usr_desc.0@));
                lemma_write_step(e, vs, 12, old(out)@, mid, out@);
            }
        }
        proof {
            assert(out@ == old(out)@ + enc_vals(e, vs.take(
                if kk > 12 {
                    13int
                } else {
                    kk
                },
            )));
        }
        let ghost mid = out@;
        if keep > 13 {
            proof {
                assert(val_matches_at(Self::fields(), vs, 13));
            }
            wr_cn(out, self.exc_desc.0.as_slice());
            proof {
                assert(vs[13] == Val::Cn(self.exc_desc.0@));
                lemma_write_step(e, vs, 13, old(out)@, mid, out@);
            }
        }
        proof {
            assert(out@ == old(out)@ + enc_vals(e, vs.take(
                if kk > 13 {
                    14int
                } else {
                    kk
                },
            )));
        }
        proof {
            assert(out@ == old(out)@ + enc_vals(e, vs.take(kk)));
        }
    }
}

/// WCR: the Wafer Configuration Record, with pair (2, 30).
#[derive(Clone, Debug, PartialEq, Eq)]
pub struct WCR {
    pub wafr_siz: R4,
    pub die_ht: R4,
    pub die_wid: R4,
    pub wf_units: U1,
    pub wf_flat: C1,
    pub center_x: I2,
    pub center_y: I2,
    pub pos_x: C1,
    pub pos_y: C1,
    /// How many leading fields stood on the wire when the record
    /// was decoded; `write` puts exactly these back.
    pub present: usize,
}

impl WCR {
    /// The field layout of the record: wire kind, default, and for
    /// an array the position of its count field.
    pub open spec fn fields() -> Seq<FieldDef> {
        seq![
            fd(FieldKind::KU4, d_u4(Some(0u32))),
            fd(FieldKind::KU4, d_u4(Some(0u32))),
            fd(FieldKind::KU4, d_u4(Some(0u32))),
            fd(FieldKind::KU1, d_u1(Some(0u8))),
            fd(FieldKind::KU1, d_u1(Some(0x20u8))),
            fd(FieldKind::KU2, d_u2(Some(0x8000u16))),
            fd(FieldKind::KU2, d_u2(Some(0x8000u16))),
            fd(FieldKind::KU1, d_u1(Some(0x20u8))),
            fd(FieldKind::KU1, d_u1(Some(0x20u8))),
        ]
    }

    /// The field values of the record, in declaration order.
    pub open spec fn val_seq(self) -> Seq<Val> {
        seq![
            Val::U4(self.wafr_siz.0),
            Val::U4(self.die_ht.0),
            Val::U4(self.die_wid.0),
            Val::U1(self.wf_units.0),
            Val::U1(self.wf_flat.0),
            Val::U2(from_i16(self.center_x.0)),
            Val::U2(from_i16(self.center_y.0)),
            Val::U1(self.pos_x.0),
            Val::U1(self.pos_y.0),
        ]
    }

    /// Well-formedness: every value fits its wire layout, arrays are
    /// as long as their count fields say or stand empty past the
    /// wire, and the on-the-wire count covers at most every field.
    pub open spec fn wf(self) -> bool {
        vals_match(Self::fields(), self.val_seq()) && self.present <= 9
    }

    /// Well-formedness is exactly conformance of the values to the
    /// layout, with the on-the-wire count in bounds.
    pub proof fn lemma_wf_is_match(self)
        ensures
            self.wf() == (vals_match(Self::fields(), self.val_seq()) && self.present
                <= Self::fields().len()),
    {
    }

    /// The payload bytes of the record under a byte order: the
    /// fields that stood on the wire, in declaration order; the
    /// absent tail stays off it.
    pub open spec fn enc(self, e: Endian) -> Seq<u8> {
        enc_vals(e, self.val_seq().take(self.present as int))
    }

    /// Every array that stood on the wire is as long as its count
    /// field says, so the record can be framed back onto it.
    pub open spec fn counts_ok(self) -> bool {
        counts_strict_upto(Self::fields(), self.val_seq(), self.present as int)
    }

    /// Every field past the on-the-wire count holds its declared
    /// default or is empty.
    pub open spec fn tail_absent(self) -> bool {
        forall|i: int|
            self.present <= i < Self::fields().len() ==> #[trigger] suppressible(
                Self::fields()[i],
                self.val_seq()[i],
            )
    }

    /// A record decoded off the wire is framed: its on-the-wire
    /// arrays match their counts and its absent fields hold their
    /// defaults.
    pub proof fn lemma_decoded_shape(self, s: Seq<u8>, e: Endian)
        requires
            sdecode(s, e, Self::fields()) == Some(self.val_seq()),
            self.present as int == spres(s, e, Self::fields()),
        ensures
            self.counts_ok(),
            self.tail_absent(),
    {
        lemma_sdecode_present(s, e, Self::fields());
    }

    /// Decodes a record payload: fields in declaration order, trailing
    /// absent fields at their defaults.
    #[verifier::rlimit(100)]
    #[verifier::spinoff_prover]
    pub fn read(bytes: &[u8], e: Endian) -> (r: Result<WCR, StdfError>)
        ensures
            match r {
                Ok(rec) => sdecode(bytes@, e, Self::fields()) == Some(rec.val_seq())
                    && rec.wf() && rec.present as int == spres(bytes@, e, Self::fields()),
                Err(_) => sdecode(bytes@, e, Self::fields()) is None,
            },
    {
        let ghost s = bytes@;
        let ghost fs = Self::fields();
        let mut off: usize = 0;
        let mut pres: usize = 0;
        let ghost mut acc = Seq::<Val>::empty();
        proof {
            lemma_read_begin(s, e, fs);
            lemma_pres_begin(s, e, fs);
        }
        let ghost off0 = off as int;
        let ghost p0 = pres as int;
        if off < bytes.len() {
            pres = 1;
        }
        let rv_wafr_siz = match rd_u4(bytes, &mut off, e, Some(0u32)) {
            Ok(v) => v,
            Err(er) => {
                proof {
                    lemma_read_step_none(s, e, fs, 0, fd(FieldKind::KU4, d_u4(Some(0u32))), off0, acc);
                }
                return Err(er);
            },
        };
        proof {
            lemma_read_step(s, e, fs, 0, fd(FieldKind::KU4, d_u4(Some(0u32))), off0, off as int, acc, Val::U4(rv_wafr_siz));
            lemma_pres_step(s, e, fs, 0, fd(FieldKind::KU4, d_u4(Some(0u32))), off0, off as int, acc, Val::U4(rv_wafr_siz), p0,
                pres as int);
            acc = acc.push(Val::U4(rv_wafr_siz));
        }
        let ghost off0 = off as int;
        let ghost p0 = pres as int;
        if off < bytes.len() {
            pres = 2;
        }
        let rv_die_ht = match rd_u4(bytes, &mut off, e, Some(0u32)) {
            Ok(v) => v,
            Err(er) => {
                proof {
                    lemma_read_step_none(s, e, fs, 1, fd(FieldKind::KU4, d_u4(Some(0u32))), off0, acc);
                }
                return Err(er);
            },
        };
        proof {
            lemma_read_step(s, e, fs, 1, fd(FieldKind::KU4, d_u4(Some(0u32))), off0, off as int, acc, Val::U4(rv_die_ht));
            lemma_pres_step(s, e, fs, 1, fd(FieldKind::KU4, d_u4(Some(0u32))), off0, off as int, acc, Val::U4(rv_die_ht), p0,
                pres as int);
            acc = acc.push(Val::U4(rv_die_ht));
        }
        let ghost off0 = off as int;
        let ghost p0 = pres as int;
        if off < bytes.len() {
            pres = 3;
        }
        let rv_die_wid = match rd_u4(bytes, &mut off, e, Some(0u32)) {
            Ok(v) => v,
            Err(er) => {
                proof {
                    lemma_read_step_none(s, e, fs, 2, fd(FieldKind::KU4, d_u4(Some(0u32))), off0, acc);
                }
                return Err(er);
            },
        };
        proof {
            lemma_read_step(s, e, fs, 2, fd(FieldKind::KU4, d_u4(Some(0u32))), off0, off as int, acc, Val::U4(rv_die_wid));
            lemma_pres_step(s, e, fs, 2, fd(FieldKind::KU4, d_u4(Some(0u32))), off0, off as int, acc, Val::U4(rv_die_wid), p0,
                pres as int);
            acc = acc.push(Val::U4(rv_die_wid));
        }
        let ghost off0 = off as int;
        let ghost p0 = pres as int;
        if off < bytes.len() {
            pres = 4;
        }
        let rv_wf_units = match rd_u1(bytes, &mut off, e, Some(0u8)) {
            Ok(v) => v,
            Err(er) => {
                proof {
                    lemma_read_step_none(s, e, fs, 3, fd(FieldKind::KU1, d_u1(Some(0u8))), off0, acc);
                }
                return Err(er);
            },
        };
        proof {
            lemma_read_step(s, e, fs, 3, fd(FieldKind::KU1, d_u1(Some(0u8))), off0, off as int, acc, Val::U1(rv_wf_units));
            lemma_pres_step(s, e, fs, 3, fd(FieldKind::KU1, d_u1(Some(0u8))), off0, off as int, acc, Val::U1(rv_wf_units), p0,
                pres as int);
            acc = acc.push(Val::U1(rv_wf_units));
        }
        let ghost off0 = off as int;
        let ghost p0 = pres as int;
        if off < bytes.len() {
            pres = 5;
        }
        let rv_wf_flat = match rd_u1(bytes, &mut off, e, Some(0x20u8)) {
            Ok(v) => v,
            Err(er) => {
                proof {
                    lemma_read_step_none(s, e, fs, 4, fd(FieldKind::KU1, d_u1(Some(0x20u8))), off0, acc);
                }
                return Err(er);
            },
        };
        proof {
            lemma_read_step(s, e, fs, 4, fd(FieldKind::KU1, d_u1(Some(0x20u8))), off0, off as int, acc, Val::U1(rv_wf_flat));
            lemma_pres_step(s, e, fs, 4, fd(FieldKind::KU1, d_u1(Some(0x20u8))), off0, off as int, acc, Val::U1(rv_wf_flat), p0,
                pres as int);
            acc = acc.push(Val::U1(rv_wf_flat));
        }
        let ghost off0 = off as int;
        let ghost p0 = pres as int;
        if off < bytes.len() {
            pres = 6;
        }
        let rv_center_x = match rd_u2(bytes, &mut off, e, Some(0x8000u16)) {
            Ok(v) => v,
            Err(er) => {
                proof {
                    lemma_read_step_none(s, e, fs, 5, fd(FieldKind::KU2, d_u2(Some(0x8000u16))), off0, acc);
                }
                return Err(er);
            },
        };
        proof {
            lemma_read_step(s, e, fs, 5, fd(FieldKind::KU2, d_u2(Some(0x8000u16))), off0, off as int, acc, Val::U2(rv_center_x));
            lemma_pres_step(s, e, fs, 5, fd(FieldKind::KU2, d_u2(Some(0x8000u16))), off0, off as int, acc, Val::U2(rv_center_x), p0,
                pres as int);
            acc = acc.push(Val::U2(rv_center_x));
        }
        let ghost off0 = off as int;
        let ghost p0 = pres as int;
        if off < bytes.len() {
            pres = 7;
        }
        let rv_center_y = match rd_u2(bytes, &mut off, e, Some(0x8000u16)) {
            Ok(v) => v,
            Err(er) => {
                proof {
                    lemma_read_step_none(s, e, fs, 6, fd(FieldKind::KU2, d_u2(Some(0x8000u16))), off0, acc);
                }
                return Err(er);
            },
        };
        proof {
            lemma_read_step(s, e, fs, 6, fd(FieldKind::KU2, d_u2(Some(0x8000u16))), off0, off as int, acc, Val::U2(rv_center_y));
            lemma_pres_step(s, e, fs, 6, fd(FieldKind::KU2, d_u2(Some(0x8000u16))), off0, off as int, acc, Val::U2(rv_center_y), p0,
                pres as int);
            acc = acc.push(Val::U2(rv_center_y));
        }
        let ghost off0 = off as int;
        let ghost p0 = pres as int;
        if off < bytes.len() {
            pres = 8;
        }
        let rv_pos_x = match rd_u1(bytes, &mut off, e, Some(0x20u8)) {
            Ok(v) => v,
            Err(er) => {
                proof {
                    lemma_read_step_none(s, e, fs, 7, fd(FieldKind::KU1, d_u1(Some(0x20u8))), off0, acc);
                }
                return Err(er);
            },
        };
        proof {
            lemma_read_step(s, e, fs, 7, fd(FieldKind::KU1, d_u1(Some(0x20u8))), off0, off as int, acc, Val::U1(rv_pos_x));
            lemma_pres_step(s, e, fs, 7, fd(FieldKind::KU1, d_u1(Some(0x20u8))), off0, off as int, acc, Val::U1(rv_pos_x), p0,
                pres as int);
            acc = acc.push(Val::U1(rv_pos_x));
        }
        let ghost off0 = off as int;
        let ghost p0 = pres as int;
        if off < bytes.len() {
            pres = 9;
        }
        let rv_pos_y = match rd_u1(bytes, &mut off, e, Some(0x20u8)) {
            Ok(v) => v,
            Err(er) => {
                proof {
                    lemma_read_step_none(s, e, fs, 8, fd(FieldKind::KU1, d_u1(Some(0x20u8))), off0, acc);
                }
                return Err(er);
            },
        };
        proof {
            lemma_read_step(s, e, fs, 8, fd(FieldKind::KU1, d_u1(Some(0x20u8))), off0, off as int, acc, Val::U1(rv_pos_y));
            lemma_pres_step(s, e, fs, 8, fd(FieldKind::KU1, d_u1(Some(0x20u8))), off0, off as int, acc, Val::U1(rv_pos_y), p0,
                pres as int);
            acc = acc.push(Val::U1(rv_pos_y));
        }
        let rec = WCR {
            wafr_siz: R4(rv_wafr_siz),
            die_ht: R4(rv_die_ht),
            die_wid: R4(rv_die_wid),
            wf_units: U1(rv_wf_units),
            wf_flat: C1(rv_wf_flat),
            center_x: I2(i16_from_bits(rv_center_x)),
            center_y: I2(i16_from_bits(rv_center_y)),
            pos_x: C1(rv_pos_x),
            pos_y: C1(rv_pos_y),
            present: pres,
        };
        proof {
            lemma_signed_round_trip();
            lemma_read_end(s, e, fs, off as int, acc);
            lemma_pres_end(s, e, fs, off as int, acc, pres as int);
            assert(rec.val_seq() =~= acc);
            lemma_sdecode_match(s, e, fs);
        }
        Ok(rec)
    }

    /// Appends the payload encoding of the record to a buffer.
    #[verifier::rlimit(100)]
    #[verifier::spinoff_prover]
    pub fn write(&self, out: &mut Vec<u8>, e: Endian)
        requires
            self.wf(),
        ensures
            final(out)@ == old(out)@ + self.enc(e),
    {
        let ghost vs = self.val_seq();
        let ghost kk = self.present as int;
        let keep = self.present;
        proof {
            assert(0 <= kk <= 9);
            lemma_write_begin(e, vs, old(out)@);
        }
        let ghost mid = out@;
        if keep > 0 {
            wr_u4(out, e, self.wafr_siz.0);
            proof {
                assert(vs[0] == Val::U4(self.wafr_siz.0));
                lemma_write_step(e, vs, 0, old(out)@, mid, out@);
            }
        }
        proof {
            assert(out@ == old(out)@ + enc_vals(e, vs.take(
                if kk > 0 {
                    1int
                } else {
                    kk
                },
            )));
        }
        let ghost mid = out@;
        if keep > 1 {
            wr_u4(out, e, self.die_ht.0);
            proof {
                assert(vs[1] == Val::U4(self.die_ht.0));
                lemma_write_step(e, vs, 1, old(out)@, mid, out@);
            }
        }
        proof {
            assert(out@ == old(out)@ + enc_vals(e, vs.take(
                if kk > 1 {
                    2int
                } else {
                    kk
                },
            )));
        }
        let ghost mid = out@;
        if keep > 2 {
            wr_u4(out, e, self.die_wid.0);
            proof {
                assert(vs[2] == Val::U4(self.die_wid.0));
                lemma_write_step(e, vs, 2, old(out)@, mid, out@);
            }
        }
        proof {
            assert(out@ == old(out)@ + enc_vals(e, vs.take(
                if kk > 2 {
                    3int
                } else {
                    kk
                },
            )));
        }
        let ghost mid = out@;
        if keep > 3 {
            wr_u1(out, self.wf_units.0);
            proof {
                assert(vs[3] == Val::U1(self.wf_units.0));
                lemma_write_step(e, vs, 3, old(out)@, mid, out@);
            }
        }
        proof {
            assert(out@ == old(out)@ + enc_vals(e, vs.take(
                if kk > 3 {
                    4int
                } else {
                    kk
                },
            )));
        }
        let ghost mid = out@;
        if keep > 4 {
            wr_u1(out, self.wf_flat.0);
            proof {
                assert(vs[4] == Val::U1(self.wf_flat.0));
                lemma_write_step(e, vs, 4, old(out)@, mid, out@);
            }
        }
        proof {
            assert(out@ == old(out)@ + enc_vals(e, vs.take(
                if kk > 4 {
                    5int
                } else {
                    kk
                },
            )));
        }
        let ghost mid = out@;
        if keep > 5 {
            wr_u2(out, e, i16_to_bits(self.center_x.0));
            proof {
                assert(vs[5] == Val::U2(from_i16(self.center_x.0)));
                lemma_write_step(e, vs, 5, old(out)@, mid, out@);
            }
        }
        proof {
            assert(out@ == old(out)@ + enc_vals(e, vs.take(
                if kk > 5 {
                    6int
                } else {
                    kk
                },
            )));
        }
        let ghost mid = out@;
        if keep > 6 {
            wr_u2(out, e, i16_to_bits(self.center_y.0));
            proof {
                assert(vs[6] == Val::U2(from_i16(self.center_y.0)));
                lemma_write_step(e, vs, 6, old(out)@, mid, out@);
            }
        }
        proof {
            assert(out@ == old(out)@ + enc_vals(e, vs.take(
                if kk > 6 {
                    7int
                } else {
                    kk
                },
            )));
        }
        let ghost mid = out@;
        if keep > 7 {
            wr_u1(out, self.pos_x.0);
            proof {
                assert(vs[7] == Val::U1(self.pos_x.0));
                lemma_write_step(e, vs, 7, old(out)@, mid, out@);
            }
        }
        proof {
            assert(out@ == old(out)@ + enc_vals(e, vs.take(
                if kk > 7 {
                    8int
                } else {
                    kk
                },
            )));
        }
        let ghost mid = out@;
        if keep > 8 {
            wr_u1(out, self.pos_y.0);
            proof {
                assert(vs[8] == Val::U1(self.pos_y.0));
                lemma_write_step(e, vs, 8, old(out)@, mid, out@);
            }
        }
        proof {
            assert(out@ == old(out)@ + enc_vals(e, vs.take(
                if kk > 8 {
                    9int
                } else {
                    kk
                },
            )));
        }
        proof {
            assert(out@ == old(out)@ + enc_vals(e, vs.take(kk)));
        }
    }
}

} // verus!
