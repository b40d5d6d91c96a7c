//! Test records: synopses, parametric results (single and multiple), and
//! functional results.

use vstd::prelude::*;

use crate::fields::{
    d_cn, d_dn, d_u1, d_u2, d_u4, d_u8, i16_from_bits, i16_to_bits, i32_from_bits, i32_to_bits,
    i64_from_bits, i64_to_bits, i8_from_bits, i8_to_bits, rd_arr_cn, rd_arr_n1, rd_arr_u1,
    rd_arr_u2, rd_arr_u4, rd_arr_vn, rd_cn, rd_dn, rd_u1, rd_u2, rd_u4, rd_u8w, wr_arr_cn,
    wr_arr_n1, wr_arr_u1, wr_arr_u2, wr_arr_u4, wr_arr_vn, wr_cn, wr_dn, wr_u1, wr_u2, wr_u4,
    wr_u8w,
};
use crate::types::{Bn, Cn, Dn, Endian, StdfError, Vn, B1, C1, I1, I2, I4, I8, N1, R4, R8, U1, U2,
    U4, U4E, U8};
use crate::wire::{
    counts_strict_upto, enc_vals, fd, from_i16, from_i32, from_i64, from_i8, lemma_pres_begin,
    lemma_pres_end, lemma_pres_step, lemma_pres_step_arr, lemma_read_begin, lemma_read_end,
    lemma_read_step, lemma_read_step_arr, lemma_read_step_arr_none, lemma_read_step_none,
    lemma_sdecode_match, lemma_sdecode_present, lemma_signed_round_trip, lemma_write_begin,
    lemma_write_end, lemma_write_step, sdecode, sdecode_from, spres, spres_inv, suppressible,
    val_matches_at, vals_match, vnv_wf, Dflt, Elem, FieldDef, FieldKind, Val,
};


verus! {

/// TSR: the Test Synopsis Record, with pair (10, 30).
#[derive(Clone, Debug, PartialEq, Eq)]
pub struct TSR {
    pub head_num: U1,
    pub site_num: U1,
    pub test_typ: C1,
    pub test_num: U4,
    pub exec_cnt: U4,
    pub fail_cnt: U4,
    pub alrm_cnt: U4,
    pub test_nam: Cn,
    pub seq_name: Cn,
    pub test_lbl: Cn,
    pub opt_flag: B1,
    pub test_tim: R4,
    pub test_min: R4,
    pub test_max: R4,
    pub tst_sums: R4,
    pub tst_sqrs: R4,
    /// How many leading fields stood on the wire when the record
    /// was decoded; `write` puts exactly these back.
    pub present: usize,
}

impl TSR {
    /// The field layout of the record: wire kind, default, and for
    /// an array the position of its count field.
    pub open spec fn fields() -> Seq<FieldDef> {
        seq![
            fd(FieldKind::KU1, d_u1(None)),
            fd(FieldKind::KU1, d_u1(None)),
            fd(FieldKind::KU1, d_u1(None)),
            fd(FieldKind::KU4, d_u4(None)),
            fd(FieldKind::KU4, d_u4(None)),
            fd(FieldKind::KU4, d_u4(None)),
            fd(FieldKind::KU4, d_u4(None)),
            fd(FieldKind::KCn, d_cn(true)),
            fd(FieldKind::KCn, d_cn(true)),
            fd(FieldKind::KCn, d_cn(true)),
            fd(FieldKind::KU1, d_u1(Some(0xffu8))),
            fd(FieldKind::KU4, d_u4(Some(0x7fc0_0000u32))),
            fd(FieldKind::KU4, d_u4(Some(0x7fc0_0000u32))),
            fd(FieldKind::KU4, d_u4(Some(0x7fc0_0000u32))),
            fd(FieldKind::KU4, d_u4(Some(0x7fc0_0000u32))),
            fd(FieldKind::KU4, d_u4(Some(0x7fc0_0000u32))),
        ]
    }

    /// The field values of the record, in declaration order.
    pub open spec fn val_seq(self) -> Seq<Val> {
        seq![
            Val::U1(self.head_num.0),
            Val::U1(self.site_num.0),
            Val::U1(self.test_typ.0),
            Val::U4(self.test_num.0),
            Val::U4(self.exec_cnt.0),
            Val::U4(self.fail_cnt.0),
            Val::U4(self.alrm_cnt.0),
            Val::Cn(self.test_nam.0@),
            Val::Cn(self.seq_name.0@),
            Val::Cn(self.test_lbl.0@),
            Val::U1(self.opt_flag.0),
            Val::U4(self.test_tim.0),
            Val::U4(self.test_min.0),
            Val::U4(self.test_max.0),
            Val::U4(self.tst_sums.0),
            Val::U4(self.tst_sqrs.0),
        ]
    }

    /// Well-formedness: every value fits its wire layout, arrays are
    /// as long as their count fields say or stand empty past the
    /// wire, and the on-the-wire count covers at most every field.
    pub open spec fn wf(self) -> bool {
        vals_match(Self::fields(), self.val_seq()) && self.present <= 16
    }

    /// Well-formedness is exactly conformance of the values to the
    /// layout, with the on-the-wire count in bounds.
    pub proof fn lemma_wf_is_match(self)
        ensures
            self.wf() == (vals_match(Self::fields(), self.val_seq()) && self.present
                <= Self::fields().len()),
    {
    }

    /// The payload bytes of the record under a byte order: the
    /// fields that stood on the wire, in declaration order; the
    /// absent tail stays off it.
    pub open spec fn enc(self, e: Endian) -> Seq<u8> {
        enc_vals(e, self.val_seq().take(self.present as int))
    }

    /// Every array that stood on the wire is as long as its count
    /// field says, so the record can be framed back onto it.
    pub open spec fn counts_ok(self) -> bool {
        counts_strict_upto(Self::fields(), self.val_seq(), self.present as int)
    }

    /// Every field past the on-the-wire count holds its declared
    /// default or is empty.
    pub open spec fn tail_absent(self) -> bool {
        forall|i: int|
            self.present <= i < Self::fields().len() ==> #[trigger] suppressible(
                Self::fields()[i],
                self.val_seq()[i],
            )
    }

    /// A record decoded off the wire is framed: its on-the-wire
    /// arrays match their counts and its absent fields hold their
    /// defaults.
    pub proof fn lemma_decoded_shape(self, s: Seq<u8>, e: Endian)
        requires
            sdecode(s, e, Self::fields()) == Some(self.val_seq()),
            self.present as int == spres(s, e, Self::fields()),
        ensures
            self.counts_ok(),
            self.tail_absent(),
    {
        lemma_sdecode_present(s, e, Self::fields());
    }

    /// Reads fields 0 .. 7 of the record.
    #[verifier::rlimit(100)]
    #[verifier::spinoff_prover]
    fn read_seg0(
        bytes: &[u8],
        off: &mut usize,
        pres: &mut usize,
        e: Endian,
        Ghost(acc0): Ghost<Seq<Val>>,
    ) -> (r: Result<(u8, u8, u8, u32, u32, u32, u32), StdfError>)
        requires
            *old(off) <= bytes@.len(),
            *old(pres) <= 0,
            acc0.len() == 0,
            sdecode(bytes@, e, Self::fields()) == sdecode_from(
                bytes@, e, Self::fields(), 0, *old(off) as int, acc0,
            ),
            spres_inv(bytes@, e, Self::fields(), 0, *old(off) as int, acc0,
                *old(pres) as int),
        ensures
            *final(off) <= bytes@.len(),
            *final(pres) <= 7,
            match r {
                Ok(t) => sdecode(bytes@, e, Self::fields()) == sdecode_from(
                    bytes@, e, Self::fields(), 7, *final(off) as int,
                    acc0.push(Val::U1(t.0)).push(Val::U1(t.1)).push(Val::U1(t.2)).push(Val::U4(t.3)).push(Val::U4(t.4)).push(Val::U4(t.5)).push(Val::U4(t.6)),
                ) && spres_inv(bytes@, e, Self::fields(), 7, *final(off) as int,
                    acc0.push(Val::U1(t.0)).push(Val::U1(t.1)).push(Val::U1(t.2)).push(Val::U4(t.3)).push(Val::U4(t.4)).push(Val::U4(t.5)).push(Val::U4(t.6)),
                    *final(pres) as int,
                ),
                Err(_) => sdecode(bytes@, e, Self::fields()) is None,
            },
    {
        let ghost s = bytes@;
        let ghost fs = Self::fields();
        let ghost mut acc = acc0;
        let ghost off0 = *off as int;
        let ghost p0 = *pres as int;
        if *off < bytes.len() {
            *pres = 1;
        }
        let rv_head_num = match rd_u1(bytes, off, e, None) {
            Ok(v) => v,
            Err(er) => {
                proof {
                    lemma_read_step_none(s, e, fs, 0, fd(FieldKind::KU1, d_u1(None)), off0, acc);
                }
                return Err(er);
            },
        };
        proof {
            lemma_read_step(s, e, fs, 0, fd(FieldKind::KU1, d_u1(None)), off0, *off as int, acc, Val::U1(rv_head_num));
            lemma_pres_step(s, e, fs, 0, fd(FieldKind::KU1, d_u1(None)), off0, *off as int, acc, Val::U1(rv_head_num), p0,
                *pres as int);
            acc = acc.push(Val::U1(rv_head_num));
        }
        let ghost off0 = *off as int;
        let ghost p0 = *pres as int;
        if *off < bytes.len() {
            *pres = 2;
        }
        let rv_site_num = match rd_u1(bytes, off, e, None) {
            Ok(v) => v,
            Err(er) => {
                proof {
                    lemma_read_step_none(s, e, fs, 1, fd(FieldKind::KU1, d_u1(None)), off0, acc);
                }
                return Err(er);
            },
        };
        proof {
            lemma_read_step(s, e, fs, 1, fd(FieldKind::KU1, d_u1(None)), off0, *off as int, acc, Val::U1(rv_site_num));
            lemma_pres_step(s, e, fs, 1, fd(FieldKind::KU1, d_u1(None)), off0, *off as int, acc, Val::U1(rv_site_num), p0,
                *pres as int);
            acc = acc.push(Val::U1(rv_site_num));
        }
        let ghost off0 = *off as int;
        let ghost p0 = *pres as int;
        if *off < bytes.len() {
            *pres = 3;
        }
        let rv_test_typ = match rd_u1(bytes, off, e, None) {
            Ok(v) => v,
            Err(er) => {
                proof {
                    lemma_read_step_none(s, e, fs, 2, fd(FieldKind::KU1, d_u1(None)), off0, acc);
                }
                return Err(er);
            },
        };
        proof {
            lemma_read_step(s, e, fs, 2, fd(FieldKind::KU1, d_u1(None)), off0, *off as int, acc, Val::U1(rv_test_typ));
            lemma_pres_step(s, e, fs, 2, fd(FieldKind::KU1, d_u1(None)), off0, *off as int, acc, Val::U1(rv_test_typ), p0,
                *pres as int);
            acc = acc.push(Val::U1(rv_test_typ));
        }
        let ghost off0 = *off as int;
        let ghost p0 = *pres as int;
        if *off < bytes.len() {
            *pres = 4;
        }
        let rv_test_num = match rd_u4(bytes, off, e, None) {
            Ok(v) => v,
            Err(er) => {
                proof {
                    lemma_read_step_none(s, e, fs, 3, fd(FieldKind::KU4, d_u4(None)), off0, acc);
                }
                return Err(er);
            },
        };
        proof {
            lemma_read_step(s, e, fs, 3, fd(FieldKind::KU4, d_u4(None)), off0, *off as int, acc, Val::U4(rv_test_num));
            lemma_pres_step(s, e, fs, 3, fd(FieldKind::KU4, d_u4(None)), off0, *off as int, acc, Val::U4(rv_test_num), p0,
                *pres as int);
            acc = acc.push(Val::U4(rv_test_num));
        }
        let ghost off0 = *off as int;
        let ghost p0 = *pres as int;
        if *off < bytes.len() {
            *pres = 5;
        }
        let rv_exec_cnt = match rd_u4(bytes, off, e, None) {
            Ok(v) => v,
            Err(er) => {
                proof {
                    lemma_read_step_none(s, e, fs, 4, fd(FieldKind::KU4, d_u4(None)), off0, acc);
                }
                return Err(er);
            },
        };
        proof {
            lemma_read_step(s, e, fs, 4, fd(FieldKind::KU4, d_u4(None)), off0, *off as int, acc, Val::U4(rv_exec_cnt));
            lemma_pres_step(s, e, fs, 4, fd(FieldKind::KU4, d_u4(None)), off0, *off as int, acc, Val::U4(rv_exec_cnt), p0,
                *pres as int);
            acc = acc.push(Val::U4(rv_exec_cnt));
        }
        let ghost off0 = *off as int;
        let ghost p0 = *pres as int;
        if *off < bytes.len() {
            *pres = 6;
        }
        let rv_fail_cnt = match rd_u4(bytes, off, e, None) {
            Ok(v) => v,
            Err(er) => {
                proof {
                    lemma_read_step_none(s, e, fs, 5, fd(FieldKind::KU4, d_u4(None)), off0, acc);
                }
                return Err(er);
            },
        };
        proof {
            lemma_read_step(s, e, fs, 5, fd(FieldKind::KU4, d_u4(None)), off0, *off as int, acc, Val::U4(rv_fail_cnt));
            lemma_pres_step(s, e, fs, 5, fd(FieldKind::KU4, d_u4(None)), off0, *off as int, acc, Val::U4(rv_fail_cnt), p0,
                *pres as int);
            acc = acc.push(Val::U4(rv_fail_cnt));
        }
        let ghost off0 = *off as int;
        let ghost p0 = *pres as int;
        if *off < bytes.len() {
            *pres = 7;
        }
        let rv_alrm_cnt = match rd_u4(bytes, off, e, None) {
            Ok(v) => v,
            Err(er) => {
                proof {
                    lemma_read_step_none(s, e, fs, 6, fd(FieldKind::KU4, d_u4(None)), off0, acc);
                }
                return Err(er);
            },
        };
        proof {
            lemma_read_step(s, e, fs, 6, fd(FieldKind::KU4, d_u4(None)), off0, *off as int, acc, Val::U4(rv_alrm_cnt));
            lemma_pres_step(s, e, fs, 6, fd(FieldKind::KU4, d_u4(None)), off0, *off as int, acc, Val::U4(rv_alrm_cnt), p0,
                *pres as int);
            acc = acc.push(Val::U4(rv_alrm_cnt));
        }
        Ok((rv_head_num, rv_site_num, rv_test_typ, rv_test_num, rv_exec_cnt, rv_fail_cnt, rv_alrm_cnt))
    }

    /// Reads fields 7 .. 14 of the record.
    #[verifier::rlimit(100)]
    #[verifier::spinoff_prover]
    fn read_seg1(
        bytes: &[u8],
        off: &mut usize,
        pres: &mut usize,
        e: Endian,
        Ghost(acc0): Ghost<Seq<Val>>,
    ) -> (r: Result<(Vec<u8>, Vec<u8>, Vec<u8>, u8, u32, u32, u32), StdfError>)
        requires
            *old(off) <= bytes@.len(),
            *old(pres) <= 7,
            acc0.len() == 7,
            sdecode(bytes@, e, Self::fields()) == sdecode_from(
                bytes@, e, Self::fields(), 7, *old(off) as int, acc0,
            ),
            spres_inv(bytes@, e, Self::fields(), 7, *old(off) as int, acc0,
                *old(pres) as int),
        ensures
            *final(off) <= bytes@.len(),
            *final(pres) <= 14,
            match r {
                Ok(t) => sdecode(bytes@, e, Self::fields()) == sdecode_from(
                    bytes@, e, Self::fields(), 14, *final(off) as int,
                    acc0.push(Val::Cn(t.0@)).push(Val::Cn(t.1@)).push(Val::Cn(t.2@)).push(Val::U1(t.3)).push(Val::U4(t.4)).push(Val::U4(t.5)).push(Val::U4(t.6)),
                ) && spres_inv(bytes@, e, Self::fields(), 14, *final(off) as int,
                    acc0.push(Val::Cn(t.0@)).push(Val::Cn(t.1@)).push(Val::Cn(t.2@)).push(Val::U1(t.3)).push(Val::U4(t.4)).push(Val::U4(t.5)).push(Val::U4(t.6)),
                    *final(pres) as int,
                ),
                Err(_) => sdecode(bytes@, e, Self::fields()) is None,
            },
    {
        let ghost s = bytes@;
        let ghost fs = Self::fields();
        let ghost mut acc = acc0;
        let ghost off0 = *off as int;
        let ghost p0 = *pres as int;
        if *off < bytes.len() {
            *pres = 8;
        }
        let rv_test_nam = match rd_cn(bytes, off, e, true) {
            Ok(v) => v,
            Err(er) => {
                proof {
                    lemma_read_step_none(s, e, fs, 7, fd(FieldKind::KCn, d_cn(true)), off0, acc);
                }
                return Err(er);
            },
        };
        proof {
            lemma_read_step(s, e, fs, 7, fd(FieldKind::KCn, d_cn(true)), off0, *off as int, acc, Val::Cn(rv_test_nam@));
            lemma_pres_step(s, e, fs, 7, fd(FieldKind::KCn, d_cn(true)), off0, *off as int, acc, Val::Cn(rv_test_nam@), p0,
                *pres as int);
            acc = acc.push(Val::Cn(rv_test_nam@));
        }
        let ghost off0 = *off as int;
        let ghost p0 = *pres as int;
        if *off < bytes.len() {
            *pres = 9;
        }
        let rv_seq_name = match rd_cn(bytes, off, e, true) {
            Ok(v) => v,
            Err(er) => {
                proof {
                    lemma_read_step_none(s, e, fs, 8, fd(FieldKind::KCn, d_cn(true)), off0, acc);
                }
                return Err(er);
            },
        };
        proof {
            lemma_read_step(s, e, fs, 8, fd(FieldKind::KCn, d_cn(true)), off0, *off as int, acc, Val::Cn(rv_seq_name@));
            lemma_pres_step(s, e, fs, 8, fd(FieldKind::KCn, d_cn(true)), off0, *off as int, acc, Val::Cn(rv_seq_name@), p0,
                *pres as int);
            acc = acc.push(Val::Cn(rv_seq_name@));
        }
        let ghost off0 = *off as int;
        let ghost p0 = *pres as int;
        if *off < bytes.len() {
            *pres = 10;
        }
        let rv_test_lbl = match rd_cn(bytes, off, e, true) {
            Ok(v) => v,
            Err(er) => {
                proof {
                    lemma_read_step_none(s, e, fs, 9, fd(FieldKind::KCn, d_cn(true)), off0, acc);
                }
                return Err(er);
            },
        };
        proof {
            lemma_read_step(s, e, fs, 9, fd(FieldKind::KCn, d_cn(true)), off0, *off as int, acc, Val::Cn(rv_test_lbl@));
            lemma_pres_step(s, e, fs, 9, fd(FieldKind::KCn, d_cn(true)), off0, *off as int, acc, Val::Cn(rv_test_lbl@), p0,
                *pres as int);
            acc = acc.push(Val::Cn(rv_test_lbl@));
        }
        let ghost off0 = *off as int;
        let ghost p0 = *pres as int;
        if *off < bytes.len() {
            *pres = 11;
        }
        let rv_opt_flag = match rd_u1(bytes, off, e, Some(0xffu8)) {
            Ok(v) => v,
            Err(er) => {
                proof {
                    lemma_read_step_none(s, e, fs, 10, fd(FieldKind::KU1, d_u1(Some(0xffu8))), off0, acc);
                }
                return Err(er);
            },
        };
        proof {
            lemma_read_step(s, e, fs, 10, fd(FieldKind::KU1, d_u1(Some(0xffu8))), off0, *off as int, acc, Val::U1(rv_opt_flag));
            lemma_pres_step(s, e, fs, 10, fd(FieldKind::KU1, d_u1(Some(0xffu8))), off0, *off as int, acc, Val::U1(rv_opt_flag), p0,
                *pres as int);
            acc = acc.push(Val::U1(rv_opt_flag));
        }
        let ghost off0 = *off as int;
        let ghost p0 = *pres as int;
        if *off < bytes.len() {
            *pres = 12;
        }
        let rv_test_tim = match rd_u4(bytes, off, e, Some(0x7fc0_0000u32)) {
            Ok(v) => v,
            Err(er) => {
                proof {
                    lemma_read_step_none(s, e, fs, 11, fd(FieldKind::KU4, d_u4(Some(0x7fc0_0000u32))), off0, acc);
                }
                return Err(er);
            },
        };
        proof {
            lemma_read_step(s, e, fs, 11, fd(FieldKind::KU4, d_u4(Some(0x7fc0_0000u32))), off0, *off as int, acc, Val::U4(rv_test_tim));
            lemma_pres_step(s, e, fs, 11, fd(FieldKind::KU4, d_u4(Some(0x7fc0_0000u32))), off0, *off as int, acc, Val::U4(rv_test_tim), p0,
                *pres as int);
            acc = acc.push(Val::U4(rv_test_tim));
        }
        let ghost off0 = *off as int;
        let ghost p0 = *pres as int;
        if *off < bytes.len() {
            *pres = 13;
        }
        let rv_test_min = match rd_u4(bytes, off, e, Some(0x7fc0_0000u32)) {
            Ok(v) => v,
            Err(er) => {
                proof {
                    lemma_read_step_none(s, e, fs, 12, fd(FieldKind::KU4, d_u4(Some(0x7fc0_0000u32))), off0, acc);
                }
                return Err(er);
            },
        };
        proof {
            lemma_read_step(s, e, fs, 12, fd(FieldKind::KU4, d_u4(Some(0x7fc0_0000u32))), off0, *off as int, acc, Val::U4(rv_test_min));
            lemma_pres_step(s, e, fs, 12, fd(FieldKind::KU4, d_u4(Some(0x7fc0_0000u32))), off0, *off as int, acc, Val::U4(rv_test_min), p0,
                *pres as int);
            acc = acc.push(Val::U4(rv_test_min));
        }
        let ghost off0 = *off as int;
        let ghost p0 = *pres as int;
        if *off < bytes.len() {
            *pres = 14;
        }
        let rv_test_max = match rd_u4(bytes, off, e, Some(0x7fc0_0000u32)) {
            Ok(v) => v,
            Err(er) => {
                proof {
                    lemma_read_step_none(s, e, fs, 13, fd(FieldKind::KU4, d_u4(Some(0x7fc0_0000u32))), off0, acc);
                }
                return Err(er);
            },
        };
        proof {
            lemma_read_step(s, e, fs, 13, fd(FieldKind::KU4, d_u4(Some(0x7fc0_0000u32))), off0, *off as int, acc, Val::U4(rv_test_max));
            lemma_pres_step(s, e, fs, 13, fd(FieldKind::KU4, d_u4(Some(0x7fc0_0000u32))), off0, *off as int, acc, Val::U4(rv_test_max), p0,
                *pres as int);
            acc = acc.push(Val::U4(rv_test_max));
        }
        Ok((rv_test_nam, rv_seq_name, rv_test_lbl, rv_opt_flag, rv_test_tim, rv_test_min, rv_test_max))
    }

    /// Reads fields 14 .. 16 of the record.
    #[verifier::rlimit(100)]
    #[verifier::spinoff_prover]
    fn read_seg2(
        bytes: &[u8],
        off: &mut usize,
        pres: &mut usize,
        e: Endian,
        Ghost(acc0): Ghost<Seq<Val>>,
    ) -> (r: Result<(u32, u32), StdfError>)
        requires
            *old(off) <= bytes@.len(),
            *old(pres) <= 14,
            acc0.len() == 14,
            sdecode(bytes@, e, Self::fields()) == sdecode_from(
                bytes@, e, Self::fields(), 14, *old(off) as int, acc0,
            ),
            spres_inv(bytes@, e, Self::fields(), 14, *old(off) as int, acc0,
                *old(pres) as int),
        ensures
            *final(off) <= bytes@.len(),
            *final(pres) <= 16,
            match r {
                Ok(t) => sdecode(bytes@, e, Self::fields()) == sdecode_from(
                    bytes@, e, Self::fields(), 16, *final(off) as int,
                    acc0.push(Val::U4(t.0)).push(Val::U4(t.1)),
                ) && spres_inv(bytes@, e, Self::fields(), 16, *final(off) as int,
                    acc0.push(Val::U4(t.0)).push(Val::U4(t.1)),
                    *final(pres) as int,
                ),
                Err(_) => sdecode(bytes@, e, Self::fields()) is None,
            },
    {
        let ghost s = bytes@;
        let ghost fs = Self::fields();
        let ghost mut acc = acc0;
        let ghost off0 = *off as int;
        let ghost p0 = *pres as int;
        if *off < bytes.len() {
            *pres = 15;
        }
        let rv_tst_sums = match rd_u4(bytes, off, e, Some(0x7fc0_0000u32)) {
            Ok(v) => v,
            Err(er) => {
                proof {
                    lemma_read_step_none(s, e, fs, 14, fd(FieldKind::KU4, d_u4(Some(0x7fc0_0000u32))), off0, acc);
                }
                return Err(er);
            },
        };
        proof {
            lemma_read_step(s, e, fs, 14, fd(FieldKind::KU4, d_u4(Some(0x7fc0_0000u32))), off0, *off as int, acc, Val::U4(rv_tst_sums));
            lemma_pres_step(s, e, fs, 14, fd(FieldKind::KU4, d_u4(Some(0x7fc0_0000u32))), off0, *off as int, acc, Val::U4(rv_tst_sums), p0,
                *pres as int);
            acc = acc.push(Val::U4(rv_tst_sums));
        }
        let ghost off0 = *off as int;
        let ghost p0 = *pres as int;
        if *off < bytes.len() {
            *pres = 16;
        }
        let rv_tst_sqrs = match rd_u4(bytes, off, e, Some(0x7fc0_0000u32)) {
            Ok(v) => v,
            Err(er) => {
                proof {
                    lemma_read_step_none(s, e, fs, 15, fd(FieldKind::KU4, d_u4(Some(0x7fc0_0000u32))), off0, acc);
                }
                return Err(er);
            },
        };
        proof {
            lemma_read_step(s, e, fs, 15, fd(FieldKind::KU4, d_u4(Some(0x7fc0_0000u32))), off0, *off as int, acc, Val::U4(rv_tst_sqrs));
            lemma_pres_step(s, e, fs, 15, fd(FieldKind::KU4, d_u4(Some(0x7fc0_0000u32))), off0, *off as int, acc, Val::U4(rv_tst_sqrs), p0,
                *pres as int);
            acc = acc.push(Val::U4(rv_tst_sqrs));
        }
        Ok((rv_tst_sums, rv_tst_sqrs))
    }

    /// Decodes a record payload: fields in declaration order, trailing
    /// absent fields at their defaults.
    #[verifier::rlimit(100)]
    #[verifier::spinoff_prover]
    pub fn read(bytes: &[u8], e: Endian) -> (r: Result<TSR, StdfError>)
        ensures
            match r {
                Ok(rec) => sdecode(bytes@, e, Self::fields()) == Some(rec.val_seq())
                    && rec.wf() && rec.present as int == spres(bytes@, e, Self::fields()),
                Err(_) => sdecode(bytes@, e, Self::fields()) is None,
            },
    {
        let ghost s = bytes@;
        let ghost fs = Self::fields();
        let mut off: usize = 0;
        let mut pres: usize = 0;
        proof {
            lemma_read_begin(s, e, fs);
            lemma_pres_begin(s, e, fs);
        }
        let ghost acc_0 = Seq::<Val>::empty();
        let t0 = match Self::read_seg0(bytes, &mut off, &mut pres, e, Ghost(acc_0)) {
            Ok(t) => t,
            Err(er) => {
                return Err(er);
            },
        };
        let ghost acc_1 = acc_0.push(Val::U1(t0.0)).push(Val::U1(t0.1)).push(Val::U1(t0.2)).push(Val::U4(t0.3)).push(Val::U4(t0.4)).push(Val::U4(t0.5)).push(Val::U4(t0.6));
        let t1 = match Self::read_seg1(bytes, &mut off, &mut pres, e, Ghost(acc_1)) {
            Ok(t) => t,
            Err(er) => {
                return Err(er);
            },
        };
        let ghost acc_2 = acc_1.push(Val::Cn(t1.0@)).push(Val::Cn(t1.1@)).push(Val::Cn(t1.2@)).push(Val::U1(t1.3)).push(Val::U4(t1.4)).push(Val::U4(t1.5)).push(Val::U4(t1.6));
        let t2 = match Self::read_seg2(bytes, &mut off, &mut pres, e, Ghost(acc_2)) {
            Ok(t) => t,
            Err(er) => {
                return Err(er);
            },
        };
        let ghost acc_3 = acc_2.push(Val::U4(t2.0)).push(Val::U4(t2.1));
        let rec = TSR {
            head_num: U1(t0.0),
            site_num: U1(t0.1),
            test_typ: C1(t0.2),
            test_num: U4(t0.3),
            exec_cnt: U4(t0.4),
            fail_cnt: U4(t0.5),
            alrm_cnt: U4(t0.6),
            test_nam: Cn(t1.0),
            seq_name: Cn(t1.1),
            test_lbl: Cn(t1.2),
            opt_flag: B1(t1.3),
            test_tim: R4(t1.4),
            test_min: R4(t1.5),
            test_max: R4(t1.6),
            tst_sums: R4(t2.0),
            tst_sqrs: R4(t2.1),
            present: pres,
        };
        proof {
            lemma_read_end(s, e, fs, off as int, acc_3);
            lemma_pres_end(s, e, fs, off as int, acc_3, pres as int);
            Self::lemma_val_seq_unfold(rec);
            lemma_sdecode_match(s, e, fs);
        }
        Ok(rec)
    }

    /// The field values, written out as the pushes the decoder makes.
    #[verifier::rlimit(100)]
    #[verifier::spinoff_prover]
    proof fn lemma_val_seq_unfold(rec: TSR)
        ensures
            rec.val_seq() == Seq::<Val>::empty()
                .push(Val::U1(rec.head_num.0))
                .push(Val::U1(rec.site_num.0))
                .push(Val::U1(rec.test_typ.0))
                .push(Val::U4(rec.test_num.0))
                .push(Val::U4(rec.exec_cnt.0))
                .push(Val::U4(rec.fail_cnt.0))
                .push(Val::U4(rec.alrm_cnt.0))
                .push(Val::Cn(rec.test_nam.0@))
                .push(Val::Cn(rec.seq_name.0@))
                .push(Val::Cn(rec.test_lbl.0@))
                .push(Val::U1(rec.opt_flag.0))
                .push(Val::U4(rec.test_tim.0))
                .push(Val::U4(rec.test_min.0))
                .push(Val::U4(rec.test_max.0))
                .push(Val::U4(rec.tst_sums.0))
                .push(Val::U4(rec.tst_sqrs.0))
            ,
    {
        assert(rec.val_seq() =~= Seq::<Val>::empty()
            .push(Val::U1(rec.head_num.0))
            .push(Val::U1(rec.site_num.0))
            .push(Val::U1(rec.test_typ.0))
            .push(Val::U4(rec.test_num.0))
            .push(Val::U4(rec.exec_cnt.0))
            .push(Val::U4(rec.fail_cnt.0))
            .push(Val::U4(rec.alrm_cnt.0))
            .push(Val::Cn(rec.test_nam.0@))
            .push(Val::Cn(rec.seq_name.0@))
            .push(Val::Cn(rec.test_lbl.0@))
            .push(Val::U1(rec.opt_flag.0))
            .push(Val::U4(rec.test_tim.0))
            .push(Val::U4(rec.test_min.0))
            .push(Val::U4(rec.test_max.0))
            .push(Val::U4(rec.tst_sums.0))
            .push(Val::U4(rec.tst_sqrs.0))
        );
    }

    /// Appends the payload encoding of the record to a buffer.
    #[verifier::rlimit(100)]
    #[verifier::spinoff_prover]
    pub fn write(&self, out: &mut Vec<u8>, e: Endian)
        requires
            self.wf(),
        ensures
            final(out)@ == old(out)@ + self.enc(e),
    {
        let ghost vs = self.val_seq();
        let ghost kk = self.present as int;
        let keep = self.present;
        proof {
            assert(0 <= kk <= 16);
            lemma_write_begin(e, vs, old(out)@);
        }
        let ghost mid = out@;
        if keep > 0 {
            wr_u1(out, self.head_num.0);
            proof {
                assert(vs[0] == Val::U1(self.head_num.0));
                lemma_write_step(e, vs, 0, old(out)@, mid, out@);
            }
        }
        proof {
            assert(out@ == old(out)@ + enc_vals(e, vs.take(
                if kk > 0 {
                    1int
                } else {
                    kk
                },
            )));
        }
        let ghost mid = out@;
        if keep > 1 {
            wr_u1(out, self.site_num.0);
            proof {
                assert(vs[1] == Val::U1(self.site_num.0));
                lemma_write_step(e, vs, 1, old(out)@, mid, out@);
            }
        }
        proof {
            assert(out@ == old(out)@ + enc_vals(e, vs.take(
                if kk > 1 {
                    2int
                } else {
                    kk
                },
            )));
        }
        let ghost mid = out@;
        if keep > 2 {
            wr_u1(out, self.test_typ.0);
            proof {
                assert(vs[2] == Val::U1(self.test_typ.0));
                lemma_write_step(e, vs, 2, old(out)@, mid, out@);
            }
        }
        proof {
            assert(out@ == old(out)@ + enc_vals(e, vs.take(
                if kk > 2 {
                    3int
                } else {
                    kk
                },
            )));
        }
        let ghost mid = out@;
        if keep > 3 {
            wr_u4(out, e, self.test_num.0);
            proof {
                assert(vs[3] == Val::U4(self.test_num.0));
                lemma_write_step(e, vs, 3, old(out)@, mid, out@);
            }
        }
        proof {
            assert(out@ == old(out)@ + enc_vals(e, vs.take(
                if kk > 3 {
                    4int
                } else {
                    kk
                },
            )));
        }
        let ghost mid = out@;
        if keep > 4 {
            wr_u4(out, e, self.exec_cnt.0);
            proof {
                assert(vs[4] == Val::U4(self.exec_cnt.0));
                lemma_write_step(e, vs, 4, old(out)@, mid, out@);
            }
        }
        proof {
            assert(out@ == old(out)@ + enc_vals(e, vs.take(
                if kk > 4 {
                    5int
                } else {
                    kk
                },
            )));
        }
        let ghost mid = out@;
        if keep > 5 {
            wr_u4(out, e, self.fail_cnt.0);
            proof {
                assert(vs[5] == Val::U4(self.fail_cnt.0));
                lemma_write_step(e, vs, 5, old(out)@, mid, out@);
            }
        }
        proof {
            assert(out@ == old(out)@ + enc_vals(e, vs.take(
                if kk > 5 {
                    6int
                } else {
                    kk
                },
            )));
        }
        let ghost mid = out@;
        if keep > 6 {
            wr_u4(out, e, self.alrm_cnt.0);
            proof {
                assert(vs[6] == Val::U4(self.alrm_cnt.0));
                lemma_write_step(e, vs, 6, old(out)@, mid, out@);
            }
        }
        proof {
            assert(out@ == old(out)@ + enc_vals(e, vs.take(
                if kk > 6 {
                    7int
                } else {
                    kk
                },
            )));
        }
        let ghost mid = out@;
        if keep > 7 {
            proof {
                assert(val_matches_at(Self::fields(), vs, 7));
            }
            wr_cn(out, self.test_nam.0.as_slice());
            proof {
                assert(vs[7] == Val::Cn(self.test_nam.0@));
                lemma_write_step(e, vs, 7, old(out)@, mid, out@);
            }
        }
        proof {
            assert(out@ == old(out)@ + enc_vals(e, vs.take(
                if kk > 7 {
                    8int
                } else {
                    kk
                },
            )));
        }
        let ghost mid = out@;
        if keep > 8 {
            proof {
                assert(val_matches_at(Self::fields(), vs, 8));
            }
            wr_cn(out, self.seq_name.0.as_slice());
            proof {
                assert(vs[8] == Val::Cn(self.seq_name.0@));
                lemma_write_step(e, vs, 8, old(out)@, mid, out@);
            }
        }
        proof {
            assert(out@ == old(out)@ + enc_vals(e, vs.take(
                if kk > 8 {
                    9int
                } else {
                    kk
                },
            )));
        }
        let ghost mid = out@;
        if keep > 9 {
            proof {
                assert(val_matches_at(Self::fields(), vs, 9));
            }
            wr_cn(out, self.test_lbl.0.as_slice());
            proof {
                assert(vs[9] == Val::Cn(self.test_lbl.0@));
                lemma_write_step(e, vs, 9, old(out)@, mid, out@);
            }
        }
        proof {
            assert(out@ == old(out)@ + enc_vals(e, vs.take(
                if kk > 9 {
                    10int
                } else {
                    kk
                },
            )));
        }
        let ghost mid = out@;
        if keep > 10 {
            wr_u1(out, self.opt_flag.0);
            proof {
                assert(vs[10] == Val::U1(self.opt_flag.0));
                lemma_write_step(e, vs, 10, old(out)@, mid, out@);
            }
        }
        proof {
            assert(out@ == old(out)@ + enc_vals(e, vs.take(
                if kk > 10 {
                    11int
                } else {
                    kk
                },
            )));
        }
        let ghost mid = out@;
        if keep > 11 {
            wr_u4(out, e, self.test_tim.0);
            proof {
                assert(vs[11] == Val::U4(self.test_tim.0));
                lemma_write_step(e, vs, 11, old(out)@, mid, out@);
            }
        }
        proof {
            assert(out@ == old(out)@ + enc_vals(e, vs.take(
                if kk > 11 {
                    12int
                } else {
                    kk
                },
            )));
        }
        let ghost mid = out@;
        if keep > 12 {
            wr_u4(out, e, self.test_min.0);
            proof {
                assert(vs[12] == Val::U4(self.test_min.0));
                lemma_write_step(e, vs, 12, old(out)@, mid, out@);
            }
        }
        proof {
            assert(out@ == old(out)@ + enc_vals(e, vs.take(
                if kk > 12 {
                    13int
                } else {
                    kk
                },
            )));
        }
        let ghost mid = out@;
        if keep > 13 {
            wr_u4(out, e, self.test_max.0);
            proof {
                assert(vs[13] == Val::U4(self.test_max.0));
                lemma_write_step(e, vs, 13, old(out)@, mid, out@);
            }
        }
        proof {
            assert(out@ == old(out)@ + enc_vals(e, vs.take(
                if kk > 13 {
                    14int
                } else {
                    kk
                },
            )));
        }
        let ghost mid = out@;
        if keep > 14 {
            wr_u4(out, e, self.tst_sums.0);
            proof {
                assert(vs[14] == Val::U4(self.tst_sums.0));
                lemma_write_step(e, vs, 14, old(out)@, mid, out@);
            }
        }
        proof {
            assert(out@ == old(out)@ + enc_vals(e, vs.take(
                if kk > 14 {
                    15int
                } else {
                    kk
                },
            )));
        }
        let ghost mid = out@;
        if keep > 15 {
            wr_u4(out, e, self.tst_sqrs.0);
            proof {
                assert(vs[15] == Val::U4(self.tst_sqrs.0));
                lemma_write_step(e, vs, 15, old(out)@, mid, out@);
            }
        }
        proof {
            assert(out@ == old(out)@ + enc_vals(e, vs.take(
                if kk > 15 {
                    16int
                } else {
                    kk
                },
            )));
        }
        proof {
            assert(out@ == old(out)@ + enc_vals(e, vs.take(kk)));
        }
    }
}

/// PTR: the Parametric Test Record, with pair (15, 10).
#[derive(Clone, Debug, PartialEq, Eq)]
pub struct PTR {
    pub test_num: U4,
    pub head_num: U1,
    pub site_num: U1,
    pub test_flg: B1,
    pub parm_flg: B1,
    pub result: R4,
    pub test_txt: Cn,
    pub alarm_id: Cn,
    pub opt_flag: B1,
    pub res_scal: I1,
    pub llm_scal: I1,
    pub hlm_scal: I1,
    pub lo_limit: R4,
    pub hi_limit: R4,
    pub units: Cn,
    pub c_resfmt: Cn,
    pub c_llmfmt: Cn,
    pub c_hlmfmt: Cn,
    pub lo_spec: R4,
    pub hi_spec: R4,
    /// How many leading fields stood on the wire when the record
    /// was decoded; `write` puts exactly these back.
    pub present: usize,
}

impl PTR {
    /// The field layout of the record: wire kind, default, and for
    /// an array the position of its count field.
    pub open spec fn fields() -> Seq<FieldDef> {
        seq![
            fd(FieldKind::KU4, d_u4(None)),
            fd(FieldKind::KU1, d_u1(None)),
            fd(FieldKind::KU1, d_u1(None)),
            fd(FieldKind::KU1, d_u1(None)),
            fd(FieldKind::KU1, d_u1(None)),
            fd(FieldKind::KU4, d_u4(Some(0x7fc0_0000u32))),
            fd(FieldKind::KCn, d_cn(true)),
            fd(FieldKind::KCn, d_cn(true)),
            fd(FieldKind::KU1, d_u1(Some(0x00u8))),
            fd(FieldKind::KU1, d_u1(Some(0x80u8))),
            fd(FieldKind::KU1, d_u1(Some(0x80u8))),
            fd(FieldKind::KU1, d_u1(Some(0x80u8))),
            fd(FieldKind::KU4, d_u4(Some(0x7fc0_0000u32))),
            fd(FieldKind::KU4, d_u4(Some(0x7fc0_0000u32))),
            fd(FieldKind::KCn, d_cn(true)),
            fd(FieldKind::KCn, d_cn(true)),
            fd(FieldKind::KCn, d_cn(true)),
            fd(FieldKind::KCn, d_cn(true)),
            fd(FieldKind::KU4, d_u4(Some(0x7fc0_0000u32))),
            fd(FieldKind::KU4, d_u4(Some(0x7fc0_0000u32))),
        ]
    }

    /// The field values of the record, in declaration order.
    pub open spec fn val_seq(self) -> Seq<Val> {
        seq![
            Val::U4(self.test_num.0),
            Val::U1(self.head_num.0),
            Val::U1(self.site_num.0),
            Val::U1(self.test_flg.0),
            Val::U1(self.parm_flg.0),
            Val::U4(self.result.0),
            Val::Cn(self.test_txt.0@),
            Val::Cn(self.alarm_id.0@),
            Val::U1(self.opt_flag.0),
            Val::U1(from_i8(self.res_scal.0)),
            Val::U1(from_i8(self.llm_scal.0)),
            Val::U1(from_i8(self.hlm_scal.0)),
            Val::U4(self.lo_limit.0),
            Val::U4(self.hi_limit.0),
            Val::Cn(self.units.0@),
            Val::Cn(self.c_resfmt.0@),
            Val::Cn(self.c_llmfmt.0@),
            Val::Cn(self.c_hlmfmt.0@),
            Val::U4(self.lo_spec.0),
            Val::U4(self.hi_spec.0),
        ]
    }

    /// Well-formedness: every value fits its wire layout, arrays are
    /// as long as their count fields say or stand empty past the
    /// wire, and the on-the-wire count covers at most every field.
    pub open spec fn wf(self) -> bool {
        vals_match(Self::fields(), self.val_seq()) && self.present <= 20
    }

    /// Well-formedness is exactly conformance of the values to the
    /// layout, with the on-the-wire count in bounds.
    pub proof fn lemma_wf_is_match(self)
        ensures
            self.wf() == (vals_match(Self::fields(), self.val_seq()) && self.present
                <= Self::fields().len()),
    {
    }

    /// The payload bytes of the record under a byte order: the
    /// fields that stood on the wire, in declaration order; the
    /// absent tail stays off it.
    pub open spec fn enc(self, e: Endian) -> Seq<u8> {
        enc_vals(e, self.val_seq().take(self.present as int))
    }

    /// Every array that stood on the wire is as long as its count
    /// field says, so the record can be framed back onto it.
    pub open spec fn counts_ok(self) -> bool {
        counts_strict_upto(Self::fields(), self.val_seq(), self.present as int)
    }

    /// Every field past the on-the-wire count holds its declared
    /// default or is empty.
    pub open spec fn tail_absent(self) -> bool {
        forall|i: int|
            self.present <= i < Self::fields().len() ==> #[trigger] suppressible(
                Self::fields()[i],
                self.val_seq()[i],
            )
    }

    /// A record decoded off the wire is framed: its on-the-wire
    /// arrays match their counts and its absent fields hold their
    /// defaults.
    pub proof fn lemma_decoded_shape(self, s: Seq<u8>, e: Endian)
        requires
            sdecode(s, e, Self::fields()) == Some(self.val_seq()),
            self.present as int == spres(s, e, Self::fields()),
        ensures
            self.counts_ok(),
            self.tail_absent(),
    {
        lemma_sdecode_present(s, e, Self::fields());
    }

    /// Reads fields 0 .. 7 of the record.
    #[verifier::rlimit(100)]
    #[verifier::spinoff_prover]
    fn read_seg0(
        bytes: &[u8],
        off: &mut usize,
        pres: &mut usize,
        e: Endian,
        Ghost(acc0): Ghost<Seq<Val>>,
    ) -> (r: Result<(u32, u8, u8, u8, u8, u32, Vec<u8>), StdfError>)
        requires
            *old(off) <= bytes@.len(),
            *old(pres) <= 0,
            acc0.len() == 0,
            sdecode(bytes@, e, Self::fields()) == sdecode_from(
                bytes@, e, Self::fields(), 0, *old(off) as int, acc0,
            ),
            spres_inv(bytes@, e, Self::fields(), 0, *old(off) as int, acc0,
                *old(pres) as int),
        ensures
            *final(off) <= bytes@.len(),
            *final(pres) <= 7,
            match r {
                Ok(t) => sdecode(bytes@, e, Self::fields()) == sdecode_from(
                    bytes@, e, Self::fields(), 7, *final(off) as int,
                    acc0.push(Val::U4(t.0)).push(Val::U1(t.1)).push(Val::U1(t.2)).push(Val::U1(t.3)).push(Val::U1(t.4)).push(Val::U4(t.5)).push(Val::Cn(t.6@)),
                ) && spres_inv(bytes@, e, Self::fields(), 7, *final(off) as int,
                    acc0.push(Val::U4(t.0)).push(Val::U1(t.1)).push(Val::U1(t.2)).push(Val::U1(t.3)).push(Val::U1(t.4)).push(Val::U4(t.5)).push(Val::Cn(t.6@)),
                    *final(pres) as int,
                ),
                Err(_) => sdecode(bytes@, e, Self::fields()) is None,
            },
    {
        let ghost s = bytes@;
        let ghost fs = Self::fields();
        let ghost mut acc = acc0;
        let ghost off0 = *off as int;
        let ghost p0 = *pres as int;
        if *off < bytes.len() {
            *pres = 1;
        }
        let rv_test_num = match rd_u4(bytes, off, e, None) {
            Ok(v) => v,
            Err(er) => {
                proof {
                    lemma_read_step_none(s, e, fs, 0, fd(FieldKind::KU4, d_u4(None)), off0, acc);
                }
                return Err(er);
            },
        };
        proof {
            lemma_read_step(s, e, fs, 0, fd(FieldKind::KU4, d_u4(None)), off0, *off as int, acc, Val::U4(rv_test_num));
            lemma_pres_step(s, e, fs, 0, fd(FieldKind::KU4, d_u4(None)), off0, *off as int, acc, Val::U4(rv_test_num), p0,
                *pres as int);
            acc = acc.push(Val::U4(rv_test_num));
        }
        let ghost off0 = *off as int;
        let ghost p0 = *pres as int;
        if *off < bytes.len() {
            *pres = 2;
        }
        let rv_head_num = match rd_u1(bytes, off, e, None) {
            Ok(v) => v,
            Err(er) => {
                proof {
                    lemma_read_step_none(s, e, fs, 1, fd(FieldKind::KU1, d_u1(None)), off0, acc);
                }
                return Err(er);
            },
        };
        proof {
            lemma_read_step(s, e, fs, 1, fd(FieldKind::KU1, d_u1(None)), off0, *off as int, acc, Val::U1(rv_head_num));
            lemma_pres_step(s, e, fs, 1, fd(FieldKind::KU1, d_u1(None)), off0, *off as int, acc, Val::U1(rv_head_num), p0,
                *pres as int);
            acc = acc.push(Val::U1(rv_head_num));
        }
        let ghost off0 = *off as int;
        let ghost p0 = *pres as int;
        if *off < bytes.len() {
            *pres = 3;
        }
        let rv_site_num = match rd_u1(bytes, off, e, None) {
            Ok(v) => v,
            Err(er) => {
                proof {
                    lemma_read_step_none(s, e, fs, 2, fd(FieldKind::KU1, d_u1(None)), off0, acc);
                }
                return Err(er);
            },
        };
        proof {
            lemma_read_step(s, e, fs, 2, fd(FieldKind::KU1, d_u1(None)), off0, *off as int, acc, Val::U1(rv_site_num));
            lemma_pres_step(s, e, fs, 2, fd(FieldKind::KU1, d_u1(None)), off0, *off as int, acc, Val::U1(rv_site_num), p0,
                *pres as int);
            acc = acc.push(Val::U1(rv_site_num));
        }
        let ghost off0 = *off as int;
        let ghost p0 = *pres as int;
        if *off < bytes.len() {
            *pres = 4;
        }
        let rv_test_flg = match rd_u1(bytes, off, e, None) {
            Ok(v) => v,
            Err(er) => {
                proof {
                    lemma_read_step_none(s, e, fs, 3, fd(FieldKind::KU1, d_u1(None)), off0, acc);
                }
                return Err(er);
            },
        };
        proof {
            lemma_read_step(s, e, fs, 3, fd(FieldKind::KU1, d_u1(None)), off0, *off as int, acc, Val::U1(rv_test_flg));
            lemma_pres_step(s, e, fs, 3, fd(FieldKind::KU1, d_u1(None)), off0, *off as int, acc, Val::U1(rv_test_flg), p0,
                *pres as int);
            acc = acc.push(Val::U1(rv_test_flg));
        }
        let ghost off0 = *off as int;
        let ghost p0 = *pres as int;
        if *off < bytes.len() {
            *pres = 5;
        }
        let rv_parm_flg = match rd_u1(bytes, off, e, None) {
            Ok(v) => v,
            Err(er) => {
                proof {
                    lemma_read_step_none(s, e, fs, 4, fd(FieldKind::KU1, d_u1(None)), off0, acc);
                }
                return Err(er);
            },
        };
        proof {
            lemma_read_step(s, e, fs, 4, fd(FieldKind::KU1, d_u1(None)), off0, *off as int, acc, Val::U1(rv_parm_flg));
            lemma_pres_step(s, e, fs, 4, fd(FieldKind::KU1, d_u1(None)), off0, *off as int, acc, Val::U1(rv_parm_flg), p0,
                *pres as int);
            acc = acc.push(Val::U1(rv_parm_flg));
        }
        let ghost off0 = *off as int;
        let ghost p0 = *pres as int;
        if *off < bytes.len() {
            *pres = 6;
        }
        let rv_result = match rd_u4(bytes, off, e, Some(0x7fc0_0000u32)) {
            Ok(v) => v,
            Err(er) => {
                proof {
                    lemma_read_step_none(s, e, fs, 5, fd(FieldKind::KU4, d_u4(Some(0x7fc0_0000u32))), off0, acc);
                }
                return Err(er);
            },
        };
        proof {
            lemma_read_step(s, e, fs, 5, fd(FieldKind::KU4, d_u4(Some(0x7fc0_0000u32))), off0, *off as int, acc, Val::U4(rv_result));
            lemma_pres_step(s, e, fs, 5, fd(FieldKind::KU4, d_u4(Some(0x7fc0_0000u32))), off0, *off as int, acc, Val::U4(rv_result), p0,
                *pres as int);
            acc = acc.push(Val::U4(rv_result));
        }
        let ghost off0 = *off as int;
        let ghost p0 = *pres as int;
        if *off < bytes.len() {
            *pres = 7;
        }
        let rv_test_txt = match rd_cn(bytes, off, e, true) {
            Ok(v) => v,
            Err(er) => {
                proof {
                    lemma_read_step_none(s, e, fs, 6, fd(FieldKind::KCn, d_cn(true)), off0, acc);
                }
                return Err(er);
            },
        };
        proof {
            lemma_read_step(s, e, fs, 6, fd(FieldKind::KCn, d_cn(true)), off0, *off as int, acc, Val::Cn(rv_test_txt@));
            lemma_pres_step(s, e, fs, 6, fd(FieldKind::KCn, d_cn(true)), off0, *off as int, acc, Val::Cn(rv_test_txt@), p0,
                *pres as int);
            acc = acc.push(Val::Cn(rv_test_txt@));
        }
        Ok((rv_test_num, rv_head_num, rv_site_num, rv_test_flg, rv_parm_flg, rv_result, rv_test_txt))
    }

    /// Reads fields 7 .. 14 of the record.
    #[verifier::rlimit(100)]
    #[verifier::spinoff_prover]
    fn read_seg1(
        bytes: &[u8],
        off: &mut usize,
        pres: &mut usize,
        e: Endian,
        Ghost(acc0): Ghost<Seq<Val>>,
    ) -> (r: Result<(Vec<u8>, u8, u8, u8, u8, u32, u32), StdfError>)
        requires
            *old(off) <= bytes@.len(),
            *old(pres) <= 7,
            acc0.len() == 7,
            sdecode(bytes@, e, Self::fields()) == sdecode_from(
                bytes@, e, Self::fields(), 7, *old(off) as int, acc0,
            ),
            spres_inv(bytes@, e, Self::fields(), 7, *old(off) as int, acc0,
                *old(pres) as int),
        ensures
            *final(off) <= bytes@.len(),
            *final(pres) <= 14,
            match r {
                Ok(t) => sdecode(bytes@, e, Self::fields()) == sdecode_from(
                    bytes@, e, Self::fields(), 14, *final(off) as int,
                    acc0.push(Val::Cn(t.0@)).push(Val::U1(t.1)).push(Val::U1(t.2)).push(Val::U1(t.3)).push(Val::U1(t.4)).push(Val::U4(t.5)).push(Val::U4(t.6)),
                ) && spres_inv(bytes@, e, Self::fields(), 14, *final(off) as int,
                    acc0.push(Val::Cn(t.0@)).push(Val::U1(t.1)).push(Val::U1(t.2)).push(Val::U1(t.3)).push(Val::U1(t.4)).push(Val::U4(t.5)).push(Val::U4(t.6)),
                    *final(pres) as int,
                ),
                Err(_) => sdecode(bytes@, e, Self::fields()) is None,
            },
    {
        let ghost s = bytes@;
        let ghost fs = Self::fields();
        let ghost mut acc = acc0;
        let ghost off0 = *off as int;
        let ghost p0 = *pres as int;
        if *off < bytes.len() {
            *pres = 8;
        }
        let rv_alarm_id = match rd_cn(bytes, off, e, true) {
            Ok(v) => v,
            Err(er) => {
                proof {
                    lemma_read_step_none(s, e, fs, 7, fd(FieldKind::KCn, d_cn(true)), off0, acc);
                }
                return Err(er);
            },
        };
        proof {
            lemma_read_step(s, e, fs, 7, fd(FieldKind::KCn, d_cn(true)), off0, *off as int, acc, Val::Cn(rv_alarm_id@));
            lemma_pres_step(s, e, fs, 7, fd(FieldKind::KCn, d_cn(true)), off0, *off as int, acc, Val::Cn(rv_alarm_id@), p0,
                *pres as int);
            acc = acc.push(Val::Cn(rv_alarm_id@));
        }
        let ghost off0 = *off as int;
        let ghost p0 = *pres as int;
        if *off < bytes.len() {
            *pres = 9;
        }
        let rv_opt_flag = match rd_u1(bytes, off, e, Some(0x00u8)) {
            Ok(v) => v,
            Err(er) => {
                proof {
                    lemma_read_step_none(s, e, fs, 8, fd(FieldKind::KU1, d_u1(Some(0x00u8))), off0, acc);
                }
                return Err(er);
            },
        };
        proof {
            lemma_read_step(s, e, fs, 8, fd(FieldKind::KU1, d_u1(Some(0x00u8))), off0, *off as int, acc, Val::U1(rv_opt_flag));
            lemma_pres_step(s, e, fs, 8, fd(FieldKind::KU1, d_u1(Some(0x00u8))), off0, *off as int, acc, Val::U1(rv_opt_flag), p0,
                *pres as int);
            acc = acc.push(Val::U1(rv_opt_flag));
        }
        let ghost off0 = *off as int;
        let ghost p0 = *pres as int;
        if *off < bytes.len() {
            *pres = 10;
        }
        let rv_res_scal = match rd_u1(bytes, off, e, Some(0x80u8)) {
            Ok(v) => v,
            Err(er) => {
                proof {
                    lemma_read_step_none(s, e, fs, 9, fd(FieldKind::KU1, d_u1(Some(0x80u8))), off0, acc);
                }
                return Err(er);
            },
        };
        proof {
            lemma_read_step(s, e, fs, 9, fd(FieldKind::KU1, d_u1(Some(0x80u8))), off0, *off as int, acc, Val::U1(rv_res_scal));
            lemma_pres_step(s, e, fs, 9, fd(FieldKind::KU1, d_u1(Some(0x80u8))), off0, *off as int, acc, Val::U1(rv_res_scal), p0,
                *pres as int);
            acc = acc.push(Val::U1(rv_res_scal));
        }
        let ghost off0 = *off as int;
        let ghost p0 = *pres as int;
        if *off < bytes.len() {
            *pres = 11;
        }
        let rv_llm_scal = match rd_u1(bytes, off, e, Some(0x80u8)) {
            Ok(v) => v,
            Err(er) => {
                proof {
                    lemma_read_step_none(s, e, fs, 10, fd(FieldKind::KU1, d_u1(Some(0x80u8))), off0, acc);
                }
                return Err(er);
            },
        };
        proof {
            lemma_read_step(s, e, fs, 10, fd(FieldKind::KU1, d_u1(Some(0x80u8))), off0, *off as int, acc, Val::U1(rv_llm_scal));
            lemma_pres_step(s, e, fs, 10, fd(FieldKind::KU1, d_u1(Some(0x80u8))), off0, *off as int, acc, Val::U1(rv_llm_scal), p0,
                *pres as int);
            acc = acc.push(Val::U1(rv_llm_scal));
        }
        let ghost off0 = *off as int;
        let ghost p0 = *pres as int;
        if *off < bytes.len() {
            *pres = 12;
        }
        let rv_hlm_scal = match rd_u1(bytes, off, e, Some(0x80u8)) {
            Ok(v) => v,
            Err(er) => {
                proof {
                    lemma_read_step_none(s, e, fs, 11, fd(FieldKind::KU1, d_u1(Some(0x80u8))), off0, acc);
                }
                return Err(er);
            },
        };
        proof {
            lemma_read_step(s, e, fs, 11, fd(FieldKind::KU1, d_u1(Some(0x80u8))), off0, *off as int, acc, Val::U1(rv_hlm_scal));
            lemma_pres_step(s, e, fs, 11, fd(FieldKind::KU1, d_u1(Some(0x80u8))), off0, *off as int, acc, Val::U1(rv_hlm_scal), p0,
                *pres as int);
            acc = acc.push(Val::U1(rv_hlm_scal));
        }
        let ghost off0 = *off as int;
        let ghost p0 = *pres as int;
        if *off < bytes.len() {
            *pres = 13;
        }
        let rv_lo_limit = match rd_u4(bytes, off, e, Some(0x7fc0_0000u32)) {
            Ok(v) => v,
            Err(er) => {
                proof {
                    lemma_read_step_none(s, e, fs, 12, fd(FieldKind::KU4, d_u4(Some(0x7fc0_0000u32))), off0, acc);
                }
                return Err(er);
            },
        };
        proof {
            lemma_read_step(s, e, fs, 12, fd(FieldKind::KU4, d_u4(Some(0x7fc0_0000u32))), off0, *off as int, acc, Val::U4(rv_lo_limit));
            lemma_pres_step(s, e, fs, 12, fd(FieldKind::KU4, d_u4(Some(0x7fc0_0000u32))), off0, *off as int, acc, Val::U4(rv_lo_limit), p0,
                *pres as int);
            acc = acc.push(Val::U4(rv_lo_limit));
        }
        let ghost off0 = *off as int;
        let ghost p0 = *pres as int;
        if *off < bytes.len() {
            *pres = 14;
        }
        let rv_hi_limit = match rd_u4(bytes, off, e, Some(0x7fc0_0000u32)) {
            Ok(v) => v,
            Err(er) => {
                proof {
                    lemma_read_step_none(s, e, fs, 13, fd(FieldKind::KU4, d_u4(Some(0x7fc0_0000u32))), off0, acc);
                }
                return Err(er);
            },
        };
        proof {
            lemma_read_step(s, e, fs, 13, fd(FieldKind::KU4, d_u4(Some(0x7fc0_0000u32))), off0, *off as int, acc, Val::U4(rv_hi_limit));
            lemma_pres_step(s, e, fs, 13, fd(FieldKind::KU4, d_u4(Some(0x7fc0_0000u32))), off0, *off as int, acc, Val::U4(rv_hi_limit), p0,
                *pres as int);
            acc = acc.push(Val::U4(rv_hi_limit));
        }
        Ok((rv_alarm_id, rv_opt_flag, rv_res_scal, rv_llm_scal, rv_hlm_scal, rv_lo_limit, rv_hi_limit))
    }

    /// Reads fields 14 .. 20 of the record.
    #[verifier::rlimit(100)]
    #[verifier::spinoff_prover]
    fn read_seg2(
        bytes: &[u8],
        off: &mut usize,
        pres: &mut usize,
        e: Endian,
        Ghost(acc0): Ghost<Seq<Val>>,
    ) -> (r: Result<(Vec<u8>, Vec<u8>, Vec<u8>, Vec<u8>, u32, u32), StdfError>)
        requires
            *old(off) <= bytes@.len(),
            *old(pres) <= 14,
            acc0.len() == 14,
            sdecode(bytes@, e, Self::fields()) == sdecode_from(
                bytes@, e, Self::fields(), 14, *old(off) as int, acc0,
            ),
            spres_inv(bytes@, e, Self::fields(), 14, *old(off) as int, acc0,
                *old(pres) as int),
        ensures
            *final(off) <= bytes@.len(),
            *final(pres) <= 20,
            match r {
                Ok(t) => sdecode(bytes@, e, Self::fields()) == sdecode_from(
                    bytes@, e, Self::fields(), 20, *final(off) as int,
                    acc0.push(Val::Cn(t.0@)).push(Val::Cn(t.1@)).push(Val::Cn(t.2@)).push(Val::Cn(t.3@)).push(Val::U4(t.4)).push(Val::U4(t.5)),
                ) && spres_inv(bytes@, e, Self::fields(), 20, *final(off) as int,
                    acc0.push(Val::Cn(t.0@)).push(Val::Cn(t.1@)).push(Val::Cn(t.2@)).push(Val::Cn(t.3@)).push(Val::U4(t.4)).push(Val::U4(t.5)),
                    *final(pres) as int,
                ),
                Err(_) => sdecode(bytes@, e, Self::fields()) is None,
            },
    {
        let ghost s = bytes@;
        let ghost fs = Self::fields();
        let ghost mut acc = acc0;
        let ghost off0 = *off as int;
        let ghost p0 = *pres as int;
        if *off < bytes.len() {
            *pres = 15;
        }
        let rv_units = match rd_cn(bytes, off, e, true) {
            Ok(v) => v,
            Err(er) => {
                proof {
                    lemma_read_step_none(s, e, fs, 14, fd(FieldKind::KCn, d_cn(true)), off0, acc);
                }
                return Err(er);
            },
        };
        proof {
            lemma_read_step(s, e, fs, 14, fd(FieldKind::KCn, d_cn(true)), off0, *off as int, acc, Val::Cn(rv_units@));
            lemma_pres_step(s, e, fs, 14, fd(FieldKind::KCn, d_cn(true)), off0, *off as int, acc, Val::Cn(rv_units@), p0,
                *pres as int);
            acc = acc.push(Val::Cn(rv_units@));
        }
        let ghost off0 = *off as int;
        let ghost p0 = *pres as int;
        if *off < bytes.len() {
            *pres = 16;
        }
        let rv_c_resfmt = match rd_cn(bytes, off, e, true) {
            Ok(v) => v,
            Err(er) => {
                proof {
                    lemma_read_step_none(s, e, fs, 15, fd(FieldKind::KCn, d_cn(true)), off0, acc);
                }
                return Err(er);
            },
        };
        proof {
            lemma_read_step(s, e, fs, 15, fd(FieldKind::KCn, d_cn(true)), off0, *off as int, acc, Val::Cn(rv_c_resfmt@));
            lemma_pres_step(s, e, fs, 15, fd(FieldKind::KCn, d_cn(true)), off0, *off as int, acc, Val::Cn(rv_c_resfmt@), p0,
                *pres as int);
            acc = acc.push(Val::Cn(rv_c_resfmt@));
        }
        let ghost off0 = *off as int;
        let ghost p0 = *pres as int;
        if *off < bytes.len() {
            *pres = 17;
        }
        let rv_c_llmfmt = match rd_cn(bytes, off, e, true) {
            Ok(v) => v,
            Err(er) => {
                proof {
                    lemma_read_step_none(s, e, fs, 16, fd(FieldKind::KCn, d_cn(true)), off0, acc);
                }
                return Err(er);
            },
        };
        proof {
            lemma_read_step(s, e, fs, 16, fd(FieldKind::KCn, d_cn(true)), off0, *off as int, acc, Val::Cn(rv_c_llmfmt@));
            lemma_pres_step(s, e, fs, 16, fd(FieldKind::KCn, d_cn(true)), off0, *off as int, acc, Val::Cn(rv_c_llmfmt@), p0,
                *pres as int);
            acc = acc.push(Val::Cn(rv_c_llmfmt@));
        }
        let ghost off0 = *off as int;
        let ghost p0 = *pres as int;
        if *off < bytes.len() {
            *pres = 18;
        }
        let rv_c_hlmfmt = match rd_cn(bytes, off, e, true) {
            Ok(v) => v,
            Err(er) => {
                proof {
                    lemma_read_step_none(s, e, fs, 17, fd(FieldKind::KCn, d_cn(true)), off0, acc);
                }
                return Err(er);
            },
        };
        proof {
            lemma_read_step(s, e, fs, 17, fd(FieldKind::KCn, d_cn(true)), off0, *off as int, acc, Val::Cn(rv_c_hlmfmt@));
            lemma_pres_step(s, e, fs, 17, fd(FieldKind::KCn, d_cn(true)), off0, *off as int, acc, Val::Cn(rv_c_hlmfmt@), p0,
                *pres as int);
            acc = acc.push(Val::Cn(rv_c_hlmfmt@));
        }
        let ghost off0 = *off as int;
        let ghost p0 = *pres as int;
        if *off < bytes.len() {
            *pres = 19;
        }
        let rv_lo_spec = match rd_u4(bytes, off, e, Some(0x7fc0_0000u32)) {
            Ok(v) => v,
            Err(er) => {
                proof {
                    lemma_read_step_none(s, e, fs, 18, fd(FieldKind::KU4, d_u4(Some(0x7fc0_0000u32))), off0, acc);
                }
                return Err(er);
            },
        };
        proof {
            lemma_read_step(s, e, fs, 18, fd(FieldKind::KU4, d_u4(Some(0x7fc0_0000u32))), off0, *off as int, acc, Val::U4(rv_lo_spec));
            lemma_pres_step(s, e, fs, 18, fd(FieldKind::KU4, d_u4(Some(0x7fc0_0000u32))), off0, *off as int, acc, Val::U4(rv_lo_spec), p0,
                *pres as int);
            acc = acc.push(Val::U4(rv_lo_spec));
        }
        let ghost off0 = *off as int;
        let ghost p0 = *pres as int;
        if *off < bytes.len() {
            *pres = 20;
        }
        let rv_hi_spec = match rd_u4(bytes, off, e, Some(0x7fc0_0000u32)) {
            Ok(v) => v,
            Err(er) => {
                proof {
                    lemma_read_step_none(s, e, fs, 19, fd(FieldKind::KU4, d_u4(Some(0x7fc0_0000u32))), off0, acc);
                }
                return Err(er);
            },
        };
        proof {
            lemma_read_step(s, e, fs, 19, fd(FieldKind::KU4, d_u4(Some(0x7fc0_0000u32))), off0, *off as int, acc, Val::U4(rv_hi_spec));
            lemma_pres_step(s, e, fs, 19, fd(FieldKind::KU4, d_u4(Some(0x7fc0_0000u32))), off0, *off as int, acc, Val::U4(rv_hi_spec), p0,
                *pres as int);
            acc = acc.push(Val::U4(rv_hi_spec));
        }
        Ok((rv_units, rv_c_resfmt, rv_c_llmfmt, rv_c_hlmfmt, rv_lo_spec, rv_hi_spec))
    }

    /// Decodes a record payload: fields in declaration order, trailing
    /// absent fields at their defaults.
    #[verifier::rlimit(100)]
    #[verifier::spinoff_prover]
    pub fn read(bytes: &[u8], e: Endian) -> (r: Result<PTR, StdfError>)
        ensures
            match r {
                Ok(rec) => sdecode(bytes@, e, Self::fields()) == Some(rec.val_seq())
                    && rec.wf() && rec.present as int == spres(bytes@, e, Self::fields()),
                Err(_) => sdecode(bytes@, e, Self::fields()) is None,
            },
    {
        let ghost s = bytes@;
        let ghost fs = Self::fields();
        let mut off: usize = 0;
        let mut pres: usize = 0;
        proof {
            lemma_read_begin(s, e, fs);
            lemma_pres_begin(s, e, fs);
        }
        let ghost acc_0 = Seq::<Val>::empty();
        let t0 = match Self::read_seg0(bytes, &mut off, &mut pres, e, Ghost(acc_0)) {
            Ok(t) => t,
            Err(er) => {
                return Err(er);
            },
        };
        let ghost acc_1 = acc_0.push(Val::U4(t0.0)).push(Val::U1(t0.1)).push(Val::U1(t0.2)).push(Val::U1(t0.3)).push(Val::U1(t0.4)).push(Val::U4(t0.5)).push(Val::Cn(t0.6@));
        let t1 = match Self::read_seg1(bytes, &mut off, &mut pres, e, Ghost(acc_1)) {
            Ok(t) => t,
            Err(er) => {
                return Err(er);
            },
        };
        let ghost acc_2 = acc_1.push(Val::Cn(t1.0@)).push(Val::U1(t1.1)).push(Val::U1(t1.2)).push(Val::U1(t1.3)).push(Val::U1(t1.4)).push(Val::U4(t1.5)).push(Val::U4(t1.6));
        let t2 = match Self::read_seg2(bytes, &mut off, &mut pres, e, Ghost(acc_2)) {
            Ok(t) => t,
            Err(er) => {
                return Err(er);
            },
        };
        let ghost acc_3 = acc_2.push(Val::Cn(t2.0@)).push(Val::Cn(t2.1@)).push(Val::Cn(t2.2@)).push(Val::Cn(t2.3@)).push(Val::U4(t2.4)).push(Val::U4(t2.5));
        let rec = PTR {
            test_num: U4(t0.0),
            head_num: U1(t0.1),
            site_num: U1(t0.2),
            test_flg: B1(t0.3),
            parm_flg: B1(t0.4),
            result: R4(t0.5),
            test_txt: Cn(t0.6),
            alarm_id: Cn(t1.0),
            opt_flag: B1(t1.1),
            res_scal: I1(i8_from_bits(t1.2)),
            llm_scal: I1(i8_from_bits(t1.3)),
            hlm_scal: I1(i8_from_bits(t1.4)),
            lo_limit: R4(t1.5),
            hi_limit: R4(t1.6),
            units: Cn(t2.0),
            c_resfmt: Cn(t2.1),
            c_llmfmt: Cn(t2.2),
            c_hlmfmt: Cn(t2.3),
            lo_spec: R4(t2.4),
            hi_spec: R4(t2.5),
            present: pres,
        };
        proof {
            lemma_signed_round_trip();
            lemma_read_end(s, e, fs, off as int, acc_3);
            lemma_pres_end(s, e, fs, off as int, acc_3, pres as int);
            Self::lemma_val_seq_unfold(rec);
            lemma_sdecode_match(s, e, fs);
        }
        Ok(rec)
    }

    /// The field values, written out as the pushes the decoder makes.
    #[verifier::rlimit(100)]
    #[verifier::spinoff_prover]
    proof fn lemma_val_seq_unfold(rec: PTR)
        ensures
            rec.val_seq() == Seq::<Val>::empty()
                .push(Val::U4(rec.test_num.0))
                .push(Val::U1(rec.head_num.0))
                .push(Val::U1(rec.site_num.0))
                .push(Val::U1(rec.test_flg.0))
                .push(Val::U1(rec.parm_flg.0))
                .push(Val::U4(rec.result.0))
                .push(Val::Cn(rec.test_txt.0@))
                .push(Val::Cn(rec.alarm_id.0@))
                .push(Val::U1(rec.opt_flag.0))
                .push(Val::U1(from_i8(rec.res_scal.0)))
                .push(Val::U1(from_i8(rec.llm_scal.0)))
                .push(Val::U1(from_i8(rec.hlm_scal.0)))
                .push(Val::U4(rec.lo_limit.0))
                .push(Val::U4(rec.hi_limit.0))
                .push(Val::Cn(rec.units.0@))
                .push(Val::Cn(rec.c_resfmt.0@))
                .push(Val::Cn(rec.c_llmfmt.0@))
                .push(Val::Cn(rec.c_hlmfmt.0@))
                .push(Val::U4(rec.lo_spec.0))
                .push(Val::U4(rec.hi_spec.0))
            ,
    {
        assert(rec.val_seq() =~= Seq::<Val>::empty()
            .push(Val::U4(rec.test_num.0))
            .push(Val::U1(rec.head_num.0))
            .push(Val::U1(rec.site_num.0))
            .push(Val::U1(rec.test_flg.0))
            .push(Val::U1(rec.parm_flg.0))
            .push(Val::U4(rec.result.0))
            .push(Val::Cn(rec.test_txt.0@))
            .push(Val::Cn(rec.alarm_id.0@))
            .push(Val::U1(rec.opt_flag.0))
            .push(Val::U1(from_i8(rec.res_scal.0)))
            .push(Val::U1(from_i8(rec.llm_scal.0)))
            .push(Val::U1(from_i8(rec.hlm_scal.0)))
            .push(Val::U4(rec.lo_limit.0))
            .push(Val::U4(rec.hi_limit.0))
            .push(Val::Cn(rec.units.0@))
            .push(Val::Cn(rec.c_resfmt.0@))
            .push(Val::Cn(rec.c_llmfmt.0@))
            .push(Val::Cn(rec.c_hlmfmt.0@))
            .push(Val::U4(rec.lo_spec.0))
            .push(Val::U4(rec.hi_spec.0))
        );
    }

    /// Appends the payload encoding of the record to a buffer.
    #[verifier::rlimit(100)]
    #[verifier::spinoff_prover]
    pub fn write(&self, out: &mut Vec<u8>, e: Endian)
        requires
            self.wf(),
        ensures
            final(out)@ == old(out)@ + self.enc(e),
    {
        let ghost vs = self.val_seq();
        let ghost kk = self.present as int;
        let keep = self.present;
        proof {
            assert(0 <= kk <= 20);
            lemma_write_begin(e, vs, old(out)@);
        }
        let ghost mid = out@;
        if keep > 0 {
            wr_u4(out, e, self.test_num.0);
            proof {
                assert(vs[0] == Val::U4(self.test_num.0));
                lemma_write_step(e, vs, 0, old(out)@, mid, out@);
            }
        }
        proof {
            assert(out@ == old(out)@ + enc_vals(e, vs.take(
                if kk > 0 {
                    1int
                } else {
                    kk
                },
            )));
        }
        let ghost mid = out@;
        if keep > 1 {
            wr_u1(out, self.head_num.0);
            proof {
                assert(vs[1] == Val::U1(self.head_num.0));
                lemma_write_step(e, vs, 1, old(out)@, mid, out@);
            }
        }
        proof {
            assert(out@ == old(out)@ + enc_vals(e, vs.take(
                if kk > 1 {
                    2int
                } else {
                    kk
                },
            )));
        }
        let ghost mid = out@;
        if keep > 2 {
            wr_u1(out, self.site_num.0);
            proof {
                assert(vs[2] == Val::U1(self.site_num.0));
                lemma_write_step(e, vs, 2, old(out)@, mid, out@);
            }
        }
        proof {
            assert(out@ == old(out)@ + enc_vals(e, vs.take(
                if kk > 2 {
                    3int
                } else {
                    kk
                },
            )));
        }
        let ghost mid = out@;
        if keep > 3 {
            wr_u1(out, self.test_flg.0);
            proof {
                assert(vs[3] == Val::U1(self.test_flg.0));
                lemma_write_step(e, vs, 3, old(out)@, mid, out@);
            }
        }
        proof {
            assert(out@ == old(out)@ + enc_vals(e, vs.take(
                if kk > 3 {
                    4int
                } else {
                    kk
                },
            )));
        }
        let ghost mid = out@;
        if keep > 4 {
            wr_u1(out, self.parm_flg.0);
            proof {
                assert(vs[4] == Val::U1(self.parm_flg.0));
                lemma_write_step(e, vs, 4, old(out)@, mid, out@);
            }
        }
        proof {
            assert(out@ == old(out)@ + enc_vals(e, vs.take(
                if kk > 4 {
                    5int
                } else {
                    kk
                },
            )));
        }
        let ghost mid = out@;
        if keep > 5 {
            wr_u4(out, e, self.result.0);
            proof {
                assert(vs[5] == Val::U4(self.result.0));
                lemma_write_step(e, vs, 5, old(out)@, mid, out@);
            }
        }
        proof {
            assert(out@ == old(out)@ + enc_vals(e, vs.take(
                if kk > 5 {
                    6int
                } else {
                    kk
                },
            )));
        }
        let ghost mid = out@;
        if keep > 6 {
            proof {
                assert(val_matches_at(Self::fields(), vs, 6));
            }
            wr_cn(out, self.test_txt.0.as_slice());
            proof {
                assert(vs[6] == Val::Cn(self.test_txt.0@));
                lemma_write_step(e, vs, 6, old(out)@, mid, out@);
            }
        }
        proof {
            assert(out@ == old(out)@ + enc_vals(e, vs.take(
                if kk > 6 {
                    7int
                } else {
                    kk
                },
            )));
        }
        let ghost mid = out@;
        if keep > 7 {
            proof {
                assert(val_matches_at(Self::fields(), vs, 7));
            }
            wr_cn(out, self.alarm_id.0.as_slice());
            proof {
                assert(vs[7] == Val::Cn(self.alarm_id.0@));
                lemma_write_step(e, vs, 7, old(out)@, mid, out@);
            }
        }
        proof {
            assert(out@ == old(out)@ + enc_vals(e, vs.take(
                if kk > 7 {
                    8int
                } else {
                    kk
                },
            )));
        }
        let ghost mid = out@;
        if keep > 8 {
            wr_u1(out, self.opt_flag.0);
            proof {
                assert(vs[8] == Val::U1(self.opt_flag.0));
                lemma_write_step(e, vs, 8, old(out)@, mid, out@);
            }
        }
        proof {
            assert(out@ == old(out)@ + enc_vals(e, vs.take(
                if kk > 8 {
                    9int
                } else {
                    kk
                },
            )));
        }
        let ghost mid = out@;
        if keep > 9 {
            wr_u1(out, i8_to_bits(self.res_scal.0));
            proof {
                assert(vs[9] == Val::U1(from_i8(self.res_scal.0)));
                lemma_write_step(e, vs, 9, old(out)@, mid, out@);
            }
        }
        proof {
            assert(out@ == old(out)@ + enc_vals(e, vs.take(
                if kk > 9 {
                    10int
                } else {
                    kk
                },
            )));
        }
        let ghost mid = out@;
        if keep > 10 {
            wr_u1(out, i8_to_bits(self.llm_scal.0));
            proof {
                assert(vs[10] == Val::U1(from_i8(self.llm_scal.0)));
                lemma_write_step(e, vs, 10, old(out)@, mid, out@);
            }
        }
        proof {
            assert(out@ == old(out)@ + enc_vals(e, vs.take(
                if kk > 10 {
                    11int
                } else {
                    kk
                },
            )));
        }
        let ghost mid = out@;
        if keep > 11 {
            wr_u1(out, i8_to_bits(self.hlm_scal.0));
            proof {
                assert(vs[11] == Val::U1(from_i8(self.hlm_scal.0)));
                lemma_write_step(e, vs, 11, old(out)@, mid, out@);
            }
        }
        proof {
            assert(out@ == old(out)@ + enc_vals(e, vs.take(
                if kk > 11 {
                    12int
                } else {
                    kk
                },
            )));
        }
        let ghost mid = out@;
        if keep > 12 {
            wr_u4(out, e, self.lo_limit.0);
            proof {
                assert(vs[12] == Val::U4(self.lo_limit.0));
                lemma_write_step(e, vs, 12, old(out)@, mid, out@);
            }
        }
        proof {
            assert(out@ == old(out)@ + enc_vals(e, vs.take(
                if kk > 12 {
                    13int
                } else {
                    kk
                },
            )));
        }
        let ghost mid = out@;
        if keep > 13 {
            wr_u4(out, e, self.hi_limit.0);
            proof {
                assert(vs[13] == Val::U4(self.hi_limit.0));
                lemma_write_step(e, vs, 13, old(out)@, mid, out@);
            }
        }
        proof {
            assert(out@ == old(out)@ + enc_vals(e, vs.take(
                if kk > 13 {
                    14int
                } else {
                    kk
                },
            )));
        }
        let ghost mid = out@;
        if keep > 14 {
            proof {
                assert(val_matches_at(Self::fields(), vs, 14));
            }
            wr_cn(out, self.units.0.as_slice());
            proof {
                assert(vs[14] == Val::Cn(self.units.0@));
                lemma_write_step(e, vs, 14, old(out)@, mid, out@);
            }
        }
        proof {
            assert(out@ == old(out)@ + enc_vals(e, vs.take(
                if kk > 14 {
                    15int
                } else {
                    kk
                },
            )));
        }
        let ghost mid = out@;
        if keep > 15 {
            proof {
                assert(val_matches_at(Self::fields(), vs, 15));
            }
            wr_cn(out, self.c_resfmt.0.as_slice());
            proof {
                assert(vs[15] == Val::Cn(self.c_resfmt.0@));
                lemma_write_step(e, vs, 15, old(out)@, mid, out@);
            }
        }
        proof {
            assert(out@ == old(out)@ + enc_vals(e, vs.take(
                if kk > 15 {
                    16int
                } else {
                    kk
                },
            )));
        }
        let ghost mid = out@;
        if keep > 16 {
            proof {
                assert(val_matches_at(Self::fields(), vs, 16));
            }
            wr_cn(out, self.c_llmfmt.0.as_slice());
            proof {
                assert(vs[16] == Val::Cn(self.c_llmfmt.0@));
                lemma_write_step(e, vs, 16, old(out)@, mid, out@);
            }
        }
        proof {
            assert(out@ == old(out)@ + enc_vals(e, vs.take(
                if kk > 16 {
                    17int
                } else {
                    kk
                },
            )));
        }
        let ghost mid = out@;
        if keep > 17 {
            proof {
                assert(val_matches_at(Self::fields(), vs, 17));
            }
            wr_cn(out, self.c_hlmfmt.0.as_slice());
            proof {
                assert(vs[17] == Val::Cn(self.c_hlmfmt.0@));
                lemma_write_step(e, vs, 17, old(out)@, mid, out@);
            }
        }
        proof {
            assert(out@ == old(out)@ + enc_vals(e, vs.take(
                if kk > 17 {
                    18int
                } else {
                    kk
                },
            )));
        }
        let ghost mid = out@;
        if keep > 18 {
            wr_u4(out, e, self.lo_spec.0);
            proof {
                assert(vs[18] == Val::U4(self.lo_spec.0));
                lemma_write_step(e, vs, 18, old(out)@, mid, out@);
            }
        }
        proof {
            assert(out@ == old(out)@ + enc_vals(e, vs.take(
                if kk > 18 {
                    19int
                } else {
                    kk
                },
            )));
        }
        let ghost mid = out@;
        if keep > 19 {
            wr_u4(out, e, self.hi_spec.0);
            proof {
                assert(vs[19] == Val::U4(self.hi_spec.0));
                lemma_write_step(e, vs, 19, old(out)@, mid, out@);
            }
        }
        proof {
            assert(out@ == old(out)@ + enc_vals(e, vs.take(
                if kk > 19 {
                    20int
                } else {
                    kk
                },
            )));
        }
        proof {
            assert(out@ == old(out)@ + enc_vals(e, vs.take(kk)));
        }
    }
}

/// MPR: the Multiple-Result Parametric Record, with pair (15, 15).
#[derive(Clone, Debug, PartialEq, Eq)]
pub struct MPR {
    pub test_num: U4,
    pub head_num: U1,
    pub site_num: U1,
    pub test_flg: B1,
    pub parm_flg: B1,
    pub rtn_icnt: U2,
    pub rslt_cnt: U2,
    pub rtn_stat: Vec<N1>,
    pub rtn_rslt: Vec<R4>,
    pub test_txt: Cn,
    pub alarm_id: Cn,
    pub opt_flag: B1,
    pub res_scal: I1,
    pub llm_scal: I1,
    pub hlm_scal: I1,
    pub lo_limit: R4,
    pub hi_limit: R4,
    pub start_in: R4,
    pub incr_in: R4,
    pub rtn_indx: Vec<U2>,
    pub units: Cn,
    pub units_in: Cn,
    pub c_resfmt: Cn,
    pub c_llmfmt: Cn,
    pub c_hlmfmt: Cn,
    pub lo_spec: R4,
    pub hi_spec: R4,
    /// How many leading fields stood on the wire when the record
    /// was decoded; `write` puts exactly these back.
    pub present: usize,
}

impl MPR {
    /// The field layout of the record: wire kind, default, and for
    /// an array the position of its count field.
    pub open spec fn fields() -> Seq<FieldDef> {
        seq![
            fd(FieldKind::KU4, d_u4(None)),
            fd(FieldKind::KU1, d_u1(None)),
            fd(FieldKind::KU1, d_u1(None)),
            fd(FieldKind::KU1, d_u1(None)),
            fd(FieldKind::KU1, d_u1(None)),
            fd(FieldKind::KU2, d_u2(Some(0u16))),
            fd(FieldKind::KU2, d_u2(Some(0u16))),
            fd(FieldKind::KArr(Elem::EN1, 5), None),
            fd(FieldKind::KArr(Elem::EU4, 6), None),
            fd(FieldKind::KCn, d_cn(true)),
            fd(FieldKind::KCn, d_cn(true)),
            fd(FieldKind::KU1, d_u1(Some(0x00u8))),
            fd(FieldKind::KU1, d_u1(Some(0x80u8))),
            fd(FieldKind::KU1, d_u1(Some(0x80u8))),
            fd(FieldKind::KU1, d_u1(Some(0x80u8))),
            fd(FieldKind::KU4, d_u4(Some(0x7fc0_0000u32))),
            fd(FieldKind::KU4, d_u4(Some(0x7fc0_0000u32))),
            fd(FieldKind::KU4, d_u4(Some(0x7fc0_0000u32))),
            fd(FieldKind::KU4, d_u4(Some(0x7fc0_0000u32))),
            fd(FieldKind::KArr(Elem::EU2, 5), None),
            fd(FieldKind::KCn, d_cn(true)),
            fd(FieldKind::KCn, d_cn(true)),
            fd(FieldKind::KCn, d_cn(true)),
            fd(FieldKind::KCn, d_cn(true)),
            fd(FieldKind::KCn, d_cn(true)),
            fd(FieldKind::KU4, d_u4(Some(0x7fc0_0000u32))),
            fd(FieldKind::KU4, d_u4(Some(0x7fc0_0000u32))),
        ]
    }

    /// The field values of the record, in declaration order.
    pub open spec fn val_seq(self) -> Seq<Val> {
        seq![
            Val::U4(self.test_num.0),
            Val::U1(self.head_num.0),
            Val::U1(self.site_num.0),
            Val::U1(self.test_flg.0),
            Val::U1(self.parm_flg.0),
            Val::U2(self.rtn_icnt.0),
            Val::U2(self.rslt_cnt.0),
            Val::ArrN1(self.rtn_stat.deep_view()),
            Val::ArrU4(self.rtn_rslt.deep_view()),
            Val::Cn(self.test_txt.0@),
            Val::Cn(self.alarm_id.0@),
            Val::U1(self.opt_flag.0),
            Val::U1(from_i8(self.res_scal.0)),
            Val::U1(from_i8(self.llm_scal.0)),
            Val::U1(from_i8(self.hlm_scal.0)),
            Val::U4(self.lo_limit.0),
            Val::U4(self.hi_limit.0),
            Val::U4(self.start_in.0),
            Val::U4(self.incr_in.0),
            Val::ArrU2(self.rtn_indx.deep_view()),
            Val::Cn(self.units.0@),
            Val::Cn(self.units_in.0@),
            Val::Cn(self.c_resfmt.0@),
            Val::Cn(self.c_llmfmt.0@),
            Val::Cn(self.c_hlmfmt.0@),
            Val::U4(self.lo_spec.0),
            Val::U4(self.hi_spec.0),
        ]
    }

    /// Well-formedness: every value fits its wire layout, arrays are
    /// as long as their count fields say or stand empty past the
    /// wire, and the on-the-wire count covers at most every field.
    pub open spec fn wf(self) -> bool {
        vals_match(Self::fields(), self.val_seq()) && self.present <= 27
    }

    /// Well-formedness is exactly conformance of the values to the
    /// layout, with the on-the-wire count in bounds.
    pub proof fn lemma_wf_is_match(self)
        ensures
            self.wf() == (vals_match(Self::fields(), self.val_seq()) && self.present
                <= Self::fields().len()),
    {
    }

    /// The payload bytes of the record under a byte order: the
    /// fields that stood on the wire, in declaration order; the
    /// absent tail stays off it.
    pub open spec fn enc(self, e: Endian) -> Seq<u8> {
        enc_vals(e, self.val_seq().take(self.present as int))
    }

    /// Every array that stood on the wire is as long as its count
    /// field says, so the record can be framed back onto it.
    pub open spec fn counts_ok(self) -> bool {
        counts_strict_upto(Self::fields(), self.val_seq(), self.present as int)
    }

    /// Every field past the on-the-wire count holds its declared
    /// default or is empty.
    pub open spec fn tail_absent(self) -> bool {
        forall|i: int|
            self.present <= i < Self::fields().len() ==> #[trigger] suppressible(
                Self::fields()[i],
                self.val_seq()[i],
            )
    }

    /// A record decoded off the wire is framed: its on-the-wire
    /// arrays match their counts and its absent fields hold their
    /// defaults.
    pub proof fn lemma_decoded_shape(self, s: Seq<u8>, e: Endian)
        requires
            sdecode(s, e, Self::fields()) == Some(self.val_seq()),
            self.present as int == spres(s, e, Self::fields()),
        ensures
            self.counts_ok(),
            self.tail_absent(),
    {
        lemma_sdecode_present(s, e, Self::fields());
    }

    /// Reads fields 0 .. 7 of the record.
    #[verifier::rlimit(100)]
    #[verifier::spinoff_prover]
    fn read_seg0(
        bytes: &[u8],
        off: &mut usize,
        pres: &mut usize,
        e: Endian,
        Ghost(acc0): Ghost<Seq<Val>>,
    ) -> (r: Result<(u32, u8, u8, u8, u8, u16, u16), StdfError>)
        requires
            *old(off) <= bytes@.len(),
            *old(pres) <= 0,
            acc0.len() == 0,
            sdecode(bytes@, e, Self::fields()) == sdecode_from(
                bytes@, e, Self::fields(), 0, *old(off) as int, acc0,
            ),
            spres_inv(bytes@, e, Self::fields(), 0, *old(off) as int, acc0,
                *old(pres) as int),
        ensures
            *final(off) <= bytes@.len(),
            *final(pres) <= 7,
            match r {
                Ok(t) => sdecode(bytes@, e, Self::fields()) == sdecode_from(
                    bytes@, e, Self::fields(), 7, *final(off) as int,
                    acc0.push(Val::U4(t.0)).push(Val::U1(t.1)).push(Val::U1(t.2)).push(Val::U1(t.3)).push(Val::U1(t.4)).push(Val::U2(t.5)).push(Val::U2(t.6)),
                ) && spres_inv(bytes@, e, Self::fields(), 7, *final(off) as int,
                    acc0.push(Val::U4(t.0)).push(Val::U1(t.1)).push(Val::U1(t.2)).push(Val::U1(t.3)).push(Val::U1(t.4)).push(Val::U2(t.5)).push(Val::U2(t.6)),
                    *final(pres) as int,
                ),
                Err(_) => sdecode(bytes@, e, Self::fields()) is None,
            },
    {
        let ghost s = bytes@;
        let ghost fs = Self::fields();
        let ghost mut acc = acc0;
        let ghost off0 = *off as int;
        let ghost p0 = *pres as int;
        if *off < bytes.len() {
            *pres = 1;
        }
        let rv_test_num = match rd_u4(bytes, off, e, None) {
            Ok(v) => v,
            Err(er) => {
                proof {
                    lemma_read_step_none(s, e, fs, 0, fd(FieldKind::KU4, d_u4(None)), off0, acc);
                }
                return Err(er);
            },
        };
        proof {
            lemma_read_step(s, e, fs, 0, fd(FieldKind::KU4, d_u4(None)), off0, *off as int, acc, Val::U4(rv_test_num));
            lemma_pres_step(s, e, fs, 0, fd(FieldKind::KU4, d_u4(None)), off0, *off as int, acc, Val::U4(rv_test_num), p0,
                *pres as int);
            acc = acc.push(Val::U4(rv_test_num));
        }
        let ghost off0 = *off as int;
        let ghost p0 = *pres as int;
        if *off < bytes.len() {
            *pres = 2;
        }
        let rv_head_num = match rd_u1(bytes, off, e, None) {
            Ok(v) => v,
            Err(er) => {
                proof {
                    lemma_read_step_none(s, e, fs, 1, fd(FieldKind::KU1, d_u1(None)), off0, acc);
                }
                return Err(er);
            },
        };
        proof {
            lemma_read_step(s, e, fs, 1, fd(FieldKind::KU1, d_u1(None)), off0, *off as int, acc, Val::U1(rv_head_num));
            lemma_pres_step(s, e, fs, 1, fd(FieldKind::KU1, d_u1(None)), off0, *off as int, acc, Val::U1(rv_head_num), p0,
                *pres as int);
            acc = acc.push(Val::U1(rv_head_num));
        }
        let ghost off0 = *off as int;
        let ghost p0 = *pres as int;
        if *off < bytes.len() {
            *pres = 3;
        }
        let rv_site_num = match rd_u1(bytes, off, e, None) {
            Ok(v) => v,
            Err(er) => {
                proof {
                    lemma_read_step_none(s, e, fs, 2, fd(FieldKind::KU1, d_u1(None)), off0, acc);
                }
                return Err(er);
            },
        };
        proof {
            lemma_read_step(s, e, fs, 2, fd(FieldKind::KU1, d_u1(None)), off0, *off as int, acc, Val::U1(rv_site_num));
            lemma_pres_step(s, e, fs, 2, fd(FieldKind::KU1, d_u1(None)), off0, *off as int, acc, Val::U1(rv_site_num), p0,
                *pres as int);
            acc = acc.push(Val::U1(rv_site_num));
        }
        let ghost off0 = *off as int;
        let ghost p0 = *pres as int;
        if *off < bytes.len() {
            *pres = 4;
        }
        let rv_test_flg = match rd_u1(bytes, off, e, None) {
            Ok(v) => v,
            Err(er) => {
                proof {
                    lemma_read_step_none(s, e, fs, 3, fd(FieldKind::KU1, d_u1(None)), off0, acc);
                }
                return Err(er);
            },
        };
        proof {
            lemma_read_step(s, e, fs, 3, fd(FieldKind::KU1, d_u1(None)), off0, *off as int, acc, Val::U1(rv_test_flg));
            lemma_pres_step(s, e, fs, 3, fd(FieldKind::KU1, d_u1(None)), off0, *off as int, acc, Val::U1(rv_test_flg), p0,
                *pres as int);
            acc = acc.push(Val::U1(rv_test_flg));
        }
        let ghost off0 = *off as int;
        let ghost p0 = *pres as int;
        if *off < bytes.len() {
            *pres = 5;
        }
        let rv_parm_flg = match rd_u1(bytes, off, e, None) {
            Ok(v) => v,
            Err(er) => {
                proof {
                    lemma_read_step_none(s, e, fs, 4, fd(FieldKind::KU1, d_u1(None)), off0, acc);
                }
                return Err(er);
            },
        };
        proof {
            lemma_read_step(s, e, fs, 4, fd(FieldKind::KU1, d_u1(None)), off0, *off as int, acc, Val::U1(rv_parm_flg));
            lemma_pres_step(s, e, fs, 4, fd(FieldKind::KU1, d_u1(None)), off0, *off as int, acc, Val::U1(rv_parm_flg), p0,
                *pres as int);
            acc = acc.push(Val::U1(rv_parm_flg));
        }
        let ghost off0 = *off as int;
        let ghost p0 = *pres as int;
        if *off < bytes.len() {
            *pres = 6;
        }
        let rv_rtn_icnt = match rd_u2(bytes, off, e, Some(0u16)) {
            Ok(v) => v,
            Err(er) => {
                proof {
                    lemma_read_step_none(s, e, fs, 5, fd(FieldKind::KU2, d_u2(Some(0u16))), off0, acc);
                }
                return Err(er);
            },
        };
        proof {
            lemma_read_step(s, e, fs, 5, fd(FieldKind::KU2, d_u2(Some(0u16))), off0, *off as int, acc, Val::U2(rv_rtn_icnt));
            lemma_pres_step(s, e, fs, 5, fd(FieldKind::KU2, d_u2(Some(0u16))), off0, *off as int, acc, Val::U2(rv_rtn_icnt), p0,
                *pres as int);
            acc = acc.push(Val::U2(rv_rtn_icnt));
        }
        let ghost off0 = *off as int;
        let ghost p0 = *pres as int;
        if *off < bytes.len() {
            *pres = 7;
        }
        let rv_rslt_cnt = match rd_u2(bytes, off, e, Some(0u16)) {
            Ok(v) => v,
            Err(er) => {
                proof {
                    lemma_read_step_none(s, e, fs, 6, fd(FieldKind::KU2, d_u2(Some(0u16))), off0, acc);
                }
                return Err(er);
            },
        };
        proof {
            lemma_read_step(s, e, fs, 6, fd(FieldKind::KU2, d_u2(Some(0u16))), off0, *off as int, acc, Val::U2(rv_rslt_cnt));
            lemma_pres_step(s, e, fs, 6, fd(FieldKind::KU2, d_u2(Some(0u16))), off0, *off as int, acc, Val::U2(rv_rslt_cnt), p0,
                *pres as int);
            acc = acc.push(Val::U2(rv_rslt_cnt));
        }
        Ok((rv_test_num, rv_head_num, rv_site_num, rv_test_flg, rv_parm_flg, rv_rtn_icnt, rv_rslt_cnt))
    }

    /// Reads fields 7 .. 14 of the record.
    #[verifier::rlimit(100)]
    #[verifier::spinoff_prover]
    fn read_seg1(
        bytes: &[u8],
        off: &mut usize,
        pres: &mut usize,
        e: Endian,
        Ghost(acc0): Ghost<Seq<Val>>,
        cnt_rtn_icnt: u16,
        cnt_rslt_cnt: u16,
    ) -> (r: Result<(Vec<N1>, Vec<R4>, Vec<u8>, Vec<u8>, u8, u8, u8), StdfError>)
        requires
            *old(off) <= bytes@.len(),
            *old(pres) <= 7,
            acc0.len() == 7,
            sdecode(bytes@, e, Self::fields()) == sdecode_from(
                bytes@, e, Self::fields(), 7, *old(off) as int, acc0,
            ),
            spres_inv(bytes@, e, Self::fields(), 7, *old(off) as int, acc0,
                *old(pres) as int),
            acc0[5] == Val::U2(cnt_rtn_icnt),
            acc0[6] == Val::U2(cnt_rslt_cnt),
        ensures
            *final(off) <= bytes@.len(),
            *final(pres) <= 14,
            match r {
                Ok(t) => sdecode(bytes@, e, Self::fields()) == sdecode_from(
                    bytes@, e, Self::fields(), 14, *final(off) as int,
                    acc0.push(Val::ArrN1(t.0.deep_view())).push(Val::ArrU4(t.1.deep_view())).push(Val::Cn(t.2@)).push(Val::Cn(t.3@)).push(Val::U1(t.4)).push(Val::U1(t.5)).push(Val::U1(t.6)),
                ) && spres_inv(bytes@, e, Self::fields(), 14, *final(off) as int,
                    acc0.push(Val::ArrN1(t.0.deep_view())).push(Val::ArrU4(t.1.deep_view())).push(Val::Cn(t.2@)).push(Val::Cn(t.3@)).push(Val::U1(t.4)).push(Val::U1(t.5)).push(Val::U1(t.6)),
                    *final(pres) as int,
                ),
                Err(_) => sdecode(bytes@, e, Self::fields()) is None,
            },
    {
        let ghost s = bytes@;
        let ghost fs = Self::fields();
        let ghost mut acc = acc0;
        let ghost off0 = *off as int;
        let ghost p0 = *pres as int;
        if *off < bytes.len() {
            *pres = 8;
        }
        proof {
            assert(acc[5] == Val::U2(cnt_rtn_icnt));
        }
        let rv_rtn_stat = match rd_arr_n1(bytes, off, e, cnt_rtn_icnt as usize) {
            Ok(v) => v,
            Err(er) => {
                proof {
                    lemma_read_step_arr_none(s, e, fs, 7, Elem::EN1, 5, off0, acc,
                        cnt_rtn_icnt as int);
                }
                return Err(er);
            },
        };
        proof {
            lemma_read_step_arr(s, e, fs, 7, Elem::EN1, 5, off0, *off as int, acc,
                Val::ArrN1(rv_rtn_stat.deep_view()), cnt_rtn_icnt as int);
            lemma_pres_step_arr(s, e, fs, 7, Elem::EN1, 5, off0, *off as int, acc,
                Val::ArrN1(rv_rtn_stat.deep_view()), cnt_rtn_icnt as int, p0, *pres as int);
            acc = acc.push(Val::ArrN1(rv_rtn_stat.deep_view()));
        }
        let ghost off0 = *off as int;
        let ghost p0 = *pres as int;
        if *off < bytes.len() {
            *pres = 9;
        }
        proof {
            assert(acc[6] == Val::U2(cnt_rslt_cnt));
        }
        let rv_rtn_rslt = match rd_arr_u4(bytes, off, e, cnt_rslt_cnt as usize) {
            Ok(v) => v,
            Err(er) => {
                proof {
                    lemma_read_step_arr_none(s, e, fs, 8, Elem::EU4, 6, off0, acc,
                        cnt_rslt_cnt as int);
                }
                return Err(er);
            },
        };
        proof {
            lemma_read_step_arr(s, e, fs, 8, Elem::EU4, 6, off0, *off as int, acc,
                Val::ArrU4(rv_rtn_rslt.deep_view()), cnt_rslt_cnt as int);
            lemma_pres_step_arr(s, e, fs, 8, Elem::EU4, 6, off0, *off as int, acc,
                Val::ArrU4(rv_rtn_rslt.deep_view()), cnt_rslt_cnt as int, p0, *pres as int);
            acc = acc.push(Val::ArrU4(rv_rtn_rslt.deep_view()));
        }
        let ghost off0 = *off as int;
        let ghost p0 = *pres as int;
        if *off < bytes.len() {
            *pres = 10;
        }
        let rv_test_txt = match rd_cn(bytes, off, e, true) {
            Ok(v) => v,
            Err(er) => {
                proof {
                    lemma_read_step_none(s, e, fs, 9, fd(FieldKind::KCn, d_cn(true)), off0, acc);
                }
                return Err(er);
            },
        };
        proof {
            lemma_read_step(s, e, fs, 9, fd(FieldKind::KCn, d_cn(true)), off0, *off as int, acc, Val::Cn(rv_test_txt@));
            lemma_pres_step(s, e, fs, 9, fd(FieldKind::KCn, d_cn(true)), off0, *off as int, acc, Val::Cn(rv_test_txt@), p0,
                *pres as int);
            acc = acc.push(Val::Cn(rv_test_txt@));
        }
        let ghost off0 = *off as int;
        let ghost p0 = *pres as int;
        if *off < bytes.len() {
            *pres = 11;
        }
        let rv_alarm_id = match rd_cn(bytes, off, e, true) {
            Ok(v) => v,
            Err(er) => {
                proof {
                    lemma_read_step_none(s, e, fs, 10, fd(FieldKind::KCn, d_cn(true)), off0, acc);
                }
                return Err(er);
            },
        };
        proof {
            lemma_read_step(s, e, fs, 10, fd(FieldKind::KCn, d_cn(true)), off0, *off as int, acc, Val::Cn(rv_alarm_id@));
            lemma_pres_step(s, e, fs, 10, fd(FieldKind::KCn, d_cn(true)), off0, *off as int, acc, Val::Cn(rv_alarm_id@), p0,
                *pres as int);
            acc = acc.push(Val::Cn(rv_alarm_id@));
        }
        let ghost off0 = *off as int;
        let ghost p0 = *pres as int;
        if *off < bytes.len() {
            *pres = 12;
        }
        let rv_opt_flag = match rd_u1(bytes, off, e, Some(0x00u8)) {
            Ok(v) => v,
            Err(er) => {
                proof {
                    lemma_read_step_none(s, e, fs, 11, fd(FieldKind::KU1, d_u1(Some(0x00u8))), off0, acc);
                }
                return Err(er);
            },
        };
        proof {
            lemma_read_step(s, e, fs, 11, fd(FieldKind::KU1, d_u1(Some(0x00u8))), off0, *off as int, acc, Val::U1(rv_opt_flag));
            lemma_pres_step(s, e, fs, 11, fd(FieldKind::KU1, d_u1(Some(0x00u8))), off0, *off as int, acc, Val::U1(rv_opt_flag), p0,
                *pres as int);
            acc = acc.push(Val::U1(rv_opt_flag));
        }
        let ghost off0 = *off as int;
        let ghost p0 = *pres as int;
        if *off < bytes.len() {
            *pres = 13;
        }
        let rv_res_scal = match rd_u1(bytes, off, e, Some(0x80u8)) {
            Ok(v) => v,
            Err(er) => {
                proof {
                    lemma_read_step_none(s, e, fs, 12, fd(FieldKind::KU1, d_u1(Some(0x80u8))), off0, acc);
                }
                return Err(er);
            },
        };
        proof {
            lemma_read_step(s, e, fs, 12, fd(FieldKind::KU1, d_u1(Some(0x80u8))), off0, *off as int, acc, Val::U1(rv_res_scal));
            lemma_pres_step(s, e, fs, 12, fd(FieldKind::KU1, d_u1(Some(0x80u8))), off0, *off as int, acc, Val::U1(rv_res_scal), p0,
                *pres as int);
            acc = acc.push(Val::U1(rv_res_scal));
        }
        let ghost off0 = *off as int;
        let ghost p0 = *pres as int;
        if *off < bytes.len() {
            *pres = 14;
        }
        let rv_llm_scal = match rd_u1(bytes, off, e, Some(0x80u8)) {
            Ok(v) => v,
            Err(er) => {
                proof {
                    lemma_read_step_none(s, e, fs, 13, fd(FieldKind::KU1, d_u1(Some(0x80u8))), off0, acc);
                }
                return Err(er);
            },
        };
        proof {
            lemma_read_step(s, e, fs, 13, fd(FieldKind::KU1, d_u1(Some(0x80u8))), off0, *off as int, acc, Val::U1(rv_llm_scal));
            lemma_pres_step(s, e, fs, 13, fd(FieldKind::KU1, d_u1(Some(0x80u8))), off0, *off as int, acc, Val::U1(rv_llm_scal), p0,
                *pres as int);
            acc = acc.push(Val::U1(rv_llm_scal));
        }
        Ok((rv_rtn_stat, rv_rtn_rslt, rv_test_txt, rv_alarm_id, rv_opt_flag, rv_res_scal, rv_llm_scal))
    }

    /// Reads fields 14 .. 21 of the record.
    #[verifier::rlimit(100)]
    #[verifier::spinoff_prover]
    fn read_seg2(
        bytes: &[u8],
        off: &mut usize,
        pres: &mut usize,
        e: Endian,
        Ghost(acc0): Ghost<Seq<Val>>,
        cnt_rtn_icnt: u16,
    ) -> (r: Result<(u8, u32, u32, u32, u32, Vec<U2>, Vec<u8>), StdfError>)
        requires
            *old(off) <= bytes@.len(),
            *old(pres) <= 14,
            acc0.len() == 14,
            sdecode(bytes@, e, Self::fields()) == sdecode_from(
                bytes@, e, Self::fields(), 14, *old(off) as int, acc0,
            ),
            spres_inv(bytes@, e, Self::fields(), 14, *old(off) as int, acc0,
                *old(pres) as int),
            acc0[5] == Val::U2(cnt_rtn_icnt),
        ensures
            *final(off) <= bytes@.len(),
            *final(pres) <= 21,
            match r {
                Ok(t) => sdecode(bytes@, e, Self::fields()) == sdecode_from(
                    bytes@, e, Self::fields(), 21, *final(off) as int,
                    acc0.push(Val::U1(t.0)).push(Val::U4(t.1)).push(Val::U4(t.2)).push(Val::U4(t.3)).push(Val::U4(t.4)).push(Val::ArrU2(t.5.deep_view())).push(Val::Cn(t.6@)),
                ) && spres_inv(bytes@, e, Self::fields(), 21, *final(off) as int,
                    acc0.push(Val::U1(t.0)).push(Val::U4(t.1)).push(Val::U4(t.2)).push(Val::U4(t.3)).push(Val::U4(t.4)).push(Val::ArrU2(t.5.deep_view())).push(Val::Cn(t.6@)),
                    *final(pres) as int,
                ),
                Err(_) => sdecode(bytes@, e, Self::fields()) is None,
            },
    {
        let ghost s = bytes@;
        let ghost fs = Self::fields();
        let ghost mut acc = acc0;
        let ghost off0 = *off as int;
        let ghost p0 = *pres as int;
        if *off < bytes.len() {
            *pres = 15;
        }
        let rv_hlm_scal = match rd_u1(bytes, off, e, Some(0x80u8)) {
            Ok(v) => v,
            Err(er) => {
                proof {
                    lemma_read_step_none(s, e, fs, 14, fd(FieldKind::KU1, d_u1(Some(0x80u8))), off0, acc);
                }
                return Err(er);
            },
        };
        proof {
            lemma_read_step(s, e, fs, 14, fd(FieldKind::KU1, d_u1(Some(0x80u8))), off0, *off as int, acc, Val::U1(rv_hlm_scal));
            lemma_pres_step(s, e, fs, 14, fd(FieldKind::KU1, d_u1(Some(0x80u8))), off0, *off as int, acc, Val::U1(rv_hlm_scal), p0,
                *pres as int);
            acc = acc.push(Val::U1(rv_hlm_scal));
        }
        let ghost off0 = *off as int;
        let ghost p0 = *pres as int;
        if *off < bytes.len() {
            *pres = 16;
        }
        let rv_lo_limit = match rd_u4(bytes, off, e, Some(0x7fc0_0000u32)) {
            Ok(v) => v,
            Err(er) => {
                proof {
                    lemma_read_step_none(s, e, fs, 15, fd(FieldKind::KU4, d_u4(Some(0x7fc0_0000u32))), off0, acc);
                }
                return Err(er);
            },
        };
        proof {
            lemma_read_step(s, e, fs, 15, fd(FieldKind::KU4, d_u4(Some(0x7fc0_0000u32))), off0, *off as int, acc, Val::U4(rv_lo_limit));
            lemma_pres_step(s, e, fs, 15, fd(FieldKind::KU4, d_u4(Some(0x7fc0_0000u32))), off0, *off as int, acc, Val::U4(rv_lo_limit), p0,
                *pres as int);
            acc = acc.push(Val::U4(rv_lo_limit));
        }
        let ghost off0 = *off as int;
        let ghost p0 = *pres as int;
        if *off < bytes.len() {
            *pres = 17;
        }
        let rv_hi_limit = match rd_u4(bytes, off, e, Some(0x7fc0_0000u32)) {
            Ok(v) => v,
            Err(er) => {
                proof {
                    lemma_read_step_none(s, e, fs, 16, fd(FieldKind::KU4, d_u4(Some(0x7fc0_0000u32))), off0, acc);
                }
                return Err(er);
            },
        };
        proof {
            lemma_read_step(s, e, fs, 16, fd(FieldKind::KU4, d_u4(Some(0x7fc0_0000u32))), off0, *off as int, acc, Val::U4(rv_hi_limit));
            lemma_pres_step(s, e, fs, 16, fd(FieldKind::KU4, d_u4(Some(0x7fc0_0000u32))), off0, *off as int, acc, Val::U4(rv_hi_limit), p0,
                *pres as int);
            acc = acc.push(Val::U4(rv_hi_limit));
        }
        let ghost off0 = *off as int;
        let ghost p0 = *pres as int;
        if *off < bytes.len() {
            *pres = 18;
        }
        let rv_start_in = match rd_u4(bytes, off, e, Some(0x7fc0_0000u32)) {
            Ok(v) => v,
            Err(er) => {
                proof {
                    lemma_read_step_none(s, e, fs, 17, fd(FieldKind::KU4, d_u4(Some(0x7fc0_0000u32))), off0, acc);
                }
                return Err(er);
            },
        };
        proof {
            lemma_read_step(s, e, fs, 17, fd(FieldKind::KU4, d_u4(Some(0x7fc0_0000u32))), off0, *off as int, acc, Val::U4(rv_start_in));
            lemma_pres_step(s, e, fs, 17, fd(FieldKind::KU4, d_u4(Some(0x7fc0_0000u32))), off0, *off as int, acc, Val::U4(rv_start_in), p0,
                *pres as int);
            acc = acc.push(Val::U4(rv_start_in));
        }
        let ghost off0 = *off as int;
        let ghost p0 = *pres as int;
        if *off < bytes.len() {
            *pres = 19;
        }
        let rv_incr_in = match rd_u4(bytes, off, e, Some(0x7fc0_0000u32)) {
            Ok(v) => v,
            Err(er) => {
                proof {
                    lemma_read_step_none(s, e, fs, 18, fd(FieldKind::KU4, d_u4(Some(0x7fc0_0000u32))), off0, acc);
                }
                return Err(er);
            },
        };
        proof {
            lemma_read_step(s, e, fs, 18, fd(FieldKind::KU4, d_u4(Some(0x7fc0_0000u32))), off0, *off as int, acc, Val::U4(rv_incr_in));
            lemma_pres_step(s, e, fs, 18, fd(FieldKind::KU4, d_u4(Some(0x7fc0_0000u32))), off0, *off as int, acc, Val::U4(rv_incr_in), p0,
                *pres as int);
            acc = acc.push(Val::U4(rv_incr_in));
        }
        let ghost off0 = *off as int;
        let ghost p0 = *pres as int;
        if *off < bytes.len() {
            *pres = 20;
        }
        proof {
            assert(acc[5] == Val::U2(cnt_rtn_icnt));
        }
        let rv_rtn_indx = match rd_arr_u2(bytes, off, e, cnt_rtn_icnt as usize) {
            Ok(v) => v,
            Err(er) => {
                proof {
                    lemma_read_step_arr_none(s, e, fs, 19, Elem::EU2, 5, off0, acc,
                        cnt_rtn_icnt as int);
                }
                return Err(er);
            },
        };
        proof {
            lemma_read_step_arr(s, e, fs, 19, Elem::EU2, 5, off0, *off as int, acc,
                Val::ArrU2(rv_rtn_indx.deep_view()), cnt_rtn_icnt as int);
            lemma_pres_step_arr(s, e, fs, 19, Elem::EU2, 5, off0, *off as int, acc,
                Val::ArrU2(rv_rtn_indx.deep_view()), cnt_rtn_icnt as int, p0, *pres as int);
            acc = acc.push(Val::ArrU2(rv_rtn_indx.deep_view()));
        }
        let ghost off0 = *off as int;
        let ghost p0 = *pres as int;
        if *off < bytes.len() {
            *pres = 21;
        }
        let rv_units = match rd_cn(bytes, off, e, true) {
            Ok(v) => v,
            Err(er) => {
                proof {
                    lemma_read_step_none(s, e, fs, 20, fd(FieldKind::KCn, d_cn(true)), off0, acc);
                }
                return Err(er);
            },
        };
        proof {
            lemma_read_step(s, e, fs, 20, fd(FieldKind::KCn, d_cn(true)), off0, *off as int, acc, Val::Cn(rv_units@));
            lemma_pres_step(s, e, fs, 20, fd(FieldKind::KCn, d_cn(true)), off0, *off as int, acc, Val::Cn(rv_units@), p0,
                *pres as int);
            acc = acc.push(Val::Cn(rv_units@));
        }
        Ok((rv_hlm_scal, rv_lo_limit, rv_hi_limit, rv_start_in, rv_incr_in, rv_rtn_indx, rv_units))
    }

    /// Reads fields 21 .. 27 of the record.
    #[verifier::rlimit(100)]
    #[verifier::spinoff_prover]
    fn read_seg3(
        bytes: &[u8],
        off: &mut usize,
        pres: &mut usize,
        e: Endian,
        Ghost(acc0): Ghost<Seq<Val>>,
    ) -> (r: Result<(Vec<u8>, Vec<u8>, Vec<u8>, Vec<u8>, u32, u32), StdfError>)
        requires
            *old(off) <= bytes@.len(),
            *old(pres) <= 21,
            acc0.len() == 21,
            sdecode(bytes@, e, Self::fields()) == sdecode_from(
                bytes@, e, Self::fields(), 21, *old(off) as int, acc0,
            ),
            spres_inv(bytes@, e, Self::fields(), 21, *old(off) as int, acc0,
                *old(pres) as int),
        ensures
            *final(off) <= bytes@.len(),
            *final(pres) <= 27,
            match r {
                Ok(t) => sdecode(bytes@, e, Self::fields()) == sdecode_from(
                    bytes@, e, Self::fields(), 27, *final(off) as int,
                    acc0.push(Val::Cn(t.0@)).push(Val::Cn(t.1@)).push(Val::Cn(t.2@)).push(Val::Cn(t.3@)).push(Val::U4(t.4)).push(Val::U4(t.5)),
                ) && spres_inv(bytes@, e, Self::fields(), 27, *final(off) as int,
                    acc0.push(Val::Cn(t.0@)).push(Val::Cn(t.1@)).push(Val::Cn(t.2@)).push(Val::Cn(t.3@)).push(Val::U4(t.4)).push(Val::U4(t.5)),
                    *final(pres) as int,
                ),
                Err(_) => sdecode(bytes@, e, Self::fields()) is None,
            },
    {
        let ghost s = bytes@;
        let ghost fs = Self::fields();
        let ghost mut acc = acc0;
        let ghost off0 = *off as int;
        let ghost p0 = *pres as int;
        if *off < bytes.len() {
            *pres = 22;
        }
        let rv_units_in = match rd_cn(bytes, off, e, true) {
            Ok(v) => v,
            Err(er) => {
                proof {
                    lemma_read_step_none(s, e, fs, 21, fd(FieldKind::KCn, d_cn(true)), off0, acc);
                }
                return Err(er);
            },
        };
        proof {
            lemma_read_step(s, e, fs, 21, fd(FieldKind::KCn, d_cn(true)), off0, *off as int, acc, Val::Cn(rv_units_in@));
            lemma_pres_step(s, e, fs, 21, fd(FieldKind::KCn, d_cn(true)), off0, *off as int, acc, Val::Cn(rv_units_in@), p0,
                *pres as int);
            acc = acc.push(Val::Cn(rv_units_in@));
        }
        let ghost off0 = *off as int;
        let ghost p0 = *pres as int;
        if *off < bytes.len() {
            *pres = 23;
        }
        let rv_c_resfmt = match rd_cn(bytes, off, e, true) {
            Ok(v) => v,
            Err(er) => {
                proof {
                    lemma_read_step_none(s, e, fs, 22, fd(FieldKind::KCn, d_cn(true)), off0, acc);
                }
                return Err(er);
            },
        };
        proof {
            lemma_read_step(s, e, fs, 22, fd(FieldKind::KCn, d_cn(true)), off0, *off as int, acc, Val::Cn(rv_c_resfmt@));
            lemma_pres_step(s, e, fs, 22, fd(FieldKind::KCn, d_cn(true)), off0, *off as int, acc, Val::Cn(rv_c_resfmt@), p0,
                *pres as int);
            acc = acc.push(Val::Cn(rv_c_resfmt@));
        }
        let ghost off0 = *off as int;
        let ghost p0 = *pres as int;
        if *off < bytes.len() {
            *pres = 24;
        }
        let rv_c_llmfmt = match rd_cn(bytes, off, e, true) {
            Ok(v) => v,
            Err(er) => {
                proof {
                    lemma_read_step_none(s, e, fs, 23, fd(FieldKind::KCn, d_cn(true)), off0, acc);
                }
                return Err(er);
            },
        };
        proof {
            lemma_read_step(s, e, fs, 23, fd(FieldKind::KCn, d_cn(true)), off0, *off as int, acc, Val::Cn(rv_c_llmfmt@));
            lemma_pres_step(s, e, fs, 23, fd(FieldKind::KCn, d_cn(true)), off0, *off as int, acc, Val::Cn(rv_c_llmfmt@), p0,
                *pres as int);
            acc = acc.push(Val::Cn(rv_c_llmfmt@));
        }
        let ghost off0 = *off as int;
        let ghost p0 = *pres as int;
        if *off < bytes.len() {
            *pres = 25;
        }
        let rv_c_hlmfmt = match rd_cn(bytes, off, e, true) {
            Ok(v) => v,
            Err(er) => {
                proof {
                    lemma_read_step_none(s, e, fs, 24, fd(FieldKind::KCn, d_cn(true)), off0, acc);
                }
                return Err(er);
            },
        };
        proof {
            lemma_read_step(s, e, fs, 24, fd(FieldKind::KCn, d_cn(true)), off0, *off as int, acc, Val::Cn(rv_c_hlmfmt@));
            lemma_pres_step(s, e, fs, 24, fd(FieldKind::KCn, d_cn(true)), off0, *off as int, acc, Val::Cn(rv_c_hlmfmt@), p0,
                *pres as int);
            acc = acc.push(Val::Cn(rv_c_hlmfmt@));
        }
        let ghost off0 = *off as int;
        let ghost p0 = *pres as int;
        if *off < bytes.len() {
            *pres = 26;
        }
        let rv_lo_spec = match rd_u4(bytes, off, e, Some(0x7fc0_0000u32)) {
            Ok(v) => v,
            Err(er) => {
                proof {
                    lemma_read_step_none(s, e, fs, 25, fd(FieldKind::KU4, d_u4(Some(0x7fc0_0000u32))), off0, acc);
                }
                return Err(er);
            },
        };
        proof {
            lemma_read_step(s, e, fs, 25, fd(FieldKind::KU4, d_u4(Some(0x7fc0_0000u32))), off0, *off as int, acc, Val::U4(rv_lo_spec));
            lemma_pres_step(s, e, fs, 25, fd(FieldKind::KU4, d_u4(Some(0x7fc0_0000u32))), off0, *off as int, acc, Val::U4(rv_lo_spec), p0,
                *pres as int);
            acc = acc.push(Val::U4(rv_lo_spec));
        }
        let ghost off0 = *off as int;
        let ghost p0 = *pres as int;
        if *off < bytes.len() {
            *pres = 27;
        }
        let rv_hi_spec = match rd_u4(bytes, off, e, Some(0x7fc0_0000u32)) {
            Ok(v) => v,
            Err(er) => {
                proof {
                    lemma_read_step_none(s, e, fs, 26, fd(FieldKind::KU4, d_u4(Some(0x7fc0_0000u32))), off0, acc);
                }
                return Err(er);
            },
        };
        proof {
            lemma_read_step(s, e, fs, 26, fd(FieldKind::KU4, d_u4(Some(0x7fc0_0000u32))), off0, *off as int, acc, Val::U4(rv_hi_spec));
            lemma_pres_step(s, e, fs, 26, fd(FieldKind::KU4, d_u4(Some(0x7fc0_0000u32))), off0, *off as int, acc, Val::U4(rv_hi_spec), p0,
                *pres as int);
            acc = acc.push(Val::U4(rv_hi_spec));
        }
        Ok((rv_units_in, rv_c_resfmt, rv_c_llmfmt, rv_c_hlmfmt, rv_lo_spec, rv_hi_spec))
    }

    /// Decodes a record payload: fields in declaration order, trailing
    /// absent fields at their defaults.
    #[verifier::rlimit(100)]
    #[verifier::spinoff_prover]
    pub fn read(bytes: &[u8], e: Endian) -> (r: Result<MPR, StdfError>)
        ensures
            match r {
                Ok(rec) => sdecode(bytes@, e, Self::fields()) == Some(rec.val_seq())
                    && rec.wf() && rec.present as int == spres(bytes@, e, Self::fields()),
                Err(_) => sdecode(bytes@, e, Self::fields()) is None,
            },
    {
        let ghost s = bytes@;
        let ghost fs = Self::fields();
        let mut off: usize = 0;
        let mut pres: usize = 0;
        proof {
            lemma_read_begin(s, e, fs);
            lemma_pres_begin(s, e, fs);
        }
        let ghost acc_0 = Seq::<Val>::empty();
        let t0 = match Self::read_seg0(bytes, &mut off, &mut pres, e, Ghost(acc_0)) {
            Ok(t) => t,
            Err(er) => {
                return Err(er);
            },
        };
        let ghost acc_1 = acc_0.push(Val::U4(t0.0)).push(Val::U1(t0.1)).push(Val::U1(t0.2)).push(Val::U1(t0.3)).push(Val::U1(t0.4)).push(Val::U2(t0.5)).push(Val::U2(t0.6));
        proof {
            assert(acc_1[5] == Val::U2(t0.5));
        }
        proof {
            assert(acc_1[6] == Val::U2(t0.6));
        }
        let t1 = match Self::read_seg1(bytes, &mut off, &mut pres, e, Ghost(acc_1), t0.5, t0.6) {
            Ok(t) => t,
            Err(er) => {
                return Err(er);
            },
        };
        let ghost acc_2 = acc_1.push(Val::ArrN1(t1.0.deep_view())).push(Val::ArrU4(t1.1.deep_view())).push(Val::Cn(t1.2@)).push(Val::Cn(t1.3@)).push(Val::U1(t1.4)).push(Val::U1(t1.5)).push(Val::U1(t1.6));
        proof {
            assert(acc_2[5] == Val::U2(t0.5));
        }
        let t2 = match Self::read_seg2(bytes, &mut off, &mut pres, e, Ghost(acc_2), t0.5) {
            Ok(t) => t,
            Err(er) => {
                return Err(er);
            },
        };
        let ghost acc_3 = acc_2.push(Val::U1(t2.0)).push(Val::U4(t2.1)).push(Val::U4(t2.2)).push(Val::U4(t2.3)).push(Val::U4(t2.4)).push(Val::ArrU2(t2.5.deep_view())).push(Val::Cn(t2.6@));
        let t3 = match Self::read_seg3(bytes, &mut off, &mut pres, e, Ghost(acc_3)) {
            Ok(t) => t,
            Err(er) => {
                return Err(er);
            },
        };
        let ghost acc_4 = acc_3.push(Val::Cn(t3.0@)).push(Val::Cn(t3.1@)).push(Val::Cn(t3.2@)).push(Val::Cn(t3.3@)).push(Val::U4(t3.4)).push(Val::U4(t3.5));
        let rec = MPR {
            test_num: U4(t0.0),
            head_num: U1(t0.1),
            site_num: U1(t0.2),
            test_flg: B1(t0.3),
            parm_flg: B1(t0.4),
            rtn_icnt: U2(t0.5),
            rslt_cnt: U2(t0.6),
            rtn_stat: t1.0,
            rtn_rslt: t1.1,
            test_txt: Cn(t1.2),
            alarm_id: Cn(t1.3),
            opt_flag: B1(t1.4),
            res_scal: I1(i8_from_bits(t1.5)),
            llm_scal: I1(i8_from_bits(t1.6)),
            hlm_scal: I1(i8_from_bits(t2.0)),
            lo_limit: R4(t2.1),
            hi_limit: R4(t2.2),
            start_in: R4(t2.3),
            incr_in: R4(t2.4),
            rtn_indx: t2.5,
            units: Cn(t2.6),
            units_in: Cn(t3.0),
            c_resfmt: Cn(t3.1),
            c_llmfmt: Cn(t3.2),
            c_hlmfmt: Cn(t3.3),
            lo_spec: R4(t3.4),
            hi_spec: R4(t3.5),
            present: pres,
        };
        proof {
            lemma_signed_round_trip();
            lemma_read_end(s, e, fs, off as int, acc_4);
            lemma_pres_end(s, e, fs, off as int, acc_4, pres as int);
            Self::lemma_val_seq_unfold(rec);
            lemma_sdecode_match(s, e, fs);
        }
        Ok(rec)
    }

    /// The field values, written out as the pushes the decoder makes.
    #[verifier::rlimit(100)]
    #[verifier::spinoff_prover]
    proof fn lemma_val_seq_unfold(rec: MPR)
        ensures
            rec.val_seq() == Seq::<Val>::empty()
                .push(Val::U4(rec.test_num.0))
                .push(Val::U1(rec.head_num.0))
                .push(Val::U1(rec.site_num.0))
                .push(Val::U1(rec.test_flg.0))
                .push(Val::U1(rec.parm_flg.0))
                .push(Val::U2(rec.rtn_icnt.0))
                .push(Val::U2(rec.rslt_cnt.0))
                .push(Val::ArrN1(rec.rtn_stat.deep_view()))
                .push(Val::ArrU4(rec.rtn_rslt.deep_view()))
                .push(Val::Cn(rec.test_txt.0@))
                .push(Val::Cn(rec.alarm_id.0@))
                .push(Val::U1(rec.opt_flag.0))
                .push(Val::U1(from_i8(rec.res_scal.0)))
                .push(Val::U1(from_i8(rec.llm_scal.0)))
                .push(Val::U1(from_i8(rec.hlm_scal.0)))
                .push(Val::U4(rec.lo_limit.0))
                .push(Val::U4(rec.hi_limit.0))
                .push(Val::U4(rec.start_in.0))
                .push(Val::U4(rec.incr_in.0))
                .push(Val::ArrU2(rec.rtn_indx.deep_view()))
                .push(Val::Cn(rec.units.0@))
                .push(Val::Cn(rec.units_in.0@))
                .push(Val::Cn(rec.c_resfmt.0@))
                .push(Val::Cn(rec.c_llmfmt.0@))
                .push(Val::Cn(rec.c_hlmfmt.0@))
                .push(Val::U4(rec.lo_spec.0))
                .push(Val::U4(rec.hi_spec.0))
            ,
    {
        assert(rec.val_seq() =~= Seq::<Val>::empty()
            .push(Val::U4(rec.test_num.0))
            .push(Val::U1(rec.head_num.0))
            .push(Val::U1(rec.site_num.0))
            .push(Val::U1(rec.test_flg.0))
            .push(Val::U1(rec.parm_flg.0))
            .push(Val::U2(rec.rtn_icnt.0))
            .push(Val::U2(rec.rslt_cnt.0))
            .push(Val::ArrN1(rec.rtn_stat.deep_view()))
            .push(Val::ArrU4(rec.rtn_rslt.deep_view()))
            .push(Val::Cn(rec.test_txt.0@))
            .push(Val::Cn(rec.alarm_id.0@))
            .push(Val::U1(rec.opt_flag.0))
            .push(Val::U1(from_i8(rec.res_scal.0)))
            .push(Val::U1(from_i8(rec.llm_scal.0)))
            .push(Val::U1(from_i8(rec.hlm_scal.0)))
            .push(Val::U4(rec.lo_limit.0))
            .push(Val::U4(rec.hi_limit.0))
            .push(Val::U4(rec.start_in.0))
            .push(Val::U4(rec.incr_in.0))
            .push(Val::ArrU2(rec.rtn_indx.deep_view()))
            .push(Val::Cn(rec.units.0@))
            .push(Val::Cn(rec.units_in.0@))
            .push(Val::Cn(rec.c_resfmt.0@))
            .push(Val::Cn(rec.c_llmfmt.0@))
            .push(Val::Cn(rec.c_hlmfmt.0@))
            .push(Val::U4(rec.lo_spec.0))
            .push(Val::U4(rec.hi_spec.0))
        );
    }

    /// Appends the payload encoding of the record to a buffer.
    #[verifier::rlimit(100)]
    #[verifier::spinoff_prover]
    pub fn write(&self, out: &mut Vec<u8>, e: Endian)
        requires
            self.wf(),
        ensures
            final(out)@ == old(out)@ + self.enc(e),
    {
        let ghost vs = self.val_seq();
        let ghost kk = self.present as int;
        let keep = self.present;
        proof {
            assert(0 <= kk <= 27);
            lemma_write_begin(e, vs, old(out)@);
        }
        let ghost mid = out@;
        if keep > 0 {
            wr_u4(out, e, self.test_num.0);
            proof {
                assert(vs[0] == Val::U4(self.test_num.0));
                lemma_write_step(e, vs, 0, old(out)@, mid, out@);
            }
        }
        proof {
            assert(out@ == old(out)@ + enc_vals(e, vs.take(
                if kk > 0 {
                    1int
                } else {
                    kk
                },
            )));
        }
        let ghost mid = out@;
        if keep > 1 {
            wr_u1(out, self.head_num.0);
            proof {
                assert(vs[1] == Val::U1(self.head_num.0));
                lemma_write_step(e, vs, 1, old(out)@, mid, out@);
            }
        }
        proof {
            assert(out@ == old(out)@ + enc_vals(e, vs.take(
                if kk > 1 {
                    2int
                } else {
                    kk
                },
            )));
        }
        let ghost mid = out@;
        if keep > 2 {
            wr_u1(out, self.site_num.0);
            proof {
                assert(vs[2] == Val::U1(self.site_num.0));
                lemma_write_step(e, vs, 2, old(out)@, mid, out@);
            }
        }
        proof {
            assert(out@ == old(out)@ + enc_vals(e, vs.take(
                if kk > 2 {
                    3int
                } else {
                    kk
                },
            )));
        }
        let ghost mid = out@;
        if keep > 3 {
            wr_u1(out, self.test_flg.0);
            proof {
                assert(vs[3] == Val::U1(self.test_flg.0));
                lemma_write_step(e, vs, 3, old(out)@, mid, out@);
            }
        }
        proof {
            assert(out@ == old(out)@ + enc_vals(e, vs.take(
                if kk > 3 {
                    4int
                } else {
                    kk
                },
            )));
        }
        let ghost mid = out@;
        if keep > 4 {
            wr_u1(out, self.parm_flg.0);
            proof {
                assert(vs[4] == Val::U1(self.parm_flg.0));
                lemma_write_step(e, vs, 4, old(out)@, mid, out@);
            }
        }
        proof {
            assert(out@ == old(out)@ + enc_vals(e, vs.take(
                if kk > 4 {
                    5int
                } else {
                    kk
                },
            )));
        }
        let ghost mid = out@;
        if keep > 5 {
            wr_u2(out, e, self.rtn_icnt.0);
            proof {
                assert(vs[5] == Val::U2(self.rtn_icnt.0));
                lemma_write_step(e, vs, 5, old(out)@, mid, out@);
            }
        }
        proof {
            assert(out@ == old(out)@ + enc_vals(e, vs.take(
                if kk > 5 {
                    6int
                } else {
                    kk
                },
            )));
        }
        let ghost mid = out@;
        if keep > 6 {
            wr_u2(out, e, self.rslt_cnt.0);
            proof {
                assert(vs[6] == Val::U2(self.rslt_cnt.0));
                lemma_write_step(e, vs, 6, old(out)@, mid, out@);
            }
        }
        proof {
            assert(out@ == old(out)@ + enc_vals(e, vs.take(
                if kk > 6 {
                    7int
                } else {
                    kk
                },
            )));
        }
        let ghost mid = out@;
        if keep > 7 {
            wr_arr_n1(out, &self.rtn_stat);
            proof {
                assert(vs[7] == Val::ArrN1(self.rtn_stat.deep_view()));
                lemma_write_step(e, vs, 7, old(out)@, mid, out@);
            }
        }
        proof {
            assert(out@ == old(out)@ + enc_vals(e, vs.take(
                if kk > 7 {
                    8int
                } else {
                    kk
                },
            )));
        }
        let ghost mid = out@;
        if keep > 8 {
            wr_arr_u4(out, e, &self.rtn_rslt);
            proof {
                assert(vs[8] == Val::ArrU4(self.rtn_rslt.deep_view()));
                lemma_write_step(e, vs, 8, old(out)@, mid, out@);
            }
        }
        proof {
            assert(out@ == old(out)@ + enc_vals(e, vs.take(
                if kk > 8 {
                    9int
                } else {
                    kk
                },
            )));
        }
        let ghost mid = out@;
        if keep > 9 {
            proof {
                assert(val_matches_at(Self::fields(), vs, 9));
            }
            wr_cn(out, self.test_txt.0.as_slice());
            proof {
                assert(vs[9] == Val::Cn(self.test_txt.0@));
                lemma_write_step(e, vs, 9, old(out)@, mid, out@);
            }
        }
        proof {
            assert(out@ == old(out)@ + enc_vals(e, vs.take(
                if kk > 9 {
                    10int
                } else {
                    kk
                },
            )));
        }
        let ghost mid = out@;
        if keep > 10 {
            proof {
                assert(val_matches_at(Self::fields(), vs, 10));
            }
            wr_cn(out, self.alarm_id.0.as_slice());
            proof {
                assert(vs[10] == Val::Cn(self.alarm_id.0@));
                lemma_write_step(e, vs, 10, old(out)@, mid, out@);
            }
        }
        proof {
            assert(out@ == old(out)@ + enc_vals(e, vs.take(
                if kk > 10 {
                    11int
                } else {
                    kk
                },
            )));
        }
        let ghost mid = out@;
        if keep > 11 {
            wr_u1(out, self.opt_flag.0);
            proof {
                assert(vs[11] == Val::U1(self.opt_flag.0));
                lemma_write_step(e, vs, 11, old(out)@, mid, out@);
            }
        }
        proof {
            assert(out@ == old(out)@ + enc_vals(e, vs.take(
                if kk > 11 {
                    12int
                } else {
                    kk
                },
            )));
        }
        let ghost mid = out@;
        if keep > 12 {
            wr_u1(out, i8_to_bits(self.res_scal.0));
            proof {
                assert(vs[12] == Val::U1(from_i8(self.res_scal.0)));
                lemma_write_step(e, vs, 12, old(out)@, mid, out@);
            }
        }
        proof {
            assert(out@ == old(out)@ + enc_vals(e, vs.take(
                if kk > 12 {
                    13int
                } else {
                    kk
                },
            )));
        }
        let ghost mid = out@;
        if keep > 13 {
            wr_u1(out, i8_to_bits(self.llm_scal.0));
            proof {
                assert(vs[13] == Val::U1(from_i8(self.llm_scal.0)));
                lemma_write_step(e, vs, 13, old(out)@, mid, out@);
            }
        }
        proof {
            assert(out@ == old(out)@ + enc_vals(e, vs.take(
                if kk > 13 {
                    14int
                } else {
                    kk
                },
            )));
        }
        let ghost mid = out@;
        if keep > 14 {
            wr_u1(out, i8_to_bits(self.hlm_scal.0));
            proof {
                assert(vs[14] == Val::U1(from_i8(self.hlm_scal.0)));
                lemma_write_step(e, vs, 14, old(out)@, mid, out@);
            }
        }
        proof {
            assert(out@ == old(out)@ + enc_vals(e, vs.take(
                if kk > 14 {
                    15int
                } else {
                    kk
                },
            )));
        }
        let ghost mid = out@;
        if keep > 15 {
            wr_u4(out, e, self.lo_limit.0);
            proof {
                assert(vs[15] == Val::U4(self.lo_limit.0));
                lemma_write_step(e, vs, 15, old(out)@, mid, out@);
            }
        }
        proof {
            assert(out@ == old(out)@ + enc_vals(e, vs.take(
                if kk > 15 {
                    16int
                } else {
                    kk
                },
            )));
        }
        let ghost mid = out@;
        if keep > 16 {
            wr_u4(out, e, self.hi_limit.0);
            proof {
                assert(vs[16] == Val::U4(self.hi_limit.0));
                lemma_write_step(e, vs, 16, old(out)@, mid, out@);
            }
        }
        proof {
            assert(out@ == old(out)@ + enc_vals(e, vs.take(
                if kk > 16 {
                    17int
                } else {
                    kk
                },
            )));
        }
        let ghost mid = out@;
        if keep > 17 {
            wr_u4(out, e, self.start_in.0);
            proof {
                assert(vs[17] == Val::U4(self.start_in.0));
                lemma_write_step(e, vs, 17, old(out)@, mid, out@);
            }
        }
        proof {
            assert(out@ == old(out)@ + enc_vals(e, vs.take(
                if kk > 17 {
                    18int
                } else {
                    kk
                },
            )));
        }
        let ghost mid = out@;
        if keep > 18 {
            wr_u4(out, e, self.incr_in.0);
            proof {
                assert(vs[18] == Val::U4(self.incr_in.0));
                lemma_write_step(e, vs, 18, old(out)@, mid, out@);
            }
        }
        proof {
            assert(out@ == old(out)@ + enc_vals(e, vs.take(
                if kk > 18 {
                    19int
                } else {
                    kk
                },
            )));
        }
        let ghost mid = out@;
        if keep > 19 {
            wr_arr_u2(out, e, &self.rtn_indx);
            proof {
                assert(vs[19] == Val::ArrU2(self.rtn_indx.deep_view()));
                lemma_write_step(e, vs, 19, old(out)@, mid, out@);
            }
        }
        proof {
            assert(out@ == old(out)@ + enc_vals(e, vs.take(
                if kk > 19 {
                    20int
                } else {
                    kk
                },
            )));
        }
        let ghost mid = out@;
        if keep > 20 {
            proof {
                assert(val_matches_at(Self::fields(), vs, 20));
            }
            wr_cn(out, self.units.0.as_slice());
            proof {
                assert(vs[20] == Val::Cn(self.units.0@));
                lemma_write_step(e, vs, 20, old(out)@, mid, out@);
            }
        }
        proof {
            assert(out@ == old(out)@ + enc_vals(e, vs.take(
                if kk > 20 {
                    21int
                } else {
                    kk
                },
            )));
        }
        let ghost mid = out@;
        if keep > 21 {
            proof {
                assert(val_matches_at(Self::fields(), vs, 21));
            }
            wr_cn(out, self.units_in.0.as_slice());
            proof {
                assert(vs[21] == Val::Cn(self.units_in.0@));
                lemma_write_step(e, vs, 21, old(out)@, mid, out@);
            }
        }
        proof {
            assert(out@ == old(out)@ + enc_vals(e, vs.take(
                if kk > 21 {
                    22int
                } else {
                    kk
                },
            )));
        }
        let ghost mid = out@;
        if keep > 22 {
            proof {
                assert(val_matches_at(Self::fields(), vs, 22));
            }
            wr_cn(out, self.c_resfmt.0.as_slice());
            proof {
                assert(vs[22] == Val::Cn(self.c_resfmt.0@));
                lemma_write_step(e, vs, 22, old(out)@, mid, out@);
            }
        }
        proof {
            assert(out@ == old(out)@ + enc_vals(e, vs.take(
                if kk > 22 {
                    23int
                } else {
                    kk
                },
            )));
        }
        let ghost mid = out@;
        if keep > 23 {
            proof {
                assert(val_matches_at(Self::fields(), vs, 23));
            }
            wr_cn(out, self.c_llmfmt.0.as_slice());
            proof {
                assert(vs[23] == Val::Cn(self.c_llmfmt.0@));
                lemma_write_step(e, vs, 23, old(out)@, mid, out@);
            }
        }
        proof {
            assert(out@ == old(out)@ + enc_vals(e, vs.take(
                if kk > 23 {
                    24int
                } else {
                    kk
                },
            )));
        }
        let ghost mid = out@;
        if keep > 24 {
            proof {
                assert(val_matches_at(Self::fields(), vs, 24));
            }
            wr_cn(out, self.c_hlmfmt.0.as_slice());
            proof {
                assert(vs[24] == Val::Cn(self.c_hlmfmt.0@));
                lemma_write_step(e, vs, 24, old(out)@, mid, out@);
            }
        }
        proof {
            assert(out@ == old(out)@ + enc_vals(e, vs.take(
                if kk > 24 {
                    25int
                } else {
                    kk
                },
            )));
        }
        let ghost mid = out@;
        if keep > 25 {
            wr_u4(out, e, self.lo_spec.0);
            proof {
                assert(vs[25] == Val::U4(self.lo_spec.0));
                lemma_write_step(e, vs, 25, old(out)@, mid, out@);
            }
        }
        proof {
            assert(out@ == old(out)@ + enc_vals(e, vs.take(
                if kk > 25 {
                    26int
                } else {
                    kk
                },
            )));
        }
        let ghost mid = out@;
        if keep > 26 {
            wr_u4(out, e, self.hi_spec.0);
            proof {
                assert(vs[26] == Val::U4(self.hi_spec.0));
                lemma_write_step(e, vs, 26, old(out)@, mid, out@);
            }
        }
        proof {
            assert(out@ == old(out)@ + enc_vals(e, vs.take(
                if kk > 26 {
                    27int
                } else {
                    kk
                },
            )));
        }
        proof {
            assert(out@ == old(out)@ + enc_vals(e, vs.take(kk)));
        }
    }
}

/// FTR: the Functional Test Record, with pair (15, 20).
#[derive(Clone, Debug, PartialEq, Eq)]
pub struct FTR {
    pub test_num: U4,
    pub head_num: U1,
    pub site_num: U1,
    pub test_flg: B1,
    pub opt_flag: B1,
    pub cycl_cnt: U4,
    pub rel_vadr: U4,
    pub rept_cnt: U4,
    pub num_fail: U4,
    pub xfail_ad: I4,
    pub yfail_ad: I4,
    pub vect_off: I2,
    pub rtn_icnt: U2,
    pub pgm_icnt: U2,
    pub rtn_indx: Vec<U2>,
    pub rtn_stat: Vec<N1>,
    pub pgm_indx: Vec<U2>,
    pub pgm_stat: Vec<N1>,
    pub fail_pin: Dn,
    pub vect_nam: Cn,
    pub time_set: Cn,
    pub op_code: Cn,
    pub test_txt: Cn,
    pub alarm_id: Cn,
    pub prog_txt: Cn,
    pub rslt_txt: Cn,
    pub patg_num: U1,
    pub spin_map: Dn,
    /// How many leading fields stood on the wire when the record
    /// was decoded; `write` puts exactly these back.
    pub present: usize,
}

impl FTR {
    /// The field layout of the record: wire kind, default, and for
    /// an array the position of its count field.
    pub open spec fn fields() -> Seq<FieldDef> {
        seq![
            fd(FieldKind::KU4, d_u4(None)),
            fd(FieldKind::KU1, d_u1(None)),
            fd(FieldKind::KU1, d_u1(None)),
            fd(FieldKind::KU1, d_u1(None)),
            fd(FieldKind::KU1, d_u1(Some(0xffu8))),
            fd(FieldKind::KU4, d_u4(Some(0u32))),
            fd(FieldKind::KU4, d_u4(Some(0u32))),
            fd(FieldKind::KU4, d_u4(Some(0u32))),
            fd(FieldKind::KU4, d_u4(Some(0u32))),
            fd(FieldKind::KU4, d_u4(Some(0u32))),
            fd(FieldKind::KU4, d_u4(Some(0u32))),
            fd(FieldKind::KU2, d_u2(Some(0u16))),
            fd(FieldKind::KU2, d_u2(Some(0u16))),
            fd(FieldKind::KU2, d_u2(Some(0u16))),
            fd(FieldKind::KArr(Elem::EU2, 12), None),
            fd(FieldKind::KArr(Elem::EN1, 12), None),
            fd(FieldKind::KArr(Elem::EU2, 13), None),
            fd(FieldKind::KArr(Elem::EN1, 13), None),
            fd(FieldKind::KDn, d_dn(true)),
            fd(FieldKind::KCn, d_cn(true)),
            fd(FieldKind::KCn, d_cn(true)),
            fd(FieldKind::KCn, d_cn(true)),
            fd(FieldKind::KCn, d_cn(true)),
            fd(FieldKind::KCn, d_cn(true)),
            fd(FieldKind::KCn, d_cn(true)),
            fd(FieldKind::KCn, d_cn(true)),
            fd(FieldKind::KU1, d_u1(Some(0xffu8))),
            fd(FieldKind::KDn, d_dn(true)),
        ]
    }

    /// The field values of the record, in declaration order.
    pub open spec fn val_seq(self) -> Seq<Val> {
        seq![
            Val::U4(self.test_num.0),
            Val::U1(self.head_num.0),
            Val::U1(self.site_num.0),
            Val::U1(self.test_flg.0),
            Val::U1(self.opt_flag.0),
            Val::U4(self.cycl_cnt.0),
            Val::U4(self.rel_vadr.0),
            Val::U4(self.rept_cnt.0),
            Val::U4(self.num_fail.0),
            Val::U4(from_i32(self.xfail_ad.0)),
            Val::U4(from_i32(self.yfail_ad.0)),
            Val::U2(from_i16(self.vect_off.0)),
            Val::U2(self.rtn_icnt.0),
            Val::U2(self.pgm_icnt.0),
            Val::ArrU2(self.rtn_indx.deep_view()),
            Val::ArrN1(self.rtn_stat.deep_view()),
            Val::ArrU2(self.pgm_indx.deep_view()),
            Val::ArrN1(self.pgm_stat.deep_view()),
            Val::Dn(self.fail_pin.0, self.fail_pin.1@),
            Val::Cn(self.vect_nam.0@),
            Val::Cn(self.time_set.0@),
            Val::Cn(self.op_code.0@),
            Val::Cn(self.test_txt.0@),
            Val::Cn(self.alarm_id.0@),
            Val::Cn(self.prog_txt.0@),
            Val::Cn(self.rslt_txt.0@),
            Val::U1(self.patg_num.0),
            Val::Dn(self.spin_map.0, self.spin_map.1@),
        ]
    }

    /// Well-formedness: every value fits its wire layout, arrays are
    /// as long as their count fields say or stand empty past the
    /// wire, and the on-the-wire count covers at most every field.
    pub open spec fn wf(self) -> bool {
        vals_match(Self::fields(), self.val_seq()) && self.present <= 28
    }

    /// Well-formedness is exactly conformance of the values to the
    /// layout, with the on-the-wire count in bounds.
    pub proof fn lemma_wf_is_match(self)
        ensures
            self.wf() == (vals_match(Self::fields(), self.val_seq()) && self.present
                <= Self::fields().len()),
    {
    }

    /// The payload bytes of the record under a byte order: the
    /// fields that stood on the wire, in declaration order; the
    /// absent tail stays off it.
    pub open spec fn enc(self, e: Endian) -> Seq<u8> {
        enc_vals(e, self.val_seq().take(self.present as int))
    }

    /// Every array that stood on the wire is as long as its count
    /// field says, so the record can be framed back onto it.
    pub open spec fn counts_ok(self) -> bool {
        counts_strict_upto(Self::fields(), self.val_seq(), self.present as int)
    }

    /// Every field past the on-the-wire count holds its declared
    /// default or is empty.
    pub open spec fn tail_absent(self) -> bool {
        forall|i: int|
            self.present <= i < Self::fields().len() ==> #[trigger] suppressible(
                Self::fields()[i],
                self.val_seq()[i],
            )
    }

    /// A record decoded off the wire is framed: its on-the-wire
    /// arrays match their counts and its absent fields hold their
    /// defaults.
    pub proof fn lemma_decoded_shape(self, s: Seq<u8>, e: Endian)
        requires
            sdecode(s, e, Self::fields()) == Some(self.val_seq()),
            self.present as int == spres(s, e, Self::fields()),
        ensures
            self.counts_ok(),
            self.tail_absent(),
    {
        lemma_sdecode_present(s, e, Self::fields());
    }

    /// Reads fields 0 .. 7 of the record.
    #[verifier::rlimit(100)]
    #[verifier::spinoff_prover]
    fn read_seg0(
        bytes: &[u8],
        off: &mut usize,
        pres: &mut usize,
        e: Endian,
        Ghost(acc0): Ghost<Seq<Val>>,
    ) -> (r: Result<(u32, u8, u8, u8, u8, u32, u32), StdfError>)
        requires
            *old(off) <= bytes@.len(),
            *old(pres) <= 0,
            acc0.len() == 0,
            sdecode(bytes@, e, Self::fields()) == sdecode_from(
                bytes@, e, Self::fields(), 0, *old(off) as int, acc0,
            ),
            spres_inv(bytes@, e, Self::fields(), 0, *old(off) as int, acc0,
                *old(pres) as int),
        ensures
            *final(off) <= bytes@.len(),
            *final(pres) <= 7,
            match r {
                Ok(t) => sdecode(bytes@, e, Self::fields()) == sdecode_from(
                    bytes@, e, Self::fields(), 7, *final(off) as int,
                    acc0.push(Val::U4(t.0)).push(Val::U1(t.1)).push(Val::U1(t.2)).push(Val::U1(t.3)).push(Val::U1(t.4)).push(Val::U4(t.5)).push(Val::U4(t.6)),
                ) && spres_inv(bytes@, e, Self::fields(), 7, *final(off) as int,
                    acc0.push(Val::U4(t.0)).push(Val::U1(t.1)).push(Val::U1(t.2)).push(Val::U1(t.3)).push(Val::U1(t.4)).push(Val::U4(t.5)).push(Val::U4(t.6)),
                    *final(pres) as int,
                ),
                Err(_) => sdecode(bytes@, e, Self::fields()) is None,
            },
    {
        let ghost s = bytes@;
        let ghost fs = Self::fields();
        let ghost mut acc = acc0;
        let ghost off0 = *off as int;
        let ghost p0 = *pres as int;
        if *off < bytes.len() {
            *pres = 1;
        }
        let rv_test_num = match rd_u4(bytes, off, e, None) {
            Ok(v) => v,
            Err(er) => {
                proof {
                    lemma_read_step_none(s, e, fs, 0, fd(FieldKind::KU4, d_u4(None)), off0, acc);
                }
                return Err(er);
            },
        };
        proof {
            lemma_read_step(s, e, fs, 0, fd(FieldKind::KU4, d_u4(None)), off0, *off as int, acc, Val::U4(rv_test_num));
            lemma_pres_step(s, e, fs, 0, fd(FieldKind::KU4, d_u4(None)), off0, *off as int, acc, Val::U4(rv_test_num), p0,
                *pres as int);
            acc = acc.push(Val::U4(rv_test_num));
        }
        let ghost off0 = *off as int;
        let ghost p0 = *pres as int;
        if *off < bytes.len() {
            *pres = 2;
        }
        let rv_head_num = match rd_u1(bytes, off, e, None) {
            Ok(v) => v,
            Err(er) => {
                proof {
                    lemma_read_step_none(s, e, fs, 1, fd(FieldKind::KU1, d_u1(None)), off0, acc);
                }
                return Err(er);
            },
        };
        proof {
            lemma_read_step(s, e, fs, 1, fd(FieldKind::KU1, d_u1(None)), off0, *off as int, acc, Val::U1(rv_head_num));
            lemma_pres_step(s, e, fs, 1, fd(FieldKind::KU1, d_u1(None)), off0, *off as int, acc, Val::U1(rv_head_num), p0,
                *pres as int);
            acc = acc.push(Val::U1(rv_head_num));
        }
        let ghost off0 = *off as int;
        let ghost p0 = *pres as int;
        if *off < bytes.len() {
            *pres = 3;
        }
        let rv_site_num = match rd_u1(bytes, off, e, None) {
            Ok(v) => v,
            Err(er) => {
                proof {
                    lemma_read_step_none(s, e, fs, 2, fd(FieldKind::KU1, d_u1(None)), off0, acc);
                }
                return Err(er);
            },
        };
        proof {
            lemma_read_step(s, e, fs, 2, fd(FieldKind::KU1, d_u1(None)), off0, *off as int, acc, Val::U1(rv_site_num));
            lemma_pres_step(s, e, fs, 2, fd(FieldKind::KU1, d_u1(None)), off0, *off as int, acc, Val::U1(rv_site_num), p0,
                *pres as int);
            acc = acc.push(Val::U1(rv_site_num));
        }
        let ghost off0 = *off as int;
        let ghost p0 = *pres as int;
        if *off < bytes.len() {
            *pres = 4;
        }
        let rv_test_flg = match rd_u1(bytes, off, e, None) {
            Ok(v) => v,
            Err(er) => {
                proof {
                    lemma_read_step_none(s, e, fs, 3, fd(FieldKind::KU1, d_u1(None)), off0, acc);
                }
                return Err(er);
            },
        };
        proof {
            lemma_read_step(s, e, fs, 3, fd(FieldKind::KU1, d_u1(None)), off0, *off as int, acc, Val::U1(rv_test_flg));
            lemma_pres_step(s, e, fs, 3, fd(FieldKind::KU1, d_u1(None)), off0, *off as int, acc, Val::U1(rv_test_flg), p0,
                *pres as int);
            acc = acc.push(Val::U1(rv_test_flg));
        }
        let ghost off0 = *off as int;
        let ghost p0 = *pres as int;
        if *off < bytes.len() {
            *pres = 5;
        }
        let rv_opt_flag = match rd_u1(bytes, off, e, Some(0xffu8)) {
            Ok(v) => v,
            Err(er) => {
                proof {
                    lemma_read_step_none(s, e, fs, 4, fd(FieldKind::KU1, d_u1(Some(0xffu8))), off0, acc);
                }
                return Err(er);
            },
        };
        proof {
            lemma_read_step(s, e, fs, 4, fd(FieldKind::KU1, d_u1(Some(0xffu8))), off0, *off as int, acc, Val::U1(rv_opt_flag));
            lemma_pres_step(s, e, fs, 4, fd(FieldKind::KU1, d_u1(Some(0xffu8))), off0, *off as int, acc, Val::U1(rv_opt_flag), p0,
                *pres as int);
            acc = acc.push(Val::U1(rv_opt_flag));
        }
        let ghost off0 = *off as int;
        let ghost p0 = *pres as int;
        if *off < bytes.len() {
            *pres = 6;
        }
        let rv_cycl_cnt = match rd_u4(bytes, off, e, Some(0u32)) {
            Ok(v) => v,
            Err(er) => {
                proof {
                    lemma_read_step_none(s, e, fs, 5, fd(FieldKind::KU4, d_u4(Some(0u32))), off0, acc);
                }
                return Err(er);
            },
        };
        proof {
            lemma_read_step(s, e, fs, 5, fd(FieldKind::KU4, d_u4(Some(0u32))), off0, *off as int, acc, Val::U4(rv_cycl_cnt));
            lemma_pres_step(s, e, fs, 5, fd(FieldKind::KU4, d_u4(Some(0u32))), off0, *off as int, acc, Val::U4(rv_cycl_cnt), p0,
                *pres as int);
            acc = acc.push(Val::U4(rv_cycl_cnt));
        }
        let ghost off0 = *off as int;
        let ghost p0 = *pres as int;
        if *off < bytes.len() {
            *pres = 7;
        }
        let rv_rel_vadr = match rd_u4(bytes, off, e, Some(0u32)) {
            Ok(v) => v,
            Err(er) => {
                proof {
                    lemma_read_step_none(s, e, fs, 6, fd(FieldKind::KU4, d_u4(Some(0u32))), off0, acc);
                }
                return Err(er);
            },
        };
        proof {
            lemma_read_step(s, e, fs, 6, fd(FieldKind::KU4, d_u4(Some(0u32))), off0, *off as int, acc, Val::U4(rv_rel_vadr));
            lemma_pres_step(s, e, fs, 6, fd(FieldKind::KU4, d_u4(Some(0u32))), off0, *off as int, acc, Val::U4(rv_rel_vadr), p0,
                *pres as int);
            acc = acc.push(Val::U4(rv_rel_vadr));
        }
        Ok((rv_test_num, rv_head_num, rv_site_num, rv_test_flg, rv_opt_flag, rv_cycl_cnt, rv_rel_vadr))
    }

    /// Reads fields 7 .. 14 of the record.
    #[verifier::rlimit(100)]
    #[verifier::spinoff_prover]
    fn read_seg1(
        bytes: &[u8],
        off: &mut usize,
        pres: &mut usize,
        e: Endian,
        Ghost(acc0): Ghost<Seq<Val>>,
    ) -> (r: Result<(u32, u32, u32, u32, u16, u16, u16), StdfError>)
        requires
            *old(off) <= bytes@.len(),
            *old(pres) <= 7,
            acc0.len() == 7,
            sdecode(bytes@, e, Self::fields()) == sdecode_from(
                bytes@, e, Self::fields(), 7, *old(off) as int, acc0,
            ),
            spres_inv(bytes@, e, Self::fields(), 7, *old(off) as int, acc0,
                *old(pres) as int),
        ensures
            *final(off) <= bytes@.len(),
            *final(pres) <= 14,
            match r {
                Ok(t) => sdecode(bytes@, e, Self::fields()) == sdecode_from(
                    bytes@, e, Self::fields(), 14, *final(off) as int,
                    acc0.push(Val::U4(t.0)).push(Val::U4(t.1)).push(Val::U4(t.2)).push(Val::U4(t.3)).push(Val::U2(t.4)).push(Val::U2(t.5)).push(Val::U2(t.6)),
                ) && spres_inv(bytes@, e, Self::fields(), 14, *final(off) as int,
                    acc0.push(Val::U4(t.0)).push(Val::U4(t.1)).push(Val::U4(t.2)).push(Val::U4(t.3)).push(Val::U2(t.4)).push(Val::U2(t.5)).push(Val::U2(t.6)),
                    *final(pres) as int,
                ),
                Err(_) => sdecode(bytes@, e, Self::fields()) is None,
            },
    {
        let ghost s = bytes@;
        let ghost fs = Self::fields();
        let ghost mut acc = acc0;
        let ghost off0 = *off as int;
        let ghost p0 = *pres as int;
        if *off < bytes.len() {
            *pres = 8;
        }
        let rv_rept_cnt = match rd_u4(bytes, off, e, Some(0u32)) {
            Ok(v) => v,
            Err(er) => {
                proof {
                    lemma_read_step_none(s, e, fs, 7, fd(FieldKind::KU4, d_u4(Some(0u32))), off0, acc);
                }
                return Err(er);
            },
        };
        proof {
            lemma_read_step(s, e, fs, 7, fd(FieldKind::KU4, d_u4(Some(0u32))), off0, *off as int, acc, Val::U4(rv_rept_cnt));
            lemma_pres_step(s, e, fs, 7, fd(FieldKind::KU4, d_u4(Some(0u32))), off0, *off as int, acc, Val::U4(rv_rept_cnt), p0,
                *pres as int);
            acc = acc.push(Val::U4(rv_rept_cnt));
        }
        let ghost off0 = *off as int;
        let ghost p0 = *pres as int;
        if *off < bytes.len() {
            *pres = 9;
        }
        let rv_num_fail = match rd_u4(bytes, off, e, Some(0u32)) {
            Ok(v) => v,
            Err(er) => {
                proof {
                    lemma_read_step_none(s, e, fs, 8, fd(FieldKind::KU4, d_u4(Some(0u32))), off0, acc);
                }
                return Err(er);
            },
        };
        proof {
            lemma_read_step(s, e, fs, 8, fd(FieldKind::KU4, d_u4(Some(0u32))), off0, *off as int, acc, Val::U4(rv_num_fail));
            lemma_pres_step(s, e, fs, 8, fd(FieldKind::KU4, d_u4(Some(0u32))), off0, *off as int, acc, Val::U4(rv_num_fail), p0,
                *pres as int);
            acc = acc.push(Val::U4(rv_num_fail));
        }
        let ghost off0 = *off as int;
        let ghost p0 = *pres as int;
        if *off < bytes.len() {
            *pres = 10;
        }
        let rv_xfail_ad = match rd_u4(bytes, off, e, Some(0u32)) {
            Ok(v) => v,
            Err(er) => {
                proof {
                    lemma_read_step_none(s, e, fs, 9, fd(FieldKind::KU4, d_u4(Some(0u32))), off0, acc);
                }
                return Err(er);
            },
        };
        proof {
            lemma_read_step(s, e, fs, 9, fd(FieldKind::KU4, d_u4(Some(0u32))), off0, *off as int, acc, Val::U4(rv_xfail_ad));
            lemma_pres_step(s, e, fs, 9, fd(FieldKind::KU4, d_u4(Some(0u32))), off0, *off as int, acc, Val::U4(rv_xfail_ad), p0,
                *pres as int);
            acc = acc.push(Val::U4(rv_xfail_ad));
        }
        let ghost off0 = *off as int;
        let ghost p0 = *pres as int;
        if *off < bytes.len() {
            *pres = 11;
        }
        let rv_yfail_ad = match rd_u4(bytes, off, e, Some(0u32)) {
            Ok(v) => v,
            Err(er) => {
                proof {
                    lemma_read_step_none(s, e, fs, 10, fd(FieldKind::KU4, d_u4(Some(0u32))), off0, acc);
                }
                return Err(er);
            },
        };
        proof {
            lemma_read_step(s, e, fs, 10, fd(FieldKind::KU4, d_u4(Some(0u32))), off0, *off as int, acc, Val::U4(rv_yfail_ad));
            lemma_pres_step(s, e, fs, 10, fd(FieldKind::KU4, d_u4(Some(0u32))), off0, *off as int, acc, Val::U4(rv_yfail_ad), p0,
                *pres as int);
            acc = acc.push(Val::U4(rv_yfail_ad));
        }
        let ghost off0 = *off as int;
        let ghost p0 = *pres as int;
        if *off < bytes.len() {
            *pres = 12;
        }
        let rv_vect_off = match rd_u2(bytes, off, e, Some(0u16)) {
            Ok(v) => v,
            Err(er) => {
                proof {
                    lemma_read_step_none(s, e, fs, 11, fd(FieldKind::KU2, d_u2(Some(0u16))), off0, acc);
                }
                return Err(er);
            },
        };
        proof {
            lemma_read_step(s, e, fs, 11, fd(FieldKind::KU2, d_u2(Some(0u16))), off0, *off as int, acc, Val::U2(rv_vect_off));
            lemma_pres_step(s, e, fs, 11, fd(FieldKind::KU2, d_u2(Some(0u16))), off0, *off as int, acc, Val::U2(rv_vect_off), p0,
                *pres as int);
            acc = acc.push(Val::U2(rv_vect_off));
        }
        let ghost off0 = *off as int;
        let ghost p0 = *pres as int;
        if *off < bytes.len() {
            *pres = 13;
        }
        let rv_rtn_icnt = match rd_u2(bytes, off, e, Some(0u16)) {
            Ok(v) => v,
            Err(er) => {
                proof {
                    lemma_read_step_none(s, e, fs, 12, fd(FieldKind::KU2, d_u2(Some(0u16))), off0, acc);
                }
                return Err(er);
            },
        };
        proof {
            lemma_read_step(s, e, fs, 12, fd(FieldKind::KU2, d_u2(Some(0u16))), off0, *off as int, acc, Val::U2(rv_rtn_icnt));
            lemma_pres_step(s, e, fs, 12, fd(FieldKind::KU2, d_u2(Some(0u16))), off0, *off as int, acc, Val::U2(rv_rtn_icnt), p0,
                *pres as int);
            acc = acc.push(Val::U2(rv_rtn_icnt));
        }
        let ghost off0 = *off as int;
        let ghost p0 = *pres as int;
        if *off < bytes.len() {
            *pres = 14;
        }
        let rv_pgm_icnt = match rd_u2(bytes, off, e, Some(0u16)) {
            Ok(v) => v,
            Err(er) => {
                proof {
                    lemma_read_step_none(s, e, fs, 13, fd(FieldKind::KU2, d_u2(Some(0u16))), off0, acc);
                }
                return Err(er);
            },
        };
        proof {
            lemma_read_step(s, e, fs, 13, fd(FieldKind::KU2, d_u2(Some(0u16))), off0, *off as int, acc, Val::U2(rv_pgm_icnt));
            lemma_pres_step(s, e, fs, 13, fd(FieldKind::KU2, d_u2(Some(0u16))), off0, *off as int, acc, Val::U2(rv_pgm_icnt), p0,
                *pres as int);
            acc = acc.push(Val::U2(rv_pgm_icnt));
        }
        Ok((rv_rept_cnt, rv_num_fail, rv_xfail_ad, rv_yfail_ad, rv_vect_off, rv_rtn_icnt, rv_pgm_icnt))
    }

    /// Reads fields 14 .. 21 of the record.
    #[verifier::rlimit(100)]
    #[verifier::spinoff_prover]
    fn read_seg2(
        bytes: &[u8],
        off: &mut usize,
        pres: &mut usize,
        e: Endian,
        Ghost(acc0): Ghost<Seq<Val>>,
        cnt_rtn_icnt: u16,
        cnt_pgm_icnt: u16,
    ) -> (r: Result<(Vec<U2>, Vec<N1>, Vec<U2>, Vec<N1>, (u16, Vec<u8>), Vec<u8>, Vec<u8>), StdfError>)
        requires
            *old(off) <= bytes@.len(),
            *old(pres) <= 14,
            acc0.len() == 14,
            sdecode(bytes@, e, Self::fields()) == sdecode_from(
                bytes@, e, Self::fields(), 14, *old(off) as int, acc0,
            ),
            spres_inv(bytes@, e, Self::fields(), 14, *old(off) as int, acc0,
                *old(pres) as int),
            acc0[12] == Val::U2(cnt_rtn_icnt),
            acc0[13] == Val::U2(cnt_pgm_icnt),
        ensures
            *final(off) <= bytes@.len(),
            *final(pres) <= 21,
            match r {
                Ok(t) => sdecode(bytes@, e, Self::fields()) == sdecode_from(
                    bytes@, e, Self::fields(), 21, *final(off) as int,
                    acc0.push(Val::ArrU2(t.0.deep_view())).push(Val::ArrN1(t.1.deep_view())).push(Val::ArrU2(t.2.deep_view())).push(Val::ArrN1(t.3.deep_view())).push(Val::Dn(t.4.0, t.4.1@)).push(Val::Cn(t.5@)).push(Val::Cn(t.6@)),
                ) && spres_inv(bytes@, e, Self::fields(), 21, *final(off) as int,
                    acc0.push(Val::ArrU2(t.0.deep_view())).push(Val::ArrN1(t.1.deep_view())).push(Val::ArrU2(t.2.deep_view())).push(Val::ArrN1(t.3.deep_view())).push(Val::Dn(t.4.0, t.4.1@)).push(Val::Cn(t.5@)).push(Val::Cn(t.6@)),
                    *final(pres) as int,
                ),
                Err(_) => sdecode(bytes@, e, Self::fields()) is None,
            },
    {
        let ghost s = bytes@;
        let ghost fs = Self::fields();
        let ghost mut acc = acc0;
        let ghost off0 = *off as int;
        let ghost p0 = *pres as int;
        if *off < bytes.len() {
            *pres = 15;
        }
        proof {
            assert(acc[12] == Val::U2(cnt_rtn_icnt));
        }
        let rv_rtn_indx = match rd_arr_u2(bytes, off, e, cnt_rtn_icnt as usize) {
            Ok(v) => v,
            Err(er) => {
                proof {
                    lemma_read_step_arr_none(s, e, fs, 14, Elem::EU2, 12, off0, acc,
                        cnt_rtn_icnt as int);
                }
                return Err(er);
            },
        };
        proof {
            lemma_read_step_arr(s, e, fs, 14, Elem::EU2, 12, off0, *off as int, acc,
                Val::ArrU2(rv_rtn_indx.deep_view()), cnt_rtn_icnt as int);
            lemma_pres_step_arr(s, e, fs, 14, Elem::EU2, 12, off0, *off as int, acc,
                Val::ArrU2(rv_rtn_indx.deep_view()), cnt_rtn_icnt as int, p0, *pres as int);
            acc = acc.push(Val::ArrU2(rv_rtn_indx.deep_view()));
        }
        let ghost off0 = *off as int;
        let ghost p0 = *pres as int;
        if *off < bytes.len() {
            *pres = 16;
        }
        proof {
            assert(acc[12] == Val::U2(cnt_rtn_icnt));
        }
        let rv_rtn_stat = match rd_arr_n1(bytes, off, e, cnt_rtn_icnt as usize) {
            Ok(v) => v,
            Err(er) => {
                proof {
                    lemma_read_step_arr_none(s, e, fs, 15, Elem::EN1, 12, off0, acc,
                        cnt_rtn_icnt as int);
                }
                return Err(er);
            },
        };
        proof {
            lemma_read_step_arr(s, e, fs, 15, Elem::EN1, 12, off0, *off as int, acc,
                Val::ArrN1(rv_rtn_stat.deep_view()), cnt_rtn_icnt as int);
            lemma_pres_step_arr(s, e, fs, 15, Elem::EN1, 12, off0, *off as int, acc,
                Val::ArrN1(rv_rtn_stat.deep_view()), cnt_rtn_icnt as int, p0, *pres as int);
            acc = acc.push(Val::ArrN1(rv_rtn_stat.deep_view()));
        }
        let ghost off0 = *off as int;
        let ghost p0 = *pres as int;
        if *off < bytes.len() {
            *pres = 17;
        }
        proof {
            assert(acc[13] == Val::U2(cnt_pgm_icnt));
        }
        let rv_pgm_indx = match rd_arr_u2(bytes, off, e, cnt_pgm_icnt as usize) {
            Ok(v) => v,
            Err(er) => {
                proof {
                    lemma_read_step_arr_none(s, e, fs, 16, Elem::EU2, 13, off0, acc,
                        cnt_pgm_icnt as int);
                }
                return Err(er);
            },
        };
        proof {
            lemma_read_step_arr(s, e, fs, 16, Elem::EU2, 13, off0, *off as int, acc,
                Val::ArrU2(rv_pgm_indx.deep_view()), cnt_pgm_icnt as int);
            lemma_pres_step_arr(s, e, fs, 16, Elem::EU2, 13, off0, *off as int, acc,
                Val::ArrU2(rv_pgm_indx.deep_view()), cnt_pgm_icnt as int, p0, *pres as int);
            acc = acc.push(Val::ArrU2(rv_pgm_indx.deep_view()));
        }
        let ghost off0 = *off as int;
        let ghost p0 = *pres as int;
        if *off < bytes.len() {
            *pres = 18;
        }
        proof {
            assert(acc[13] == Val::U2(cnt_pgm_icnt));
        }
        let rv_pgm_stat = match rd_arr_n1(bytes, off, e, cnt_pgm_icnt as usize) {
            Ok(v) => v,
            Err(er) => {
                proof {
                    lemma_read_step_arr_none(s, e, fs, 17, Elem::EN1, 13, off0, acc,
                        cnt_pgm_icnt as int);
                }
                return Err(er);
            },
        };
        proof {
            lemma_read_step_arr(s, e, fs, 17, Elem::EN1, 13, off0, *off as int, acc,
                Val::ArrN1(rv_pgm_stat.deep_view()), cnt_pgm_icnt as int);
            lemma_pres_step_arr(s, e, fs, 17, Elem::EN1, 13, off0, *off as int, acc,
                Val::ArrN1(rv_pgm_stat.deep_view()), cnt_pgm_icnt as int, p0, *pres as int);
            acc = acc.push(Val::ArrN1(rv_pgm_stat.deep_view()));
        }
        let ghost off0 = *off as int;
        let ghost p0 = *pres as int;
        if *off < bytes.len() {
            *pres = 19;
        }
        let rv_fail_pin = match rd_dn(bytes, off, e, true) {
            Ok(v) => v,
            Err(er) => {
                proof {
                    lemma_read_step_none(s, e, fs, 18, fd(FieldKind::KDn, d_dn(true)), off0, acc);
                }
                return Err(er);
            },
        };
        proof {
            lemma_read_step(s, e, fs, 18, fd(FieldKind::KDn, d_dn(true)), off0, *off as int, acc, Val::Dn(rv_fail_pin.0, rv_fail_pin.1@));
            lemma_pres_step(s, e, fs, 18, fd(FieldKind::KDn, d_dn(true)), off0, *off as int, acc, Val::Dn(rv_fail_pin.0, rv_fail_pin.1@), p0,
                *pres as int);
            acc = acc.push(Val::Dn(rv_fail_pin.0, rv_fail_pin.1@));
        }
        let ghost off0 = *off as int;
        let ghost p0 = *pres as int;
        if *off < bytes.len() {
            *pres = 20;
        }
        let rv_vect_nam = match rd_cn(bytes, off, e, true) {
            Ok(v) => v,
            Err(er) => {
                proof {
                    lemma_read_step_none(s, e, fs, 19, fd(FieldKind::KCn, d_cn(true)), off0, acc);
                }
                return Err(er);
            },
        };
        proof {
            lemma_read_step(s, e, fs, 19, fd(FieldKind::KCn, d_cn(true)), off0, *off as int, acc, Val::Cn(rv_vect_nam@));
            lemma_pres_step(s, e, fs, 19, fd(FieldKind::KCn, d_cn(true)), off0, *off as int, acc, Val::Cn(rv_vect_nam@), p0,
                *pres as int);
            acc = acc.push(Val::Cn(rv_vect_nam@));
        }
        let ghost off0 = *off as int;
        let ghost p0 = *pres as int;
        if *off < bytes.len() {
            *pres = 21;
        }
        let rv_time_set = match rd_cn(bytes, off, e, true) {
            Ok(v) => v,
            Err(er) => {
                proof {
                    lemma_read_step_none(s, e, fs, 20, fd(FieldKind::KCn, d_cn(true)), off0, acc);
                }
                return Err(er);
            },
        };
        proof {
            lemma_read_step(s, e, fs, 20, fd(FieldKind::KCn, d_cn(true)), off0, *off as int, acc, Val::Cn(rv_time_set@));
            lemma_pres_step(s, e, fs, 20, fd(FieldKind::KCn, d_cn(true)), off0, *off as int, acc, Val::Cn(rv_time_set@), p0,
                *pres as int);
            acc = acc.push(Val::Cn(rv_time_set@));
        }
        Ok((rv_rtn_indx, rv_rtn_stat, rv_pgm_indx, rv_pgm_stat, rv_fail_pin, rv_vect_nam, rv_time_set))
    }

    /// Reads fields 21 .. 28 of the record.
    #[verifier::rlimit(100)]
    #[verifier::spinoff_prover]
    fn read_seg3(
        bytes: &[u8],
        off: &mut usize,
        pres: &mut usize,
        e: Endian,
        Ghost(acc0): Ghost<Seq<Val>>,
    ) -> (r: Result<(Vec<u8>, Vec<u8>, Vec<u8>, Vec<u8>, Vec<u8>, u8, (u16, Vec<u8>)), StdfError>)
        requires
            *old(off) <= bytes@.len(),
            *old(pres) <= 21,
            acc0.len() == 21,
            sdecode(bytes@, e, Self::fields()) == sdecode_from(
                bytes@, e, Self::fields(), 21, *old(off) as int, acc0,
            ),
            spres_inv(bytes@, e, Self::fields(), 21, *old(off) as int, acc0,
                *old(pres) as int),
        ensures
            *final(off) <= bytes@.len(),
            *final(pres) <= 28,
            match r {
                Ok(t) => sdecode(bytes@, e, Self::fields()) == sdecode_from(
                    bytes@, e, Self::fields(), 28, *final(off) as int,
                    acc0.push(Val::Cn(t.0@)).push(Val::Cn(t.1@)).push(Val::Cn(t.2@)).push(Val::Cn(t.3@)).push(Val::Cn(t.4@)).push(Val::U1(t.5)).push(Val::Dn(t.6.0, t.6.1@)),
                ) && spres_inv(bytes@, e, Self::fields(), 28, *final(off) as int,
                    acc0.push(Val::Cn(t.0@)).push(Val::Cn(t.1@)).push(Val::Cn(t.2@)).push(Val::Cn(t.3@)).push(Val::Cn(t.4@)).push(Val::U1(t.5)).push(Val::Dn(t.6.0, t.6.1@)),
                    *final(pres) as int,
                ),
                Err(_) => sdecode(bytes@, e, Self::fields()) is None,
            },
    {
        let ghost s = bytes@;
        let ghost fs = Self::fields();
        let ghost mut acc = acc0;
        let ghost off0 = *off as int;
        let ghost p0 = *pres as int;
        if *off < bytes.len() {
            *pres = 22;
        }
        let rv_op_code = match rd_cn(bytes, off, e, true) {
            Ok(v) => v,
            Err(er) => {
                proof {
                    lemma_read_step_none(s, e, fs, 21, fd(FieldKind::KCn, d_cn(true)), off0, acc);
                }
                return Err(er);
            },
        };
        proof {
            lemma_read_step(s, e, fs, 21, fd(FieldKind::KCn, d_cn(true)), off0, *off as int, acc, Val::Cn(rv_op_code@));
            lemma_pres_step(s, e, fs, 21, fd(FieldKind::KCn, d_cn(true)), off0, *off as int, acc, Val::Cn(rv_op_code@), p0,
                *pres as int);
            acc = acc.push(Val::Cn(rv_op_code@));
        }
        let ghost off0 = *off as int;
        let ghost p0 = *pres as int;
        if *off < bytes.len() {
            *pres = 23;
        }
        let rv_test_txt = match rd_cn(bytes, off, e, true) {
            Ok(v) => v,
            Err(er) => {
                proof {
                    lemma_read_step_none(s, e, fs, 22, fd(FieldKind::KCn, d_cn(true)), off0, acc);
                }
                return Err(er);
            },
        };
        proof {
            lemma_read_step(s, e, fs, 22, fd(FieldKind::KCn, d_cn(true)), off0, *off as int, acc, Val::Cn(rv_test_txt@));
            lemma_pres_step(s, e, fs, 22, fd(FieldKind::KCn, d_cn(true)), off0, *off as int, acc, Val::Cn(rv_test_txt@), p0,
                *pres as int);
            acc = acc.push(Val::Cn(rv_test_txt@));
        }
        let ghost off0 = *off as int;
        let ghost p0 = *pres as int;
        if *off < bytes.len() {
            *pres = 24;
        }
        let rv_alarm_id = match rd_cn(bytes, off, e, true) {
            Ok(v) => v,
            Err(er) => {
                proof {
                    lemma_read_step_none(s, e, fs, 23, fd(FieldKind::KCn, d_cn(true)), off0, acc);
                }
                return Err(er);
            },
        };
        proof {
            lemma_read_step(s, e, fs, 23, fd(FieldKind::KCn, d_cn(true)), off0, *off as int, acc, Val::Cn(rv_alarm_id@));
            lemma_pres_step(s, e, fs, 23, fd(FieldKind::KCn, d_cn(true)), off0, *off as int, acc, Val::Cn(rv_alarm_id@), p0,
                *pres as int);
            acc = acc.push(Val::Cn(rv_alarm_id@));
        }
        let ghost off0 = *off as int;
        let ghost p0 = *pres as int;
        if *off < bytes.len() {
            *pres = 25;
        }
        let rv_prog_txt = match rd_cn(bytes, off, e, true) {
            Ok(v) => v,
            Err(er) => {
                proof {
                    lemma_read_step_none(s, e, fs, 24, fd(FieldKind::KCn, d_cn(true)), off0, acc);
                }
                return Err(er);
            },
        };
        proof {
            lemma_read_step(s, e, fs, 24, fd(FieldKind::KCn, d_cn(true)), off0, *off as int, acc, Val::Cn(rv_prog_txt@));
            lemma_pres_step(s, e, fs, 24, fd(FieldKind::KCn, d_cn(true)), off0, *off as int, acc, Val::Cn(rv_prog_txt@), p0,
                *pres as int);
            acc = acc.push(Val::Cn(rv_prog_txt@));
        }
        let ghost off0 = *off as int;
        let ghost p0 = *pres as int;
        if *off < bytes.len() {
            *pres = 26;
        }
        let rv_rslt_txt = match rd_cn(bytes, off, e, true) {
            Ok(v) => v,
            Err(er) => {
                proof {
                    lemma_read_step_none(s, e, fs, 25, fd(FieldKind::KCn, d_cn(true)), off0, acc);
                }
                return Err(er);
            },
        };
        proof {
            lemma_read_step(s, e, fs, 25, fd(FieldKind::KCn, d_cn(true)), off0, *off as int, acc, Val::Cn(rv_rslt_txt@));
            lemma_pres_step(s, e, fs, 25, fd(FieldKind::KCn, d_cn(true)), off0, *off as int, acc, Val::Cn(rv_rslt_txt@), p0,
                *pres as int);
            acc = acc.push(Val::Cn(rv_rslt_txt@));
        }
        let ghost off0 = *off as int;
        let ghost p0 = *pres as int;
        if *off < bytes.len() {
            *pres = 27;
        }
        let rv_patg_num = match rd_u1(bytes, off, e, Some(0xffu8)) {
            Ok(v) => v,
            Err(er) => {
                proof {
                    lemma_read_step_none(s, e, fs, 26, fd(FieldKind::KU1, d_u1(Some(0xffu8))), off0, acc);
                }
                return Err(er);
            },
        };
        proof {
            lemma_read_step(s, e, fs, 26, fd(FieldKind::KU1, d_u1(Some(0xffu8))), off0, *off as int, acc, Val::U1(rv_patg_num));
            lemma_pres_step(s, e, fs, 26, fd(FieldKind::KU1, d_u1(Some(0xffu8))), off0, *off as int, acc, Val::U1(rv_patg_num), p0,
                *pres as int);
            acc = acc.push(Val::U1(rv_patg_num));
        }
        let ghost off0 = *off as int;
        let ghost p0 = *pres as int;
        if *off < bytes.len() {
            *pres = 28;
        }
        let rv_spin_map = match rd_dn(bytes, off, e, true) {
            Ok(v) => v,
            Err(er) => {
                proof {
                    lemma_read_step_none(s, e, fs, 27, fd(FieldKind::KDn, d_dn(true)), off0, acc);
                }
                return Err(er);
            },
        };
        proof {
            lemma_read_step(s, e, fs, 27, fd(FieldKind::KDn, d_dn(true)), off0, *off as int, acc, Val::Dn(rv_spin_map.0, rv_spin_map.1@));
            lemma_pres_step(s, e, fs, 27, fd(FieldKind::KDn, d_dn(true)), off0, *off as int, acc, Val::Dn(rv_spin_map.0, rv_spin_map.1@), p0,
                *pres as int);
            acc = acc.push(Val::Dn(rv_spin_map.0, rv_spin_map.1@));
        }
        Ok((rv_op_code, rv_test_txt, rv_alarm_id, rv_prog_txt, rv_rslt_txt, rv_patg_num, rv_spin_map))
    }

    /// Decodes a record payload: fields in declaration order, trailing
    /// absent fields at their defaults.
    #[verifier::rlimit(100)]
    #[verifier::spinoff_prover]
    pub fn read(bytes: &[u8], e: Endian) -> (r: Result<FTR, StdfError>)
        ensures
            match r {
                Ok(rec) => sdecode(bytes@, e, Self::fields()) == Some(rec.val_seq())
                    && rec.wf() && rec.present as int == spres(bytes@, e, Self::fields()),
                Err(_) => sdecode(bytes@, e, Self::fields()) is None,
            },
    {
        let ghost s = bytes@;
        let ghost fs = Self::fields();
        let mut off: usize = 0;
        let mut pres: usize = 0;
        proof {
            lemma_read_begin(s, e, fs);
            lemma_pres_begin(s, e, fs);
        }
        let ghost acc_0 = Seq::<Val>::empty();
        let t0 = match Self::read_seg0(bytes, &mut off, &mut pres, e, Ghost(acc_0)) {
            Ok(t) => t,
            Err(er) => {
                return Err(er);
            },
        };
        let ghost acc_1 = acc_0.push(Val::U4(t0.0)).push(Val::U1(t0.1)).push(Val::U1(t0.2)).push(Val::U1(t0.3)).push(Val::U1(t0.4)).push(Val::U4(t0.5)).push(Val::U4(t0.6));
        let t1 = match Self::read_seg1(bytes, &mut off, &mut pres, e, Ghost(acc_1)) {
            Ok(t) => t,
            Err(er) => {
                return Err(er);
            },
        };
        let ghost acc_2 = acc_1.push(Val::U4(t1.0)).push(Val::U4(t1.1)).push(Val::U4(t1.2)).push(Val::U4(t1.3)).push(Val::U2(t1.4)).push(Val::U2(t1.5)).push(Val::U2(t1.6));
        proof {
            assert(acc_2[12] == Val::U2(t1.5));
        }
        proof {
            assert(acc_2[13] == Val::U2(t1.6));
        }
        let t2 = match Self::read_seg2(bytes, &mut off, &mut pres, e, Ghost(acc_2), t1.5, t1.6) {
            Ok(t) => t,
            Err(er) => {
                return Err(er);
            },
        };
        let ghost acc_3 = acc_2.push(Val::ArrU2(t2.0.deep_view())).push(Val::ArrN1(t2.1.deep_view())).push(Val::ArrU2(t2.2.deep_view())).push(Val::ArrN1(t2.3.deep_view())).push(Val::Dn(t2.4.0, t2.4.1@)).push(Val::Cn(t2.5@)).push(Val::Cn(t2.6@));
        let t3 = match Self::read_seg3(bytes, &mut off, &mut pres, e, Ghost(acc_3)) {
            Ok(t) => t,
            Err(er) => {
                return Err(er);
            },
        };
        let ghost acc_4 = acc_3.push(Val::Cn(t3.0@)).push(Val::Cn(t3.1@)).push(Val::Cn(t3.2@)).push(Val::Cn(t3.3@)).push(Val::Cn(t3.4@)).push(Val::U1(t3.5)).push(Val::Dn(t3.6.0, t3.6.1@));
        let rec = FTR {
            test_num: U4(t0.0),
            head_num: U1(t0.1),
            site_num: U1(t0.2),
            test_flg: B1(t0.3),
            opt_flag: B1(t0.4),
            cycl_cnt: U4(t0.5),
            rel_vadr: U4(t0.6),
            rept_cnt: U4(t1.0),
            num_fail: U4(t1.1),
            xfail_ad: I4(i32_from_bits(t1.2)),
            yfail_ad: I4(i32_from_bits(t1.3)),
            vect_off: I2(i16_from_bits(t1.4)),
            rtn_icnt: U2(t1.5),
            pgm_icnt: U2(t1.6),
            rtn_indx: t2.0,
            rtn_stat: t2.1,
            pgm_indx: t2.2,
            pgm_stat: t2.3,
            fail_pin: Dn(t2.4.0, t2.4.1),
            vect_nam: Cn(t2.5),
            time_set: Cn(t2.6),
            op_code: Cn(t3.0),
            test_txt: Cn(t3.1),
            alarm_id: Cn(t3.2),
            prog_txt: Cn(t3.3),
            rslt_txt: Cn(t3.4),
            patg_num: U1(t3.5),
            spin_map: Dn(t3.6.0, t3.6.1),
            present: pres,
        };
        proof {
            lemma_signed_round_trip();
            lemma_read_end(s, e, fs, off as int, acc_4);
            lemma_pres_end(s, e, fs, off as int, acc_4, pres as int);
            Self::lemma_val_seq_unfold(rec);
            lemma_sdecode_match(s, e, fs);
        }
        Ok(rec)
    }

    /// The field values, written out as the pushes the decoder makes.
    #[verifier::rlimit(100)]
    #[verifier::spinoff_prover]
    proof fn lemma_val_seq_unfold(rec: FTR)
        ensures
            rec.val_seq() == Seq::<Val>::empty()
                .push(Val::U4(rec.test_num.0))
                .push(Val::U1(rec.head_num.0))
                .push(Val::U1(rec.site_num.0))
                .push(Val::U1(rec.test_flg.0))
                .push(Val::U1(rec.opt_flag.0))
                .push(Val::U4(rec.cycl_cnt.0))
                .push(Val::U4(rec.rel_vadr.0))
                .push(Val::U4(rec.rept_cnt.0))
                .push(Val::U4(rec.num_fail.0))
                .push(Val::U4(from_i32(rec.xfail_ad.0)))
                .push(Val::U4(from_i32(rec.yfail_ad.0)))
                .push(Val::U2(from_i16(rec.vect_off.0)))
                .push(Val::U2(rec.rtn_icnt.0))
                .push(Val::U2(rec.pgm_icnt.0))
                .push(Val::ArrU2(rec.rtn_indx.deep_view()))
                .push(Val::ArrN1(rec.rtn_stat.deep_view()))
                .push(Val::ArrU2(rec.pgm_indx.deep_view()))
                .push(Val::ArrN1(rec.pgm_stat.deep_view()))
                .push(Val::Dn(rec.fail_pin.0, rec.fail_pin.1@))
                .push(Val::Cn(rec.vect_nam.0@))
                .push(Val::Cn(rec.time_set.0@))
                .push(Val::Cn(rec.op_code.0@))
                .push(Val::Cn(rec.test_txt.0@))
                .push(Val::Cn(rec.alarm_id.0@))
                .push(Val::Cn(rec.prog_txt.0@))
                .push(Val::Cn(rec.rslt_txt.0@))
                .push(Val::U1(rec.patg_num.0))
                .push(Val::Dn(rec.spin_map.0, rec.spin_map.1@))
            ,
    {
        assert(rec.val_seq() =~= Seq::<Val>::empty()
            .push(Val::U4(rec.test_num.0))
            .push(Val::U1(rec.head_num.0))
            .push(Val::U1(rec.site_num.0))
            .push(Val::U1(rec.test_flg.0))
            .push(Val::U1(rec.opt_flag.0))
            .push(Val::U4(rec.cycl_cnt.0))
            .push(Val::U4(rec.rel_vadr.0))
            .push(Val::U4(rec.rept_cnt.0))
            .push(Val::U4(rec.num_fail.0))
            .push(Val::U4(from_i32(rec.xfail_ad.0)))
            .push(Val::U4(from_i32(rec.yfail_ad.0)))
            .push(Val::U2(from_i16(rec.vect_off.0)))
            .push(Val::U2(rec.rtn_icnt.0))
            .push(Val::U2(rec.pgm_icnt.0))
            .push(Val::ArrU2(rec.rtn_indx.deep_view()))
            .push(Val::ArrN1(rec.rtn_stat.deep_view()))
            .push(Val::ArrU2(rec.pgm_indx.deep_view()))
            .push(Val::ArrN1(rec.pgm_stat.deep_view()))
            .push(Val::Dn(rec.fail_pin.0, rec.fail_pin.1@))
            .push(Val::Cn(rec.vect_nam.0@))
            .push(Val::Cn(rec.time_set.0@))
            .push(Val::Cn(rec.op_code.0@))
            .push(Val::Cn(rec.test_txt.0@))
            .push(Val::Cn(rec.alarm_id.0@))
            .push(Val::Cn(rec.prog_txt.0@))
            .push(Val::Cn(rec.rslt_txt.0@))
            .push(Val::U1(rec.patg_num.0))
            .push(Val::Dn(rec.spin_map.0, rec.spin_map.1@))
        );
    }

    /// Appends the payload encoding of the record to a buffer.
    #[verifier::rlimit(100)]
    #[verifier::spinoff_prover]
    pub fn write(&self, out: &mut Vec<u8>, e: Endian)
        requires
            self.wf(),
        ensures
            final(out)@ == old(out)@ + self.enc(e),
    {
        let ghost vs = self.val_seq();
        let ghost kk = self.present as int;
        let keep = self.present;
        proof {
            assert(0 <= kk <= 28);
            lemma_write_begin(e, vs, old(out)@);
        }
        let ghost mid = out@;
        if keep > 0 {
            wr_u4(out, e, self.test_num.0);
            proof {
                assert(vs[0] == Val::U4(self.test_num.0));
                lemma_write_step(e, vs, 0, old(out)@, mid, out@);
            }
        }
        proof {
            assert(out@ == old(out)@ + enc_vals(e, vs.take(
                if kk > 0 {
                    1int
                } else {
                    kk
                },
            )));
        }
        let ghost mid = out@;
        if keep > 1 {
            wr_u1(out, self.head_num.0);
            proof {
                assert(vs[1] == Val::U1(self.head_num.0));
                lemma_write_step(e, vs, 1, old(out)@, mid, out@);
            }
        }
        proof {
            assert(out@ == old(out)@ + enc_vals(e, vs.take(
                if kk > 1 {
                    2int
                } else {
                    kk
                },
            )));
        }
        let ghost mid = out@;
        if keep > 2 {
            wr_u1(out, self.site_num.0);
            proof {
                assert(vs[2] == Val::U1(self.site_num.0));
                lemma_write_step(e, vs, 2, old(out)@, mid, out@);
            }
        }
        proof {
            assert(out@ == old(out)@ + enc_vals(e, vs.take(
                if kk > 2 {
                    3int
                } else {
                    kk
                },
            )));
        }
        let ghost mid = out@;
        if keep > 3 {
            wr_u1(out, self.test_flg.0);
            proof {
                assert(vs[3] == Val::U1(self.test_flg.0));
                lemma_write_step(e, vs, 3, old(out)@, mid, out@);
            }
        }
        proof {
            assert(out@ == old(out)@ + enc_vals(e, vs.take(
                if kk > 3 {
                    4int
                } else {
                    kk
                },
            )));
        }
        let ghost mid = out@;
        if keep > 4 {
            wr_u1(out, self.opt_flag.0);
            proof {
                assert(vs[4] == Val::U1(self.opt_flag.0));
                lemma_write_step(e, vs, 4, old(out)@, mid, out@);
            }
        }
        proof {
            assert(out@ == old(out)@ + enc_vals(e, vs.take(
                if kk > 4 {
                    5int
                } else {
                    kk
                },
            )));
        }
        let ghost mid = out@;
        if keep > 5 {
            wr_u4(out, e, self.cycl_cnt.0);
            proof {
                assert(vs[5] == Val::U4(self.cycl_cnt.0));
                lemma_write_step(e, vs, 5, old(out)@, mid, out@);
            }
        }
        proof {
            assert(out@ == old(out)@ + enc_vals(e, vs.take(
                if kk > 5 {
                    6int
                } else {
                    kk
                },
            )));
        }
        let ghost mid = out@;
        if keep > 6 {
            wr_u4(out, e, self.rel_vadr.0);
            proof {
                assert(vs[6] == Val::U4(self.rel_vadr.0));
                lemma_write_step(e, vs, 6, old(out)@, mid, out@);
            }
        }
        proof {
            assert(out@ == old(out)@ + enc_vals(e, vs.take(
                if kk > 6 {
                    7int
                } else {
                    kk
                },
            )));
        }
        let ghost mid = out@;
        if keep > 7 {
            wr_u4(out, e, self.rept_cnt.0);
            proof {
                assert(vs[7] == Val::U4(self.rept_cnt.0));
                lemma_write_step(e, vs, 7, old(out)@, mid, out@);
            }
        }
        proof {
            assert(out@ == old(out)@ + enc_vals(e, vs.take(
                if kk > 7 {
                    8int
                } else {
                    kk
                },
            )));
        }
        let ghost mid = out@;
        if keep > 8 {
            wr_u4(out, e, self.num_fail.0);
            proof {
                assert(vs[8] == Val::U4(self.num_fail.0));
                lemma_write_step(e, vs, 8, old(out)@, mid, out@);
            }
        }
        proof {
            assert(out@ == old(out)@ + enc_vals(e, vs.take(
                if kk > 8 {
                    9int
                } else {
                    kk
                },
            )));
        }
        let ghost mid = out@;
        if keep > 9 {
            wr_u4(out, e, i32_to_bits(self.xfail_ad.0));
            proof {
                assert(vs[9] == Val::U4(from_i32(self.xfail_ad.0)));
                lemma_write_step(e, vs, 9, old(out)@, mid, out@);
            }
        }
        proof {
            assert(out@ == old(out)@ + enc_vals(e, vs.take(
                if kk > 9 {
                    10int
                } else {
                    kk
                },
            )));
        }
        let ghost mid = out@;
        if keep > 10 {
            wr_u4(out, e, i32_to_bits(self.yfail_ad.0));
            proof {
                assert(vs[10] == Val::U4(from_i32(self.yfail_ad.0)));
                lemma_write_step(e, vs, 10, old(out)@, mid, out@);
            }
        }
        proof {
            assert(out@ == old(out)@ + enc_vals(e, vs.take(
                if kk > 10 {
                    11int
                } else {
                    kk
                },
            )));
        }
        let ghost mid = out@;
        if keep > 11 {
            wr_u2(out, e, i16_to_bits(self.vect_off.0));
            proof {
                assert(vs[11] == Val::U2(from_i16(self.vect_off.0)));
                lemma_write_step(e, vs, 11, old(out)@, mid, out@);
            }
        }
        proof {
            assert(out@ == old(out)@ + enc_vals(e, vs.take(
                if kk > 11 {
                    12int
                } else {
                    kk
                },
            )));
        }
        let ghost mid = out@;
        if keep > 12 {
            wr_u2(out, e, self.rtn_icnt.0);
            proof {
                assert(vs[12] == Val::U2(self.rtn_icnt.0));
                lemma_write_step(e, vs, 12, old(out)@, mid, out@);
            }
        }
        proof {
            assert(out@ == old(out)@ + enc_vals(e, vs.take(
                if kk > 12 {
                    13int
                } else {
                    kk
                },
            )));
        }
        let ghost mid = out@;
        if keep > 13 {
            wr_u2(out, e, self.pgm_icnt.0);
            proof {
                assert(vs[13] == Val::U2(self.pgm_icnt.0));
                lemma_write_step(e, vs, 13, old(out)@, mid, out@);
            }
        }
        proof {
            assert(out@ == old(out)@ + enc_vals(e, vs.take(
                if kk > 13 {
                    14int
                } else {
                    kk
                },
            )));
        }
        let ghost mid = out@;
        if keep > 14 {
            wr_arr_u2(out, e, &self.rtn_indx);
            proof {
                assert(vs[14] == Val::ArrU2(self.rtn_indx.deep_view()));
                lemma_write_step(e, vs, 14, old(out)@, mid, out@);
            }
        }
        proof {
            assert(out@ == old(out)@ + enc_vals(e, vs.take(
                if kk > 14 {
                    15int
                } else {
                    kk
                },
            )));
        }
        let ghost mid = out@;
        if keep > 15 {
            wr_arr_n1(out, &self.rtn_stat);
            proof {
                assert(vs[15] == Val::ArrN1(self.rtn_stat.deep_view()));
                lemma_write_step(e, vs, 15, old(out)@, mid, out@);
            }
        }
        proof {
            assert(out@ == old(out)@ + enc_vals(e, vs.take(
                if kk > 15 {
                    16int
                } else {
                    kk
                },
            )));
        }
        let ghost mid = out@;
        if keep > 16 {
            wr_arr_u2(out, e, &self.pgm_indx);
            proof {
                assert(vs[16] == Val::ArrU2(self.pgm_indx.deep_view()));
                lemma_write_step(e, vs, 16, old(out)@, mid, out@);
            }
        }
        proof {
            assert(out@ == old(out)@ + enc_vals(e, vs.take(
                if kk > 16 {
                    17int
                } else {
                    kk
                },
            )));
        }
        let ghost mid = out@;
        if keep > 17 {
            wr_arr_n1(out, &self.pgm_stat);
            proof {
                assert(vs[17] == Val::ArrN1(self.pgm_stat.deep_view()));
                lemma_write_step(e, vs, 17, old(out)@, mid, out@);
            }
        }
        proof {
            assert(out@ == old(out)@ + enc_vals(e, vs.take(
                if kk > 17 {
                    18int
                } else {
                    kk
                },
            )));
        }
        let ghost mid = out@;
        if keep > 18 {
            proof {
                assert(val_matches_at(Self::fields(), vs, 18));
            }
            wr_dn(out, e, self.fail_pin.0, self.fail_pin.1.as_slice());
            proof {
                assert(vs[18] == Val::Dn(self.fail_pin.0, self.fail_pin.1@));
                lemma_write_step(e, vs, 18, old(out)@, mid, out@);
            }
        }
        proof {
            assert(out@ == old(out)@ + enc_vals(e, vs.take(
                if kk > 18 {
                    19int
                } else {
                    kk
                },
            )));
        }
        let ghost mid = out@;
        if keep > 19 {
            proof {
                assert(val_matches_at(Self::fields(), vs, 19));
            }
            wr_cn(out, self.vect_nam.0.as_slice());
            proof {
                assert(vs[19] == Val::Cn(self.vect_nam.0@));
                lemma_write_step(e, vs, 19, old(out)@, mid, out@);
            }
        }
        proof {
            assert(out@ == old(out)@ + enc_vals(e, vs.take(
                if kk > 19 {
                    20int
                } else {
                    kk
                },
            )));
        }
        let ghost mid = out@;
        if keep > 20 {
            proof {
                assert(val_matches_at(Self::fields(), vs, 20));
            }
            wr_cn(out, self.time_set.0.as_slice());
            proof {
                assert(vs[20] == Val::Cn(self.time_set.0@));
                lemma_write_step(e, vs, 20, old(out)@, mid, out@);
            }
        }
        proof {
            assert(out@ == old(out)@ + enc_vals(e, vs.take(
                if kk > 20 {
                    21int
                } else {
                    kk
                },
            )));
        }
        let ghost mid = out@;
        if keep > 21 {
            proof {
                assert(val_matches_at(Self::fields(), vs, 21));
            }
            wr_cn(out, self.op_code.0.as_slice());
            proof {
                assert(vs[21] == Val::Cn(self.op_code.0@));
                lemma_write_step(e, vs, 21, old(out)@, mid, out@);
            }
        }
        proof {
            assert(out@ == old(out)@ + enc_vals(e, vs.take(
                if kk > 21 {
                    22int
                } else {
                    kk
                },
            )));
        }
        let ghost mid = out@;
        if keep > 22 {
            proof {
                assert(val_matches_at(Self::fields(), vs, 22));
            }
            wr_cn(out, self.test_txt.0.as_slice());
            proof {
                assert(vs[22] == Val::Cn(self.test_txt.0@));
                lemma_write_step(e, vs, 22, old(out)@, mid, out@);
            }
        }
        proof {
            assert(out@ == old(out)@ + enc_vals(e, vs.take(
                if kk > 22 {
                    23int
                } else {
                    kk
                },
            )));
        }
        let ghost mid = out@;
        if keep > 23 {
            proof {
                assert(val_matches_at(Self::fields(), vs, 23));
            }
            wr_cn(out, self.alarm_id.0.as_slice());
            proof {
                assert(vs[23] == Val::Cn(self.alarm_id.0@));
                lemma_write_step(e, vs, 23, old(out)@, mid, out@);
            }
        }
        proof {
            assert(out@ == old(out)@ + enc_vals(e, vs.take(
                if kk > 23 {
                    24int
                } else {
                    kk
                },
            )));
        }
        let ghost mid = out@;
        if keep > 24 {
            proof {
                assert(val_matches_at(Self::fields(), vs, 24));
            }
            wr_cn(out, self.prog_txt.0.as_slice());
            proof {
                assert(vs[24] == Val::Cn(self.prog_txt.0@));
                lemma_write_step(e, vs, 24, old(out)@, mid, out@);
            }
        }
        proof {
            assert(out@ == old(out)@ + enc_vals(e, vs.take(
                if kk > 24 {
                    25int
                } else {
                    kk
                },
            )));
        }
        let ghost mid = out@;
        if keep > 25 {
            proof {
                assert(val_matches_at(Self::fields(), vs, 25));
            }
            wr_cn(out, self.rslt_txt.0.as_slice());
            proof {
                assert(vs[25] == Val::Cn(self.rslt_txt.0@));
                lemma_write_step(e, vs, 25, old(out)@, mid, out@);
            }
        }
        proof {
            assert(out@ == old(out)@ + enc_vals(e, vs.take(
                if kk > 25 {
                    26int
                } else {
                    kk
                },
            )));
        }
        let ghost mid = out@;
        if keep > 26 {
            wr_u1(out, self.patg_num.0);
            proof {
                assert(vs[26] == Val::U1(self.patg_num.0));
                lemma_write_step(e, vs, 26, old(out)@, mid, out@);
            }
        }
        proof {
            assert(out@ == old(out)@ + enc_vals(e, vs.take(
                if kk > 26 {
                    27int
                } else {
                    kk
                },
            )));
        }
        let ghost mid = out@;
        if keep > 27 {
            proof {
                assert(val_matches_at(Self::fields(), vs, 27));
            }
            wr_dn(out, e, self.spin_map.0, self.spin_map.1.as_slice());
            proof {
                assert(vs[27] == Val::Dn(self.spin_map.0, self.spin_map.1@));
                lemma_write_step(e, vs, 27, old(out)@, mid, out@);
            }
        }
        proof {
            assert(out@ == old(out)@ + enc_vals(e, vs.take(
                if kk > 27 {
                    28int
                } else {
                    kk
                },
            )));
        }
        proof {
            assert(out@ == old(out)@ + enc_vals(e, vs.take(kk)));
        }
    }
}

} // verus!
