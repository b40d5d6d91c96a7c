//! Pin and site records: pin maps, pin groups and lists, retest data, and
//! site descriptions.

use vstd::prelude::*;

use crate::fields::{
    d_cn, d_dn, d_u1, d_u2, d_u4, d_u8, i16_from_bits, i16_to_bits, i32_from_bits, i32_to_bits,
    i64_from_bits, i64_to_bits, i8_from_bits, i8_to_bits, rd_arr_cn, rd_arr_n1, rd_arr_u1,
    rd_arr_u2, rd_arr_u4, rd_arr_vn, rd_cn, rd_dn, rd_u1, rd_u2, rd_u4, rd_u8w, wr_arr_cn,
    wr_arr_n1, wr_arr_u1, wr_arr_u2, wr_arr_u4, wr_arr_vn, wr_cn, wr_dn, wr_u1, wr_u2, wr_u4,
    wr_u8w,
};
use crate::types::{Bn, Cn, Dn, Endian, StdfError, Vn, B1, C1, I1, I2, I4, I8, N1, R4, R8, U1, U2,
    U4, U4E, U8};
use crate::wire::{
    counts_strict_upto, enc_vals, fd, from_i16, from_i32, from_i64, from_i8, lemma_pres_begin,
    lemma_pres_end, lemma_pres_step, lemma_pres_step_arr, lemma_read_begin, lemma_read_end,
    lemma_read_step, lemma_read_step_arr, lemma_read_step_arr_none, lemma_read_step_none,
    lemma_sdecode_match, lemma_sdecode_present, lemma_signed_round_trip, lemma_write_begin,
    lemma_write_end, lemma_write_step, sdecode, sdecode_from, spres, spres_inv, suppressible,
    val_matches_at, vals_match, vnv_wf, Dflt, Elem, FieldDef, FieldKind, Val,
};


verus! {

/// PMR: the Pin Map Record, with pair (1, 60).
#[derive(Clone, Debug, PartialEq, Eq)]
pub struct PMR {
    pub pmr_index: U2,
    pub chan_typ: U2,
    pub chan_nam: Cn,
    pub phy_nam: Cn,
    pub log_nam: Cn,
    pub head_num: U1,
    pub site_num: U1,
    /// How many leading fields stood on the wire when the record
    /// was decoded; `write` puts exactly these back.
    pub present: usize,
}

impl PMR {
    /// The field layout of the record: wire kind, default, and for
    /// an array the position of its count field.
    pub open spec fn fields() -> Seq<FieldDef> {
        seq![
            fd(FieldKind::KU2, d_u2(None)),
            fd(FieldKind::KU2, d_u2(Some(0u16))),
            fd(FieldKind::KCn, d_cn(true)),
            fd(FieldKind::KCn, d_cn(true)),
            fd(FieldKind::KCn, d_cn(true)),
            fd(FieldKind::KU1, d_u1(Some(1u8))),
            fd(FieldKind::KU1, d_u1(Some(1u8))),
        ]
    }

    /// The field values of the record, in declaration order.
    pub open spec fn val_seq(self) -> Seq<Val> {
        seq![
            Val::U2(self.pmr_index.0),
            Val::U2(self.chan_typ.0),
            Val::Cn(self.chan_nam.0@),
            Val::Cn(self.phy_nam.0@),
            Val::Cn(self.log_nam.0@),
            Val::U1(self.head_num.0),
            Val::U1(self.site_num.0),
        ]
    }

    /// Well-formedness: every value fits its wire layout, arrays are
    /// as long as their count fields say or stand empty past the
    /// wire, and the on-the-wire count covers at most every field.
    pub open spec fn wf(self) -> bool {
        vals_match(Self::fields(), self.val_seq()) && self.present <= 7
    }

    /// Well-formedness is exactly conformance of the values to the
    /// layout, with the on-the-wire count in bounds.
    pub proof fn lemma_wf_is_match(self)
        ensures
            self.wf() == (vals_match(Self::fields(), self.val_seq()) && self.present
                <= Self::fields().len()),
    {
    }

    /// The payload bytes of the record under a byte order: the
    /// fields that stood on the wire, in declaration order; the
    /// absent tail stays off it.
    pub open spec fn enc(self, e: Endian) -> Seq<u8> {
        enc_vals(e, self.val_seq().take(self.present as int))
    }

    /// Every array that stood on the wire is as long as its count
    /// field says, so the record can be framed back onto it.
    pub open spec fn counts_ok(self) -> bool {
        counts_strict_upto(Self::fields(), self.val_seq(), self.present as int)
    }

    /// Every field past the on-the-wire count holds its declared
    /// default or is empty.
    pub open spec fn tail_absent(self) -> bool {
        forall|i: int|
            self.present <= i < Self::fields().len() ==> #[trigger] suppressible(
                Self::fields()[i],
                self.val_seq()[i],
            )
    }

    /// A record decoded off the wire is framed: its on-the-wire
    /// arrays match their counts and its absent fields hold their
    /// defaults.
    pub proof fn lemma_decoded_shape(self, s: Seq<u8>, e: Endian)
        requires
            sdecode(s, e, Self::fields()) == Some(self.val_seq()),
            self.present as int == spres(s, e, Self::fields()),
        ensures
            self.counts_ok(),
            self.tail_absent(),
    {
        lemma_sdecode_present(s, e, Self::fields());
    }

    /// Decodes a record payload: fields in declaration order, trailing
    /// absent fields at their defaults.
    #[verifier::rlimit(100)]
    #[verifier::spinoff_prover]
    pub fn read(bytes: &[u8], e: Endian) -> (r: Result<PMR, StdfError>)
        ensures
            match r {
                Ok(rec) => sdecode(bytes@, e, Self::fields()) == Some(rec.val_seq())
                    && rec.wf() && rec.present as int == spres(bytes@, e, Self::fields()),
                Err(_) => sdecode(bytes@, e, Self::fields()) is None,
            },
    {
        let ghost s = bytes@;
        let ghost fs = Self::fields();
        let mut off: usize = 0;
        let mut pres: usize = 0;
        let ghost mut acc = Seq::<Val>::empty();
        proof {
            lemma_read_begin(s, e, fs);
            lemma_pres_begin(s, e, fs);
        }
        let ghost off0 = off as int;
        let ghost p0 = pres as int;
        if off < bytes.len() {
            pres = 1;
        }
        let rv_pmr_index = match rd_u2(bytes, &mut off, e, None) {
            Ok(v) => v,
            Err(er) => {
                proof {
                    lemma_read_step_none(s, e, fs, 0, fd(FieldKind::KU2, d_u2(None)), off0, acc);
                }
                return Err(er);
            },
        };
        proof {
            lemma_read_step(s, e, fs, 0, fd(FieldKind::KU2, d_u2(None)), off0, off as int, acc, Val::U2(rv_pmr_index));
            lemma_pres_step(s, e, fs, 0, fd(FieldKind::KU2, d_u2(None)), off0, off as int, acc, Val::U2(rv_pmr_index), p0,
                pres as int);
            acc = acc.push(Val::U2(rv_pmr_index));
        }
        let ghost off0 = off as int;
        let ghost p0 = pres as int;
        if off < bytes.len() {
            pres = 2;
        }
        let rv_chan_typ = match rd_u2(bytes, &mut off, e, Some(0u16)) {
            Ok(v) => v,
            Err(er) => {
                proof {
                    lemma_read_step_none(s, e, fs, 1, fd(FieldKind::KU2, d_u2(Some(0u16))), off0, acc);
                }
                return Err(er);
            },
        };
        proof {
            lemma_read_step(s, e, fs, 1, fd(FieldKind::KU2, d_u2(Some(0u16))), off0, off as int, acc, Val::U2(rv_chan_typ));
            lemma_pres_step(s, e, fs, 1, fd(FieldKind::KU2, d_u2(Some(0u16))), off0, off as int, acc, Val::U2(rv_chan_typ), p0,
                pres as int);
            acc = acc.push(Val::U2(rv_chan_typ));
        }
        let ghost off0 = off as int;
        let ghost p0 = pres as int;
        if off < bytes.len() {
            pres = 3;
        }
        let rv_chan_nam = match rd_cn(bytes, &mut off, e, true) {
            Ok(v) => v,
            Err(er) => {
                proof {
                    lemma_read_step_none(s, e, fs, 2, fd(FieldKind::KCn, d_cn(true)), off0, acc);
                }
                return Err(er);
            },
        };
        proof {
            lemma_read_step(s, e, fs, 2, fd(FieldKind::KCn, d_cn(true)), off0, off as int, acc, Val::Cn(rv_chan_nam@));
            lemma_pres_step(s, e, fs, 2, fd(FieldKind::KCn, d_cn(true)), off0, off as int, acc, Val::Cn(rv_chan_nam@), p0,
                pres as int);
            acc = acc.push(Val::Cn(rv_chan_nam@));
        }
        let ghost off0 = off as int;
        let ghost p0 = pres as int;
        if off < bytes.len() {
            pres = 4;
        }
        let rv_phy_nam = match rd_cn(bytes, &mut off, e, true) {
            Ok(v) => v,
            Err(er) => {
                proof {
                    lemma_read_step_none(s, e, fs, 3, fd(FieldKind::KCn, d_cn(true)), off0, acc);
                }
                return Err(er);
            },
        };
        proof {
            lemma_read_step(s, e, fs, 3, fd(FieldKind::KCn, d_cn(true)), off0, off as int, acc, Val::Cn(rv_phy_nam@));
            lemma_pres_step(s, e, fs, 3, fd(FieldKind::KCn, d_cn(true)), off0, off as int, acc, Val::Cn(rv_phy_nam@), p0,
                pres as int);
            acc = acc.push(Val::Cn(rv_phy_nam@));
        }
        let ghost off0 = off as int;
        let ghost p0 = pres as int;
        if off < bytes.len() {
            pres = 5;
        }
        let rv_log_nam = match rd_cn(bytes, &mut off, e, true) {
            Ok(v) => v,
            Err(er) => {
                proof {
                    lemma_read_step_none(s, e, fs, 4, fd(FieldKind::KCn, d_cn(true)), off0, acc);
                }
                return Err(er);
            },
        };
        proof {
            lemma_read_step(s, e, fs, 4, fd(FieldKind::KCn, d_cn(true)), off0, off as int, acc, Val::Cn(rv_log_nam@));
            lemma_pres_step(s, e, fs, 4, fd(FieldKind::KCn, d_cn(true)), off0, off as int, acc, Val::Cn(rv_log_nam@), p0,
                pres as int);
            acc = acc.push(Val::Cn(rv_log_nam@));
        }
        let ghost off0 = off as int;
        let ghost p0 = pres as int;
        if off < bytes.len() {
            pres = 6;
        }
        let rv_head_num = match rd_u1(bytes, &mut off, e, Some(1u8)) {
            Ok(v) => v,
            Err(er) => {
                proof {
                    lemma_read_step_none(s, e, fs, 5, fd(FieldKind::KU1, d_u1(Some(1u8))), off0, acc);
                }
                return Err(er);
            },
        };
        proof {
            lemma_read_step(s, e, fs, 5, fd(FieldKind::KU1, d_u1(Some(1u8))), off0, off as int, acc, Val::U1(rv_head_num));
            lemma_pres_step(s, e, fs, 5, fd(FieldKind::KU1, d_u1(Some(1u8))), off0, off as int, acc, Val::U1(rv_head_num), p0,
                pres as int);
            acc = acc.push(Val::U1(rv_head_num));
        }
        let ghost off0 = off as int;
        let ghost p0 = pres as int;
        if off < bytes.len() {
            pres = 7;
        }
        let rv_site_num = match rd_u1(bytes, &mut off, e, Some(1u8)) {
            Ok(v) => v,
            Err(er) => {
                proof {
                    lemma_read_step_none(s, e, fs, 6, fd(FieldKind::KU1, d_u1(Some(1u8))), off0, acc);
                }
                return Err(er);
            },
        };
        proof {
            lemma_read_step(s, e, fs, 6, fd(FieldKind::KU1, d_u1(Some(1u8))), off0, off as int, acc, Val::U1(rv_site_num));
            lemma_pres_step(s, e, fs, 6, fd(FieldKind::KU1, d_u1(Some(1u8))), off0, off as int, acc, Val::U1(rv_site_num), p0,
                pres as int);
            acc = acc.push(Val::U1(rv_site_num));
        }
        let rec = PMR {
            pmr_index: U2(rv_pmr_index),
            chan_typ: U2(rv_chan_typ),
            chan_nam: Cn(rv_chan_nam),
            phy_nam: Cn(rv_phy_nam),
            log_nam: Cn(rv_log_nam),
            head_num: U1(rv_head_num),
            site_num: U1(rv_site_num),
            present: pres,
        };
        proof {
            lemma_read_end(s, e, fs, off as int, acc);
            lemma_pres_end(s, e, fs, off as int, acc, pres as int);
            assert(rec.val_seq() =~= acc);
            lemma_sdecode_match(s, e, fs);
        }
        Ok(rec)
    }

    /// Appends the payload encoding of the record to a buffer.
    #[verifier::rlimit(100)]
    #[verifier::spinoff_prover]
    pub fn write(&self, out: &mut Vec<u8>, e: Endian)
        requires
            self.wf(),
        ensures
            final(out)@ == old(out)@ + self.enc(e),
    {
        let ghost vs = self.val_seq();
        let ghost kk = self.present as int;
        let keep = self.present;
        proof {
            assert(0 <= kk <= 7);
            lemma_write_begin(e, vs, old(out)@);
        }
        let ghost mid = out@;
        if keep > 0 {
            wr_u2(out, e, self.pmr_index.0);
            proof {
                assert(vs[0] == Val::U2(self.pmr_index.0));
                lemma_write_step(e, vs, 0, old(out)@, mid, out@);
            }
        }
        proof {
            assert(out@ == old(out)@ + enc_vals(e, vs.take(
                if kk > 0 {
                    1int
                } else {
                    kk
                },
            )));
        }
        let ghost mid = out@;
        if keep > 1 {
            wr_u2(out, e, self.chan_typ.0);
            proof {
                assert(vs[1] == Val::U2(self.chan_typ.0));
                lemma_write_step(e, vs, 1, old(out)@, mid, out@);
            }
        }
        proof {
            assert(out@ == old(out)@ + enc_vals(e, vs.take(
                if kk > 1 {
                    2int
                } else {
                    kk
                },
            )));
        }
        let ghost mid = out@;
        if keep > 2 {
            proof {
                assert(val_matches_at(Self::fields(), vs, 2));
            }
            wr_cn(out, self.chan_nam.0.as_slice());
            proof {
                assert(vs[2] == Val::Cn(self.chan_nam.0@));
                lemma_write_step(e, vs, 2, old(out)@, mid, out@);
            }
        }
        proof {
            assert(out@ == old(out)@ + enc_vals(e, vs.take(
                if kk > 2 {
                    3int
                } else {
                    kk
                },
            )));
        }
        let ghost mid = out@;
        if keep > 3 {
            proof {
                assert(val_matches_at(Self::fields(), vs, 3));
            }
            wr_cn(out, self.phy_nam.0.as_slice());
            proof {
                assert(vs[3] == Val::Cn(self.phy_nam.0@));
                lemma_write_step(e, vs, 3, old(out)@, mid, out@);
            }
        }
        proof {
            assert(out@ == old(out)@ + enc_vals(e, vs.take(
                if kk > 3 {
                    4int
                } else {
                    kk
                },
            )));
        }
        let ghost mid = out@;
        if keep > 4 {
            proof {
                assert(val_matches_at(Self::fields(), vs, 4));
            }
            wr_cn(out, self.log_nam.0.as_slice());
            proof {
                assert(vs[4] == Val::Cn(self.log_nam.0@));
                lemma_write_step(e, vs, 4, old(out)@, mid, out@);
            }
        }
        proof {
            assert(out@ == old(out)@ + enc_vals(e, vs.take(
                if kk > 4 {
                    5int
                } else {
                    kk
                },
            )));
        }
        let ghost mid = out@;
        if keep > 5 {
            wr_u1(out, self.head_num.0);
            proof {
                assert(vs[5] == Val::U1(self.head_num.0));
                lemma_write_step(e, vs, 5, old(out)@, mid, out@);
            }
        }
        proof {
            assert(out@ == old(out)@ + enc_vals(e, vs.take(
                if kk > 5 {
                    6int
                } else {
                    kk
                },
            )));
        }
        let ghost mid = out@;
        if keep > 6 {
            wr_u1(out, self.site_num.0);
            proof {
                assert(vs[6] == Val::U1(self.site_num.0));
                lemma_write_step(e, vs, 6, old(out)@, mid, out@);
            }
        }
        proof {
            assert(out@ == old(out)@ + enc_vals(e, vs.take(
                if kk > 6 {
                    7int
                } else {
                    kk
                },
            )));
        }
        proof {
            assert(out@ == old(out)@ + enc_vals(e, vs.take(kk)));
        }
    }
}

/// PGR: the Pin Group Record, with pair (1, 62).
#[derive(Clone, Debug, PartialEq, Eq)]
pub struct PGR {
    pub grp_indx: U2,
    pub grp_nam: Cn,
    pub indx_cnt: U2,
    pub pmr_indx: Vec<U2>,
    /// How many leading fields stood on the wire when the record
    /// was decoded; `write` puts exactly these back.
    pub present: usize,
}

impl PGR {
    /// The field layout of the record: wire kind, default, and for
    /// an array the position of its count field.
    pub open spec fn fields() -> Seq<FieldDef> {
        seq![
            fd(FieldKind::KU2, d_u2(None)),
            fd(FieldKind::KCn, d_cn(true)),
            fd(FieldKind::KU2, d_u2(Some(0u16))),
            fd(FieldKind::KArr(Elem::EU2, 2), None),
        ]
    }

    /// The field values of the record, in declaration order.
    pub open spec fn val_seq(self) -> Seq<Val> {
        seq![
            Val::U2(self.grp_indx.0),
            Val::Cn(self.grp_nam.0@),
            Val::U2(self.indx_cnt.0),
            Val::ArrU2(self.pmr_indx.deep_view()),
        ]
    }

    /// Well-formedness: every value fits its wire layout, arrays are
    /// as long as their count fields say or stand empty past the
    /// wire, and the on-the-wire count covers at most every field.
    pub open spec fn wf(self) -> bool {
        vals_match(Self::fields(), self.val_seq()) && self.present <= 4
    }

    /// Well-formedness is exactly conformance of the values to the
    /// layout, with the on-the-wire count in bounds.
    pub proof fn lemma_wf_is_match(self)
        ensures
            self.wf() == (vals_match(Self::fields(), self.val_seq()) && self.present
                <= Self::fields().len()),
    {
    }

    /// The payload bytes of the record under a byte order: the
    /// fields that stood on the wire, in declaration order; the
    /// absent tail stays off it.
    pub open spec fn enc(self, e: Endian) -> Seq<u8> {
        enc_vals(e, self.val_seq().take(self.present as int))
    }

    /// Every array that stood on the wire is as long as its count
    /// field says, so the record can be framed back onto it.
    pub open spec fn counts_ok(self) -> bool {
        counts_strict_upto(Self::fields(), self.val_seq(), self.present as int)
    }

    /// Every field past the on-the-wire count holds its declared
    /// default or is empty.
    pub open spec fn tail_absent(self) -> bool {
        forall|i: int|
            self.present <= i < Self::fields().len() ==> #[trigger] suppressible(
                Self::fields()[i],
                self.val_seq()[i],
            )
    }

    /// A record decoded off the wire is framed: its on-the-wire
    /// arrays match their counts and its absent fields hold their
    /// defaults.
    pub proof fn lemma_decoded_shape(self, s: Seq<u8>, e: Endian)
        requires
            sdecode(s, e, Self::fields()) == Some(self.val_seq()),
            self.present as int == spres(s, e, Self::fields()),
        ensures
            self.counts_ok(),
            self.tail_absent(),
    {
        lemma_sdecode_present(s, e, Self::fields());
    }

    /// Decodes a record payload: fields in declaration order, trailing
    /// absent fields at their defaults.
    pub fn read(bytes: &[u8], e: Endian) -> (r: Result<PGR, StdfError>)
        ensures
            match r {
                Ok(rec) => sdecode(bytes@, e, Self::fields()) == Some(rec.val_seq())
                    && rec.wf() && rec.present as int == spres(bytes@, e, Self::fields()),
                Err(_) => sdecode(bytes@, e, Self::fields()) is None,
            },
    {
        let ghost s = bytes@;
        let ghost fs = Self::fields();
        let mut off: usize = 0;
        let mut pres: usize = 0;
        let ghost mut acc = Seq::<Val>::empty();
        proof {
            lemma_read_begin(s, e, fs);
            lemma_pres_begin(s, e, fs);
        }
        let ghost off0 = off as int;
        let ghost p0 = pres as int;
        if off < bytes.len() {
            pres = 1;
        }
        let rv_grp_indx = match rd_u2(bytes, &mut off, e, None) {
            Ok(v) => v,
            Err(er) => {
                proof {
                    lemma_read_step_none(s, e, fs, 0, fd(FieldKind::KU2, d_u2(None)), off0, acc);
                }
                return Err(er);
            },
        };
        proof {
            lemma_read_step(s, e, fs, 0, fd(FieldKind::KU2, d_u2(None)), off0, off as int, acc, Val::U2(rv_grp_indx));
            lemma_pres_step(s, e, fs, 0, fd(FieldKind::KU2, d_u2(None)), off0, off as int, acc, Val::U2(rv_grp_indx), p0,
                pres as int);
            acc = acc.push(Val::U2(rv_grp_indx));
        }
        let ghost off0 = off as int;
        let ghost p0 = pres as int;
        if off < bytes.len() {
            pres = 2;
        }
        let rv_grp_nam = match rd_cn(bytes, &mut off, e, true) {
            Ok(v) => v,
            Err(er) => {
                proof {
                    lemma_read_step_none(s, e, fs, 1, fd(FieldKind::KCn, d_cn(true)), off0, acc);
                }
                return Err(er);
            },
        };
        proof {
            lemma_read_step(s, e, fs, 1, fd(FieldKind::KCn, d_cn(true)), off0, off as int, acc, Val::Cn(rv_grp_nam@));
            lemma_pres_step(s, e, fs, 1, fd(FieldKind::KCn, d_cn(true)), off0, off as int, acc, Val::Cn(rv_grp_nam@), p0,
                pres as int);
            acc = acc.push(Val::Cn(rv_grp_nam@));
        }
        let ghost off0 = off as int;
        let ghost p0 = pres as int;
        if off < bytes.len() {
            pres = 3;
        }
        let rv_indx_cnt = match rd_u2(bytes, &mut off, e, Some(0u16)) {
            Ok(v) => v,
            Err(er) => {
                proof {
                    lemma_read_step_none(s, e, fs, 2, fd(FieldKind::KU2, d_u2(Some(0u16))), off0, acc);
                }
                return Err(er);
            },
        };
        proof {
            lemma_read_step(s, e, fs, 2, fd(FieldKind::KU2, d_u2(Some(0u16))), off0, off as int, acc, Val::U2(rv_indx_cnt));
            lemma_pres_step(s, e, fs, 2, fd(FieldKind::KU2, d_u2(Some(0u16))), off0, off as int, acc, Val::U2(rv_indx_cnt), p0,
                pres as int);
            acc = acc.push(Val::U2(rv_indx_cnt));
        }
        let ghost off0 = off as int;
        let ghost p0 = pres as int;
        if off < bytes.len() {
            pres = 4;
        }
        proof {
            assert(acc[2] == Val::U2(rv_indx_cnt));
        }
        let rv_pmr_indx = match rd_arr_u2(bytes, &mut off, e, rv_indx_cnt as usize) {
            Ok(v) => v,
            Err(er) => {
                proof {
                    lemma_read_step_arr_none(s, e, fs, 3, Elem::EU2, 2, off0, acc,
                        rv_indx_cnt as int);
                }
                return Err(er);
            },
        };
        proof {
            lemma_read_step_arr(s, e, fs, 3, Elem::EU2, 2, off0, off as int, acc,
                Val::ArrU2(rv_pmr_indx.deep_view()), rv_indx_cnt as int);
            lemma_pres_step_arr(s, e, fs, 3, Elem::EU2, 2, off0, off as int, acc,
                Val::ArrU2(rv_pmr_indx.deep_view()), rv_indx_cnt as int, p0, pres as int);
            acc = acc.push(Val::ArrU2(rv_pmr_indx.deep_view()));
        }
        let rec = PGR {
            grp_indx: U2(rv_grp_indx),
            grp_nam: Cn(rv_grp_nam),
            indx_cnt: U2(rv_indx_cnt),
            pmr_indx: rv_pmr_indx,
            present: pres,
        };
        proof {
            lemma_read_end(s, e, fs, off as int, acc);
            lemma_pres_end(s, e, fs, off as int, acc, pres as int);
            assert(rec.val_seq() =~= acc);
            lemma_sdecode_match(s, e, fs);
        }
        Ok(rec)
    }

    /// Appends the payload encoding of the record to a buffer.
    pub fn write(&self, out: &mut Vec<u8>, e: Endian)
        requires
            self.wf(),
        ensures
            final(out)@ == old(out)@ + self.enc(e),
    {
        let ghost vs = self.val_seq();
        let ghost kk = self.present as int;
        let keep = self.present;
        proof {
            assert(0 <= kk <= 4);
            lemma_write_begin(e, vs, old(out)@);
        }
        let ghost mid = out@;
        if keep > 0 {
            wr_u2(out, e, self.grp_indx.0);
            proof {
                assert(vs[0] == Val::U2(self.grp_indx.0));
                lemma_write_step(e, vs, 0, old(out)@, mid, out@);
            }
        }
        proof {
            assert(out@ == old(out)@ + enc_vals(e, vs.take(
                if kk > 0 {
                    1int
                } else {
                    kk
                },
            )));
        }
        let ghost mid = out@;
        if keep > 1 {
            proof {
                assert(val_matches_at(Self::fields(), vs, 1));
            }
            wr_cn(out, self.grp_nam.0.as_slice());
            proof {
                assert(vs[1] == Val::Cn(self.grp_nam.0@));
                lemma_write_step(e, vs, 1, old(out)@, mid, out@);
            }
        }
        proof {
            assert(out@ == old(out)@ + enc_vals(e, vs.take(
                if kk > 1 {
                    2int
                } else {
                    kk
                },
            )));
        }
        let ghost mid = out@;
        if keep > 2 {
            wr_u2(out, e, self.indx_cnt.0);
            proof {
                assert(vs[2] == Val::U2(self.indx_cnt.0));
                lemma_write_step(e, vs, 2, old(out)@, mid, out@);
            }
        }
        proof {
            assert(out@ == old(out)@ + enc_vals(e, vs.take(
                if kk > 2 {
                    3int
                } else {
                    kk
                },
            )));
        }
        let ghost mid = out@;
        if keep > 3 {
            wr_arr_u2(out, e, &self.pmr_indx);
            proof {
                assert(vs[3] == Val::ArrU2(self.pmr_indx.deep_view()));
                lemma_write_step(e, vs, 3, old(out)@, mid, out@);
            }
        }
        proof {
            assert(out@ == old(out)@ + enc_vals(e, vs.take(
                if kk > 3 {
                    4int
                } else {
                    kk
                },
            )));
        }
        proof {
            assert(out@ == old(out)@ + enc_vals(e, vs.take(kk)));
        }
    }
}

/// PLR: the Pin List Record, with pair (1, 63).
#[derive(Clone, Debug, PartialEq, Eq)]
pub struct PLR {
    pub grp_cnt: U2,
    pub grp_indx: Vec<U2>,
    pub grp_mode: Vec<U2>,
    pub grp_radx: Vec<U1>,
    pub pgm_char: Vec<Cn>,
    pub rtn_char: Vec<Cn>,
    pub pgm_chal: Vec<Cn>,
    pub rtn_chal: Vec<Cn>,
    /// How many leading fields stood on the wire when the record
    /// was decoded; `write` puts exactly these back.
    pub present: usize,
}

impl PLR {
    /// The field layout of the record: wire kind, default, and for
    /// an array the position of its count field.
    pub open spec fn fields() -> Seq<FieldDef> {
        seq![
            fd(FieldKind::KU2, d_u2(None)),
            fd(FieldKind::KArr(Elem::EU2, 0), None),
            fd(FieldKind::KArr(Elem::EU2, 0), None),
            fd(FieldKind::KArr(Elem::EU1, 0), None),
            fd(FieldKind::KArr(Elem::ECn, 0), None),
            fd(FieldKind::KArr(Elem::ECn, 0), None),
            fd(FieldKind::KArr(Elem::ECn, 0), None),
            fd(FieldKind::KArr(Elem::ECn, 0), None),
        ]
    }

    /// The field values of the record, in declaration order.
    pub open spec fn val_seq(self) -> Seq<Val> {
        seq![
            Val::U2(self.grp_cnt.0),
            Val::ArrU2(self.grp_indx.deep_view()),
            Val::ArrU2(self.grp_mode.deep_view()),
            Val::ArrU1(self.grp_radx.deep_view()),
            Val::ArrCn(self.pgm_char.deep_view()),
            Val::ArrCn(self.rtn_char.deep_view()),
            Val::ArrCn(self.pgm_chal.deep_view()),
            Val::ArrCn(self.rtn_chal.deep_view()),
        ]
    }

    /// Well-formedness: every value fits its wire layout, arrays are
    /// as long as their count fields say or stand empty past the
    /// wire, and the on-the-wire count covers at most every field.
    pub open spec fn wf(self) -> bool {
        vals_match(Self::fields(), self.val_seq()) && self.present <= 8
    }

    /// Well-formedness is exactly conformance of the values to the
    /// layout, with the on-the-wire count in bounds.
    pub proof fn lemma_wf_is_match(self)
        ensures
            self.wf() == (vals_match(Self::fields(), self.val_seq()) && self.present
                <= Self::fields().len()),
    {
    }

    /// The payload bytes of the record under a byte order: the
    /// fields that stood on the wire, in declaration order; the
    /// absent tail stays off it.
    pub open spec fn enc(self, e: Endian) -> Seq<u8> {
        enc_vals(e, self.val_seq().take(self.present as int))
    }

    /// Every array that stood on the wire is as long as its count
    /// field says, so the record can be framed back onto it.
    pub open spec fn counts_ok(self) -> bool {
        counts_strict_upto(Self::fields(), self.val_seq(), self.present as int)
    }

    /// Every field past the on-the-wire count holds its declared
    /// default or is empty.
    pub open spec fn tail_absent(self) -> bool {
        forall|i: int|
            self.present <= i < Self::fields().len() ==> #[trigger] suppressible(
                Self::fields()[i],
                self.val_seq()[i],
            )
    }

    /// A record decoded off the wire is framed: its on-the-wire
    /// arrays match their counts and its absent fields hold their
    /// defaults.
    pub proof fn lemma_decoded_shape(self, s: Seq<u8>, e: Endian)
        requires
            sdecode(s, e, Self::fields()) == Some(self.val_seq()),
            self.present as int == spres(s, e, Self::fields()),
        ensures
            self.counts_ok(),
            self.tail_absent(),
    {
        lemma_sdecode_present(s, e, Self::fields());
    }

    /// Decodes a record payload: fields in declaration order, trailing
    /// absent fields at their defaults.
    #[verifier::rlimit(100)]
    #[verifier::spinoff_prover]
    pub fn read(bytes: &[u8], e: Endian) -> (r: Result<PLR, StdfError>)
        ensures
            match r {
                Ok(rec) => sdecode(bytes@, e, Self::fields()) == Some(rec.val_seq())
                    && rec.wf() && rec.present as int == spres(bytes@, e, Self::fields()),
                Err(_) => sdecode(bytes@, e, Self::fields()) is None,
            },
    {
        let ghost s = bytes@;
        let ghost fs = Self::fields();
        let mut off: usize = 0;
        let mut pres: usize = 0;
        let ghost mut acc = Seq::<Val>::empty();
        proof {
            lemma_read_begin(s, e, fs);
            lemma_pres_begin(s, e, fs);
        }
        let ghost off0 = off as int;
        let ghost p0 = pres as int;
        if off < bytes.len() {
            pres = 1;
        }
        let rv_grp_cnt = match rd_u2(bytes, &mut off, e, None) {
            Ok(v) => v,
            Err(er) => {
                proof {
                    lemma_read_step_none(s, e, fs, 0, fd(FieldKind::KU2, d_u2(None)), off0, acc);
                }
                return Err(er);
            },
        };
        proof {
            lemma_read_step(s, e, fs, 0, fd(FieldKind::KU2, d_u2(None)), off0, off as int, acc, Val::U2(rv_grp_cnt));
            lemma_pres_step(s, e, fs, 0, fd(FieldKind::KU2, d_u2(None)), off0, off as int, acc, Val::U2(rv_grp_cnt), p0,
                pres as int);
            acc = acc.push(Val::U2(rv_grp_cnt));
        }
        let ghost off0 = off as int;
        let ghost p0 = pres as int;
        if off < bytes.len() {
            pres = 2;
        }
        proof {
            assert(acc[0] == Val::U2(rv_grp_cnt));
        }
        let rv_grp_indx = match rd_arr_u2(bytes, &mut off, e, rv_grp_cnt as usize) {
            Ok(v) => v,
            Err(er) => {
                proof {
                    lemma_read_step_arr_none(s, e, fs, 1, Elem::EU2, 0, off0, acc,
                        rv_grp_cnt as int);
                }
                return Err(er);
            },
        };
        proof {
            lemma_read_step_arr(s, e, fs, 1, Elem::EU2, 0, off0, off as int, acc,
                Val::ArrU2(rv_grp_indx.deep_view()), rv_grp_cnt as int);
            lemma_pres_step_arr(s, e, fs, 1, Elem::EU2, 0, off0, off as int, acc,
                Val::ArrU2(rv_grp_indx.deep_view()), rv_grp_cnt as int, p0, pres as int);
            acc = acc.push(Val::ArrU2(rv_grp_indx.deep_view()));
        }
        let ghost off0 = off as int;
        let ghost p0 = pres as int;
        if off < bytes.len() {
            pres = 3;
        }
        proof {
            assert(acc[0] == Val::U2(rv_grp_cnt));
        }
        let rv_grp_mode = match rd_arr_u2(bytes, &mut off, e, rv_grp_cnt as usize) {
            Ok(v) => v,
            Err(er) => {
                proof {
                    lemma_read_step_arr_none(s, e, fs, 2, Elem::EU2, 0, off0, acc,
                        rv_grp_cnt as int);
                }
                return Err(er);
            },
        };
        proof {
            lemma_read_step_arr(s, e, fs, 2, Elem::EU2, 0, off0, off as int, acc,
                Val::ArrU2(rv_grp_mode.deep_view()), rv_grp_cnt as int);
            lemma_pres_step_arr(s, e, fs, 2, Elem::EU2, 0, off0, off as int, acc,
                Val::ArrU2(rv_grp_mode.deep_view()), rv_grp_cnt as int, p0, pres as int);
            acc = acc.push(Val::ArrU2(rv_grp_mode.deep_view()));
        }
        let ghost off0 = off as int;
        let ghost p0 = pres as int;
        if off < bytes.len() {
            pres = 4;
        }
        proof {
            assert(acc[0] == Val::U2(rv_grp_cnt));
        }
        let rv_grp_radx = match rd_arr_u1(bytes, &mut off, e, rv_grp_cnt as usize) {
            Ok(v) => v,
            Err(er) => {
                proof {
                    lemma_read_step_arr_none(s, e, fs, 3, Elem::EU1, 0, off0, acc,
                        rv_grp_cnt as int);
                }
                return Err(er);
            },
        };
        proof {
            lemma_read_step_arr(s, e, fs, 3, Elem::EU1, 0, off0, off as int, acc,
                Val::ArrU1(rv_grp_radx.deep_view()), rv_grp_cnt as int);
            lemma_pres_step_arr(s, e, fs, 3, Elem::EU1, 0, off0, off as int, acc,
                Val::ArrU1(rv_grp_radx.deep_view()), rv_grp_cnt as int, p0, pres as int);
            acc = acc.push(Val::ArrU1(rv_grp_radx.deep_view()));
        }
        let ghost off0 = off as int;
        let ghost p0 = pres as int;
        if off < bytes.len() {
            pres = 5;
        }
        proof {
            assert(acc[0] == Val::U2(rv_grp_cnt));
        }
        let rv_pgm_char = match rd_arr_cn(bytes, &mut off, e, rv_grp_cnt as usize) {
            Ok(v) => v,
            Err(er) => {
                proof {
                    lemma_read_step_arr_none(s, e, fs, 4, Elem::ECn, 0, off0, acc,
                        rv_grp_cnt as int);
                }
                return Err(er);
            },
        };
        proof {
            lemma_read_step_arr(s, e, fs, 4, Elem::ECn, 0, off0, off as int, acc,
                Val::ArrCn(rv_pgm_char.deep_view()), rv_grp_cnt as int);
            lemma_pres_step_arr(s, e, fs, 4, Elem::ECn, 0, off0, off as int, acc,
                Val::ArrCn(rv_pgm_char.deep_view()), rv_grp_cnt as int, p0, pres as int);
            acc = acc.push(Val::ArrCn(rv_pgm_char.deep_view()));
        }
        let ghost off0 = off as int;
        let ghost p0 = pres as int;
        if off < bytes.len() {
            pres = 6;
        }
        proof {
            assert(acc[0] == Val::U2(rv_grp_cnt));
        }
        let rv_rtn_char = match rd_arr_cn(bytes, &mut off, e, rv_grp_cnt as usize) {
            Ok(v) => v,
            Err(er) => {
                proof {
                    lemma_read_step_arr_none(s, e, fs, 5, Elem::ECn, 0, off0, acc,
                        rv_grp_cnt as int);
                }
                return Err(er);
            },
        };
        proof {
            lemma_read_step_arr(s, e, fs, 5, Elem::ECn, 0, off0, off as int, acc,
                Val::ArrCn(rv_rtn_char.deep_view()), rv_grp_cnt as int);
            lemma_pres_step_arr(s, e, fs, 5, Elem::ECn, 0, off0, off as int, acc,
                Val::ArrCn(rv_rtn_char.deep_view()), rv_grp_cnt as int, p0, pres as int);
            acc = acc.push(Val::ArrCn(rv_rtn_char.deep_view()));
        }
        let ghost off0 = off as int;
        let ghost p0 = pres as int;
        if off < bytes.len() {
            pres = 7;
        }
        proof {
            assert(acc[0] == Val::U2(rv_grp_cnt));
        }
        let rv_pgm_chal = match rd_arr_cn(bytes, &mut off, e, rv_grp_cnt as usize) {
            Ok(v) => v,
            Err(er) => {
                proof {
                    lemma_read_step_arr_none(s, e, fs, 6, Elem::ECn, 0, off0, acc,
                        rv_grp_cnt as int);
                }
                return Err(er);
            },
        };
        proof {
            lemma_read_step_arr(s, e, fs, 6, Elem::ECn, 0, off0, off as int, acc,
                Val::ArrCn(rv_pgm_chal.deep_view()), rv_grp_cnt as int);
            lemma_pres_step_arr(s, e, fs, 6, Elem::ECn, 0, off0, off as int, acc,
                Val::ArrCn(rv_pgm_chal.deep_view()), rv_grp_cnt as int, p0, pres as int);
            acc = acc.push(Val::ArrCn(rv_pgm_chal.deep_view()));
        }
        let ghost off0 = off as int;
        let ghost p0 = pres as int;
        if off < bytes.len() {
            pres = 8;
        }
        proof {
            assert(acc[0] == Val::U2(rv_grp_cnt));
        }
        let rv_rtn_chal = match rd_arr_cn(bytes, &mut off, e, rv_grp_cnt as usize) {
            Ok(v) => v,
            Err(er) => {
                proof {
                    lemma_read_step_arr_none(s, e, fs, 7, Elem::ECn, 0, off0, acc,
                        rv_grp_cnt as int);
                }
                return Err(er);
            },
        };
        proof {
            lemma_read_step_arr(s, e, fs, 7, Elem::ECn, 0, off0, off as int, acc,
                Val::ArrCn(rv_rtn_chal.deep_view()), rv_grp_cnt as int);
            lemma_pres_step_arr(s, e, fs, 7, Elem::ECn, 0, off0, off as int, acc,
                Val::ArrCn(rv_rtn_chal.deep_view()), rv_grp_cnt as int, p0, pres as int);
            acc = acc.push(Val::ArrCn(rv_rtn_chal.deep_view()));
        }
        let rec = PLR {
            grp_cnt: U2(rv_grp_cnt),
            grp_indx: rv_grp_indx,
            grp_mode: rv_grp_mode,
            grp_radx: rv_grp_radx,
            pgm_char: rv_pgm_char,
            rtn_char: rv_rtn_char,
            pgm_chal: rv_pgm_chal,
            rtn_chal: rv_rtn_chal,
            present: pres,
        };
        proof {
            lemma_read_end(s, e, fs, off as int, acc);
            lemma_pres_end(s, e, fs, off as int, acc, pres as int);
            assert(rec.val_seq() =~= acc);
            lemma_sdecode_match(s, e, fs);
        }
        Ok(rec)
    }

    /// Appends the payload encoding of the record to a buffer.
    #[verifier::rlimit(100)]
    #[verifier::spinoff_prover]
    pub fn write(&self, out: &mut Vec<u8>, e: Endian)
        requires
            self.wf(),
        ensures
            final(out)@ == old(out)@ + self.enc(e),
    {
        let ghost vs = self.val_seq();
        let ghost kk = self.present as int;
        let keep = self.present;
        proof {
            assert(0 <= kk <= 8);
            lemma_write_begin(e, vs, old(out)@);
        }
        let ghost mid = out@;
        if keep > 0 {
            wr_u2(out, e, self.grp_cnt.0);
            proof {
                assert(vs[0] == Val::U2(self.grp_cnt.0));
                lemma_write_step(e, vs, 0, old(out)@, mid, out@);
            }
        }
        proof {
            assert(out@ == old(out)@ + enc_vals(e, vs.take(
                if kk > 0 {
                    1int
                } else {
                    kk
                },
            )));
        }
        let ghost mid = out@;
        if keep > 1 {
            wr_arr_u2(out, e, &self.grp_indx);
            proof {
                assert(vs[1] == Val::ArrU2(self.grp_indx.deep_view()));
                lemma_write_step(e, vs, 1, old(out)@, mid, out@);
            }
        }
        proof {
            assert(out@ == old(out)@ + enc_vals(e, vs.take(
                if kk > 1 {
                    2int
                } else {
                    kk
                },
            )));
        }
        let ghost mid = out@;
        if keep > 2 {
            wr_arr_u2(out, e, &self.grp_mode);
            proof {
                assert(vs[2] == Val::ArrU2(self.grp_mode.deep_view()));
                lemma_write_step(e, vs, 2, old(out)@, mid, out@);
            }
        }
        proof {
            assert(out@ == old(out)@ + enc_vals(e, vs.take(
                if kk > 2 {
                    3int
                } else {
                    kk
                },
            )));
        }
        let ghost mid = out@;
        if keep > 3 {
            wr_arr_u1(out, &self.grp_radx);
            proof {
                assert(vs[3] == Val::ArrU1(self.grp_radx.deep_view()));
                lemma_write_step(e, vs, 3, old(out)@, mid, out@);
            }
        }
        proof {
            assert(out@ == old(out)@ + enc_vals(e, vs.take(
                if kk > 3 {
                    4int
                } else {
                    kk
                },
            )));
        }
        let ghost mid = out@;
        if keep > 4 {
            proof {
                assert(val_matches_at(Self::fields(), vs, 4));
                assert forall|x: int| 0 <= x < self.pgm_char@.len() implies #[trigger] self.pgm_char@[x].0@.len() <= 255 by {
                    assert(self.pgm_char.deep_view()[x] == self.pgm_char@[x].0@);
                }
            }
            wr_arr_cn(out, &self.pgm_char);
            proof {
                assert(vs[4] == Val::ArrCn(self.pgm_char.deep_view()));
                lemma_write_step(e, vs, 4, old(out)@, mid, out@);
            }
        }
        proof {
            assert(out@ == old(out)@ + enc_vals(e, vs.take(
                if kk > 4 {
                    5int
                } else {
                    kk
                },
            )));
        }
        let ghost mid = out@;
        if keep > 5 {
            proof {
                assert(val_matches_at(Self::fields(), vs, 5));
                assert forall|x: int| 0 <= x < self.rtn_char@.len() implies #[trigger] self.rtn_char@[x].0@.len() <= 255 by {
                    assert(self.rtn_char.deep_view()[x] == self.rtn_char@[x].0@);
                }
            }
            wr_arr_cn(out, &self.rtn_char);
            proof {
                assert(vs[5] == Val::ArrCn(self.rtn_char.deep_view()));
                lemma_write_step(e, vs, 5, old(out)@, mid, out@);
            }
        }
        proof {
            assert(out@ == old(out)@ + enc_vals(e, vs.take(
                if kk > 5 {
                    6int
                } else {
                    kk
                },
            )));
        }
        let ghost mid = out@;
        if keep > 6 {
            proof {
                assert(val_matches_at(Self::fields(), vs, 6));
                assert forall|x: int| 0 <= x < self.pgm_chal@.len() implies #[trigger] self.pgm_chal@[x].0@.len() <= 255 by {
                    assert(self.pgm_chal.deep_view()[x] == self.pgm_chal@[x].0@);
                }
            }
            wr_arr_cn(out, &self.pgm_chal);
            proof {
                assert(vs[6] == Val::ArrCn(self.pgm_chal.deep_view()));
                lemma_write_step(e, vs, 6, old(out)@, mid, out@);
            }
        }
        proof {
            assert(out@ == old(out)@ + enc_vals(e, vs.take(
                if kk > 6 {
                    7int
                } else {
                    kk
                },
            )));
        }
        let ghost mid = out@;
        if keep > 7 {
            proof {
                assert(val_matches_at(Self::fields(), vs, 7));
                assert forall|x: int| 0 <= x < self.rtn_chal@.len() implies #[trigger] self.rtn_chal@[x].0@.len() <= 255 by {
                    assert(self.rtn_chal.deep_view()[x] == self.rtn_chal@[x].0@);
                }
            }
            wr_arr_cn(out, &self.rtn_chal);
            proof {
                assert(vs[7] == Val::ArrCn(self.rtn_chal.deep_view()));
                lemma_write_step(e, vs, 7, old(out)@, mid, out@);
            }
        }
        proof {
            assert(out@ == old(out)@ + enc_vals(e, vs.take(
                if kk > 7 {
                    8int
                } else {
                    kk
                },
            )));
        }
        proof {
            assert(out@ == old(out)@ + enc_vals(e, vs.take(kk)));
        }
    }
}

/// RDR: the Retest Data Record, with pair (1, 70).
#[derive(Clone, Debug, PartialEq, Eq)]
pub struct RDR {
    pub num_bins: U2,
    pub rtst_bin: Vec<U2>,
    /// How many leading fields stood on the wire when the record
    /// was decoded; `write` puts exactly these back.
    pub present: usize,
}

impl RDR {
    /// The field layout of the record: wire kind, default, and for
    /// an array the position of its count field.
    pub open spec fn fields() -> Seq<FieldDef> {
        seq![
            fd(FieldKind::KU2, d_u2(None)),
            fd(FieldKind::KArr(Elem::EU2, 0), None),
        ]
    }

    /// The field values of the record, in declaration order.
    pub open spec fn val_seq(self) -> Seq<Val> {
        seq![
            Val::U2(self.num_bins.0),
            Val::ArrU2(self.rtst_bin.deep_view()),
        ]
    }

    /// Well-formedness: every value fits its wire layout, arrays are
    /// as long as their count fields say or stand empty past the
    /// wire, and the on-the-wire count covers at most every field.
    pub open spec fn wf(self) -> bool {
        vals_match(Self::fields(), self.val_seq()) && self.present <= 2
    }

    /// Well-formedness is exactly conformance of the values to the
    /// layout, with the on-the-wire count in bounds.
    pub proof fn lemma_wf_is_match(self)
        ensures
            self.wf() == (vals_match(Self::fields(), self.val_seq()) && self.present
                <= Self::fields().len()),
    {
    }

    /// The payload bytes of the record under a byte order: the
    /// fields that stood on the wire, in declaration order; the
    /// absent tail stays off it.
    pub open spec fn enc(self, e: Endian) -> Seq<u8> {
        enc_vals(e, self.val_seq().take(self.present as int))
    }

    /// Every array that stood on the wire is as long as its count
    /// field says, so the record can be framed back onto it.
    pub open spec fn counts_ok(self) -> bool {
        counts_strict_upto(Self::fields(), self.val_seq(), self.present as int)
    }

    /// Every field past the on-the-wire count holds its declared
    /// default or is empty.
    pub open spec fn tail_absent(self) -> bool {
        forall|i: int|
            self.present <= i < Self::fields().len() ==> #[trigger] suppressible(
                Self::fields()[i],
                self.val_seq()[i],
            )
    }

    /// A record decoded off the wire is framed: its on-the-wire
    /// arrays match their counts and its absent fields hold their
    /// defaults.
    pub proof fn lemma_decoded_shape(self, s: Seq<u8>, e: Endian)
        requires
            sdecode(s, e, Self::fields()) == Some(self.val_seq()),
            self.present as int == spres(s, e, Self::fields()),
        ensures
            self.counts_ok(),
            self.tail_absent(),
    {
        lemma_sdecode_present(s, e, Self::fields());
    }

    /// Decodes a record payload: fields in declaration order, trailing
    /// absent fields at their defaults.
    pub fn read(bytes: &[u8], e: Endian) -> (r: Result<RDR, StdfError>)
        ensures
            match r {
                Ok(rec) => sdecode(bytes@, e, Self::fields()) == Some(rec.val_seq())
                    && rec.wf() && rec.present as int == spres(bytes@, e, Self::fields()),
                Err(_) => sdecode(bytes@, e, Self::fields()) is None,
            },
    {
        let ghost s = bytes@;
        let ghost fs = Self::fields();
        let mut off: usize = 0;
        let mut pres: usize = 0;
        let ghost mut acc = Seq::<Val>::empty();
        proof {
            lemma_read_begin(s, e, fs);
            lemma_pres_begin(s, e, fs);
        }
        let ghost off0 = off as int;
        let ghost p0 = pres as int;
        if off < bytes.len() {
            pres = 1;
        }
        let rv_num_bins = match rd_u2(bytes, &mut off, e, None) {
            Ok(v) => v,
            Err(er) => {
                proof {
                    lemma_read_step_none(s, e, fs, 0, fd(FieldKind::KU2, d_u2(None)), off0, acc);
                }
                return Err(er);
            },
        };
        proof {
            lemma_read_step(s, e, fs, 0, fd(FieldKind::KU2, d_u2(None)), off0, off as int, acc, Val::U2(rv_num_bins));
            lemma_pres_step(s, e, fs, 0, fd(FieldKind::KU2, d_u2(None)), off0, off as int, acc, Val::U2(rv_num_bins), p0,
                pres as int);
            acc = acc.push(Val::U2(rv_num_bins));
        }
        let ghost off0 = off as int;
        let ghost p0 = pres as int;
        if off < bytes.len() {
            pres = 2;
        }
        proof {
            assert(acc[0] == Val::U2(rv_num_bins));
        }
        let rv_rtst_bin = match rd_arr_u2(bytes, &mut off, e, rv_num_bins as usize) {
            Ok(v) => v,
            Err(er) => {
                proof {
                    lemma_read_step_arr_none(s, e, fs, 1, Elem::EU2, 0, off0, acc,
                        rv_num_bins as int);
                }
                return Err(er);
            },
        };
        proof {
            lemma_read_step_arr(s, e, fs, 1, Elem::EU2, 0, off0, off as int, acc,
                Val::ArrU2(rv_rtst_bin.deep_view()), rv_num_bins as int);
            lemma_pres_step_arr(s, e, fs, 1, Elem::EU2, 0, off0, off as int, acc,
                Val::ArrU2(rv_rtst_bin.deep_view()), rv_num_bins as int, p0, pres as int);
            acc = acc.push(Val::ArrU2(rv_rtst_bin.deep_view()));
        }
        let rec = RDR {
            num_bins: U2(rv_num_bins),
            rtst_bin: rv_rtst_bin,
            present: pres,
        };
        proof {
            lemma_read_end(s, e, fs, off as int, acc);
            lemma_pres_end(s, e, fs, off as int, acc, pres as int);
            assert(rec.val_seq() =~= acc);
            lemma_sdecode_match(s, e, fs);
        }
        Ok(rec)
    }

    /// Appends the payload encoding of the record to a buffer.
    pub fn write(&self, out: &mut Vec<u8>, e: Endian)
        requires
            self.wf(),
        ensures
            final(out)@ == old(out)@ + self.enc(e),
    {
        let ghost vs = self.val_seq();
        let ghost kk = self.present as int;
        let keep = self.present;
        proof {
            assert(0 <= kk <= 2);
            lemma_write_begin(e, vs, old(out)@);
        }
        let ghost mid = out@;
        if keep > 0 {
            wr_u2(out, e, self.num_bins.0);
            proof {
                assert(vs[0] == Val::U2(self.num_bins.0));
                lemma_write_step(e, vs, 0, old(out)@, mid, out@);
            }
        }
        proof {
            assert(out@ == old(out)@ + enc_vals(e, vs.take(
                if kk > 0 {
                    1int
                } else {
                    kk
                },
            )));
        }
        let ghost mid = out@;
        if keep > 1 {
            wr_arr_u2(out, e, &self.rtst_bin);
            proof {
                assert(vs[1] == Val::ArrU2(self.rtst_bin.deep_view()));
                lemma_write_step(e, vs, 1, old(out)@, mid, out@);
            }
        }
        proof {
            assert(out@ == old(out)@ + enc_vals(e, vs.take(
                if kk > 1 {
                    2int
                } else {
                    kk
                },
            )));
        }
        proof {
            assert(out@ == old(out)@ + enc_vals(e, vs.take(kk)));
        }
    }
}

/// SDR: the Site Description Record, with pair (1, 80).
#[derive(Clone, Debug, PartialEq, Eq)]
pub struct SDR {
    pub head_num: U1,
    pub site_grp: U1,
    pub site_cnt: U1,
    pub site_num: Vec<U1>,
    pub hand_typ: Cn,
    pub hand_id: Cn,
    pub card_typ: Cn,
    pub card_id: Cn,
    pub load_typ: Cn,
    pub load_id: Cn,
    pub dib_typ: Cn,
    pub dib_id: Cn,
    pub cabl_typ: Cn,
    pub cabl_id: Cn,
    pub cont_typ: Cn,
    pub cont_id: Cn,
    pub lasr_typ: Cn,
    pub lasr_id: Cn,
    pub extr_typ: Cn,
    pub extr_id: Cn,
    /// How many leading fields stood on the wire when the record
    /// was decoded; `write` puts exactly these back.
    pub present: usize,
}

impl SDR {
    /// The field layout of the record: wire kind, default, and for
    /// an array the position of its count field.
    pub open spec fn fields() -> Seq<FieldDef> {
        seq![
            fd(FieldKind::KU1, d_u1(None)),
            fd(FieldKind::KU1, d_u1(None)),
            fd(FieldKind::KU1, d_u1(None)),
            fd(FieldKind::KArr(Elem::EU1, 2), None),
            fd(FieldKind::KCn, d_cn(true)),
            fd(FieldKind::KCn, d_cn(true)),
            fd(FieldKind::KCn, d_cn(true)),
            fd(FieldKind::KCn, d_cn(true)),
            fd(FieldKind::KCn, d_cn(true)),
            fd(FieldKind::KCn, d_cn(true)),
            fd(FieldKind::KCn, d_cn(true)),
            fd(FieldKind::KCn, d_cn(true)),
            fd(FieldKind::KCn, d_cn(true)),
            fd(FieldKind::KCn, d_cn(true)),
            fd(FieldKind::KCn, d_cn(true)),
            fd(FieldKind::KCn, d_cn(true)),
            fd(FieldKind::KCn, d_cn(true)),
            fd(FieldKind::KCn, d_cn(true)),
            fd(FieldKind::KCn, d_cn(true)),
            fd(FieldKind::KCn, d_cn(true)),
        ]
    }

    /// The field values of the record, in declaration order.
    pub open spec fn val_seq(self) -> Seq<Val> {
        seq![
            Val::U1(self.head_num.0),
            Val::U1(self.site_grp.0),
            Val::U1(self.site_cnt.0),
            Val::ArrU1(self.site_num.deep_view()),
            Val::Cn(self.hand_typ.0@),
            Val::Cn(self.hand_id.0@),
            Val::Cn(self.card_typ.0@),
            Val::Cn(self.card_id.0@),
            Val::Cn(self.load_typ.0@),
            Val::Cn(self.load_id.0@),
            Val::Cn(self.dib_typ.0@),
            Val::Cn(self.dib_id.0@),
            Val::Cn(self.cabl_typ.0@),
            Val::Cn(self.cabl_id.0@),
            Val::Cn(self.cont_typ.0@),
            Val::Cn(self.cont_id.0@),
            Val::Cn(self.lasr_typ.0@),
            Val::Cn(self.lasr_id.0@),
            Val::Cn(self.extr_typ.0@),
            Val::Cn(self.extr_id.0@),
        ]
    }

    /// Well-formedness: every value fits its wire layout, arrays are
    /// as long as their count fields say or stand empty past the
    /// wire, and the on-the-wire count covers at most every field.
    pub open spec fn wf(self) -> bool {
        vals_match(Self::fields(), self.val_seq()) && self.present <= 20
    }

    /// Well-formedness is exactly conformance of the values to the
    /// layout, with the on-the-wire count in bounds.
    pub proof fn lemma_wf_is_match(self)
        ensures
            self.wf() == (vals_match(Self::fields(), self.val_seq()) && self.present
                <= Self::fields().len()),
    {
    }

    /// The payload bytes of the record under a byte order: the
    /// fields that stood on the wire, in declaration order; the
    /// absent tail stays off it.
    pub open spec fn enc(self, e: Endian) -> Seq<u8> {
        enc_vals(e, self.val_seq().take(self.present as int))
    }

    /// Every array that stood on the wire is as long as its count
    /// field says, so the record can be framed back onto it.
    pub open spec fn counts_ok(self) -> bool {
        counts_strict_upto(Self::fields(), self.val_seq(), self.present as int)
    }

    /// Every field past the on-the-wire count holds its declared
    /// default or is empty.
    pub open spec fn tail_absent(self) -> bool {
        forall|i: int|
            self.present <= i < Self::fields().len() ==> #[trigger] suppressible(
                Self::fields()[i],
                self.val_seq()[i],
            )
    }

    /// A record decoded off the wire is framed: its on-the-wire
    /// arrays match their counts and its absent fields hold their
    /// defaults.
    pub proof fn lemma_decoded_shape(self, s: Seq<u8>, e: Endian)
        requires
            sdecode(s, e, Self::fields()) == Some(self.val_seq()),
            self.present as int == spres(s, e, Self::fields()),
        ensures
            self.counts_ok(),
            self.tail_absent(),
    {
        lemma_sdecode_present(s, e, Self::fields());
    }

    /// Reads fields 0 .. 7 of the record.
    #[verifier::rlimit(100)]
    #[verifier::spinoff_prover]
    fn read_seg0(
        bytes: &[u8],
        off: &mut usize,
        pres: &mut usize,
        e: Endian,
        Ghost(acc0): Ghost<Seq<Val>>,
    ) -> (r: Result<(u8, u8, u8, Vec<U1>, Vec<u8>, Vec<u8>, Vec<u8>), StdfError>)
        requires
            *old(off) <= bytes@.len(),
            *old(pres) <= 0,
            acc0.len() == 0,
            sdecode(bytes@, e, Self::fields()) == sdecode_from(
                bytes@, e, Self::fields(), 0, *old(off) as int, acc0,
            ),
            spres_inv(bytes@, e, Self::fields(), 0, *old(off) as int, acc0,
                *old(pres) as int),
        ensures
            *final(off) <= bytes@.len(),
            *final(pres) <= 7,
            match r {
                Ok(t) => sdecode(bytes@, e, Self::fields()) == sdecode_from(
                    bytes@, e, Self::fields(), 7, *final(off) as int,
                    acc0.push(Val::U1(t.0)).push(Val::U1(t.1)).push(Val::U1(t.2)).push(Val::ArrU1(t.3.deep_view())).push(Val::Cn(t.4@)).push(Val::Cn(t.5@)).push(Val::Cn(t.6@)),
                ) && spres_inv(bytes@, e, Self::fields(), 7, *final(off) as int,
                    acc0.push(Val::U1(t.0)).push(Val::U1(t.1)).push(Val::U1(t.2)).push(Val::ArrU1(t.3.deep_view())).push(Val::Cn(t.4@)).push(Val::Cn(t.5@)).push(Val::Cn(t.6@)),
                    *final(pres) as int,
                ),
                Err(_) => sdecode(bytes@, e, Self::fields()) is None,
            },
    {
        let ghost s = bytes@;
        let ghost fs = Self::fields();
        let ghost mut acc = acc0;
        let ghost off0 = *off as int;
        let ghost p0 = *pres as int;
        if *off < bytes.len() {
            *pres = 1;
        }
        let rv_head_num = match rd_u1(bytes, off, e, None) {
            Ok(v) => v,
            Err(er) => {
                proof {
                    lemma_read_step_none(s, e, fs, 0, fd(FieldKind::KU1, d_u1(None)), off0, acc);
                }
                return Err(er);
            },
        };
        proof {
            lemma_read_step(s, e, fs, 0, fd(FieldKind::KU1, d_u1(None)), off0, *off as int, acc, Val::U1(rv_head_num));
            lemma_pres_step(s, e, fs, 0, fd(FieldKind::KU1, d_u1(None)), off0, *off as int, acc, Val::U1(rv_head_num), p0,
                *pres as int);
            acc = acc.push(Val::U1(rv_head_num));
        }
        let ghost off0 = *off as int;
        let ghost p0 = *pres as int;
        if *off < bytes.len() {
            *pres = 2;
        }
        let rv_site_grp = match rd_u1(bytes, off, e, None) {
            Ok(v) => v,
            Err(er) => {
                proof {
                    lemma_read_step_none(s, e, fs, 1, fd(FieldKind::KU1, d_u1(None)), off0, acc);
                }
                return Err(er);
            },
        };
        proof {
            lemma_read_step(s, e, fs, 1, fd(FieldKind::KU1, d_u1(None)), off0, *off as int, acc, Val::U1(rv_site_grp));
            lemma_pres_step(s, e, fs, 1, fd(FieldKind::KU1, d_u1(None)), off0, *off as int, acc, Val::U1(rv_site_grp), p0,
                *pres as int);
            acc = acc.push(Val::U1(rv_site_grp));
        }
        let ghost off0 = *off as int;
        let ghost p0 = *pres as int;
        if *off < bytes.len() {
            *pres = 3;
        }
        let rv_site_cnt = match rd_u1(bytes, off, e, None) {
            Ok(v) => v,
            Err(er) => {
                proof {
                    lemma_read_step_none(s, e, fs, 2, fd(FieldKind::KU1, d_u1(None)), off0, acc);
                }
                return Err(er);
            },
        };
        proof {
            lemma_read_step(s, e, fs, 2, fd(FieldKind::KU1, d_u1(None)), off0, *off as int, acc, Val::U1(rv_site_cnt));
            lemma_pres_step(s, e, fs, 2, fd(FieldKind::KU1, d_u1(None)), off0, *off as int, acc, Val::U1(rv_site_cnt), p0,
                *pres as int);
            acc = acc.push(Val::U1(rv_site_cnt));
        }
        let ghost off0 = *off as int;
        let ghost p0 = *pres as int;
        if *off < bytes.len() {
            *pres = 4;
        }
        proof {
            assert(acc[2] == Val::U1(rv_site_cnt));
        }
        let rv_site_num = match rd_arr_u1(bytes, off, e, rv_site_cnt as usize) {
            Ok(v) => v,
            Err(er) => {
                proof {
                    lemma_read_step_arr_none(s, e, fs, 3, Elem::EU1, 2, off0, acc,
                        rv_site_cnt as int);
                }
                return Err(er);
            },
        };
        proof {
            lemma_read_step_arr(s, e, fs, 3, Elem::EU1, 2, off0, *off as int, acc,
                Val::ArrU1(rv_site_num.deep_view()), rv_site_cnt as int);
            lemma_pres_step_arr(s, e, fs, 3, Elem::EU1, 2, off0, *off as int, acc,
                Val::ArrU1(rv_site_num.deep_view()), rv_site_cnt as int, p0, *pres as int);
            acc = acc.push(Val::ArrU1(rv_site_num.deep_view()));
        }
        let ghost off0 = *off as int;
        let ghost p0 = *pres as int;
        if *off < bytes.len() {
            *pres = 5;
        }
        let rv_hand_typ = match rd_cn(bytes, off, e, true) {
            Ok(v) => v,
            Err(er) => {
                proof {
                    lemma_read_step_none(s, e, fs, 4, fd(FieldKind::KCn, d_cn(true)), off0, acc);
                }
                return Err(er);
            },
        };
        proof {
            lemma_read_step(s, e, fs, 4, fd(FieldKind::KCn, d_cn(true)), off0, *off as int, acc, Val::Cn(rv_hand_typ@));
            lemma_pres_step(s, e, fs, 4, fd(FieldKind::KCn, d_cn(true)), off0, *off as int, acc, Val::Cn(rv_hand_typ@), p0,
                *pres as int);
            acc = acc.push(Val::Cn(rv_hand_typ@));
        }
        let ghost off0 = *off as int;
        let ghost p0 = *pres as int;
        if *off < bytes.len() {
            *pres = 6;
        }
        let rv_hand_id = match rd_cn(bytes, off, e, true) {
            Ok(v) => v,
            Err(er) => {
                proof {
                    lemma_read_step_none(s, e, fs, 5, fd(FieldKind::KCn, d_cn(true)), off0, acc);
                }
                return Err(er);
            },
        };
        proof {
            lemma_read_step(s, e, fs, 5, fd(FieldKind::KCn, d_cn(true)), off0, *off as int, acc, Val::Cn(rv_hand_id@));
            lemma_pres_step(s, e, fs, 5, fd(FieldKind::KCn, d_cn(true)), off0, *off as int, acc, Val::Cn(rv_hand_id@), p0,
                *pres as int);
            acc = acc.push(Val::Cn(rv_hand_id@));
        }
        let ghost off0 = *off as int;
        let ghost p0 = *pres as int;
        if *off < bytes.len() {
            *pres = 7;
        }
        let rv_card_typ = match rd_cn(bytes, off, e, true) {
            Ok(v) => v,
            Err(er) => {
                proof {
                    lemma_read_step_none(s, e, fs, 6, fd(FieldKind::KCn, d_cn(true)), off0, acc);
                }
                return Err(er);
            },
        };
        proof {
            lemma_read_step(s, e, fs, 6, fd(FieldKind::KCn, d_cn(true)), off0, *off as int, acc, Val::Cn(rv_card_typ@));
            lemma_pres_step(s, e, fs, 6, fd(FieldKind::KCn, d_cn(true)), off0, *off as int, acc, Val::Cn(rv_card_typ@), p0,
                *pres as int);
            acc = acc.push(Val::Cn(rv_card_typ@));
        }
        Ok((rv_head_num, rv_site_grp, rv_site_cnt, rv_site_num, rv_hand_typ, rv_hand_id, rv_card_typ))
    }

    /// Reads fields 7 .. 14 of the record.
    #[verifier::rlimit(100)]
    #[verifier::spinoff_prover]
    fn read_seg1(
        bytes: &[u8],
        off: &mut usize,
        pres: &mut usize,
        e: Endian,
        Ghost(acc0): Ghost<Seq<Val>>,
    ) -> (r: Result<(Vec<u8>, Vec<u8>, Vec<u8>, Vec<u8>, Vec<u8>, Vec<u8>, Vec<u8>), StdfError>)
        requires
            *old(off) <= bytes@.len(),
            *old(pres) <= 7,
            acc0.len() == 7,
            sdecode(bytes@, e, Self::fields()) == sdecode_from(
                bytes@, e, Self::fields(), 7, *old(off) as int, acc0,
            ),
            spres_inv(bytes@, e, Self::fields(), 7, *old(off) as int, acc0,
                *old(pres) as int),
        ensures
            *final(off) <= bytes@.len(),
            *final(pres) <= 14,
            match r {
                Ok(t) => sdecode(bytes@, e, Self::fields()) == sdecode_from(
                    bytes@, e, Self::fields(), 14, *final(off) as int,
                    acc0.push(Val::Cn(t.0@)).push(Val::Cn(t.1@)).push(Val::Cn(t.2@)).push(Val::Cn(t.3@)).push(Val::Cn(t.4@)).push(Val::Cn(t.5@)).push(Val::Cn(t.6@)),
                ) && spres_inv(bytes@, e, Self::fields(), 14, *final(off) as int,
                    acc0.push(Val::Cn(t.0@)).push(Val::Cn(t.1@)).push(Val::Cn(t.2@)).push(Val::Cn(t.3@)).push(Val::Cn(t.4@)).push(Val::Cn(t.5@)).push(Val::Cn(t.6@)),
                    *final(pres) as int,
                ),
                Err(_) => sdecode(bytes@, e, Self::fields()) is None,
            },
    {
        let ghost s = bytes@;
        let ghost fs = Self::fields();
        let ghost mut acc = acc0;
        let ghost off0 = *off as int;
        let ghost p0 = *pres as int;
        if *off < bytes.len() {
            *pres = 8;
        }
        let rv_card_id = match rd_cn(bytes, off, e, true) {
            Ok(v) => v,
            Err(er) => {
                proof {
                    lemma_read_step_none(s, e, fs, 7, fd(FieldKind::KCn, d_cn(true)), off0, acc);
                }
                return Err(er);
            },
        };
        proof {
            lemma_read_step(s, e, fs, 7, fd(FieldKind::KCn, d_cn(true)), off0, *off as int, acc, Val::Cn(rv_card_id@));
            lemma_pres_step(s, e, fs, 7, fd(FieldKind::KCn, d_cn(true)), off0, *off as int, acc, Val::Cn(rv_card_id@), p0,
                *pres as int);
            acc = acc.push(Val::Cn(rv_card_id@));
        }
        let ghost off0 = *off as int;
        let ghost p0 = *pres as int;
        if *off < bytes.len() {
            *pres = 9;
        }
        let rv_load_typ = match rd_cn(bytes, off, e, true) {
            Ok(v) => v,
            Err(er) => {
                proof {
                    lemma_read_step_none(s, e, fs, 8, fd(FieldKind::KCn, d_cn(true)), off0, acc);
                }
                return Err(er);
            },
        };
        proof {
            lemma_read_step(s, e, fs, 8, fd(FieldKind::KCn, d_cn(true)), off0, *off as int, acc, Val::Cn(rv_load_typ@));
            lemma_pres_step(s, e, fs, 8, fd(FieldKind::KCn, d_cn(true)), off0, *off as int, acc, Val::Cn(rv_load_typ@), p0,
                *pres as int);
            acc = acc.push(Val::Cn(rv_load_typ@));
        }
        let ghost off0 = *off as int;
        let ghost p0 = *pres as int;
        if *off < bytes.len() {
            *pres = 10;
        }
        let rv_load_id = match rd_cn(bytes, off, e, true) {
            Ok(v) => v,
            Err(er) => {
                proof {
                    lemma_read_step_none(s, e, fs, 9, fd(FieldKind::KCn, d_cn(true)), off0, acc);
                }
                return Err(er);
            },
        };
        proof {
            lemma_read_step(s, e, fs, 9, fd(FieldKind::KCn, d_cn(true)), off0, *off as int, acc, Val::Cn(rv_load_id@));
            lemma_pres_step(s, e, fs, 9, fd(FieldKind::KCn, d_cn(true)), off0, *off as int, acc, Val::Cn(rv_load_id@), p0,
                *pres as int);
            acc = acc.push(Val::Cn(rv_load_id@));
        }
        let ghost off0 = *off as int;
        let ghost p0 = *pres as int;
        if *off < bytes.len() {
            *pres = 11;
        }
        let rv_dib_typ = match rd_cn(bytes, off, e, true) {
            Ok(v) => v,
            Err(er) => {
                proof {
                    lemma_read_step_none(s, e, fs, 10, fd(FieldKind::KCn, d_cn(true)), off0, acc);
                }
                return Err(er);
            },
        };
        proof {
            lemma_read_step(s, e, fs, 10, fd(FieldKind::KCn, d_cn(true)), off0, *off as int, acc, Val::Cn(rv_dib_typ@));
            lemma_pres_step(s, e, fs, 10, fd(FieldKind::KCn, d_cn(true)), off0, *off as int, acc, Val::Cn(rv_dib_typ@), p0,
                *pres as int);
            acc = acc.push(Val::Cn(rv_dib_typ@));
        }
        let ghost off0 = *off as int;
        let ghost p0 = *pres as int;
        if *off < bytes.len() {
            *pres = 12;
        }
        let rv_dib_id = match rd_cn(bytes, off, e, true) {
            Ok(v) => v,
            Err(er) => {
                proof {
                    lemma_read_step_none(s, e, fs, 11, fd(FieldKind::KCn, d_cn(true)), off0, acc);
                }
                return Err(er);
            },
        };
        proof {
            lemma_read_step(s, e, fs, 11, fd(FieldKind::KCn, d_cn(true)), off0, *off as int, acc, Val::Cn(rv_dib_id@));
            lemma_pres_step(s, e, fs, 11, fd(FieldKind::KCn, d_cn(true)), off0, *off as int, acc, Val::Cn(rv_dib_id@), p0,
                *pres as int);
            acc = acc.push(Val::Cn(rv_dib_id@));
        }
        let ghost off0 = *off as int;
        let ghost p0 = *pres as int;
        if *off < bytes.len() {
            *pres = 13;
        }
        let rv_cabl_typ = match rd_cn(bytes, off, e, true) {
            Ok(v) => v,
            Err(er) => {
                proof {
                    lemma_read_step_none(s, e, fs, 12, fd(FieldKind::KCn, d_cn(true)), off0, acc);
                }
                return Err(er);
            },
        };
        proof {
            lemma_read_step(s, e, fs, 12, fd(FieldKind::KCn, d_cn(true)), off0, *off as int, acc, Val::Cn(rv_cabl_typ@));
            lemma_pres_step(s, e, fs, 12, fd(FieldKind::KCn, d_cn(true)), off0, *off as int, acc, Val::Cn(rv_cabl_typ@), p0,
                *pres as int);
            acc = acc.push(Val::Cn(rv_cabl_typ@));
        }
        let ghost off0 = *off as int;
        let ghost p0 = *pres as int;
        if *off < bytes.len() {
            *pres = 14;
        }
        let rv_cabl_id = match rd_cn(bytes, off, e, true) {
            Ok(v) => v,
            Err(er) => {
                proof {
                    lemma_read_step_none(s, e, fs, 13, fd(FieldKind::KCn, d_cn(true)), off0, acc);
                }
                return Err(er);
            },
        };
        proof {
            lemma_read_step(s, e, fs, 13, fd(FieldKind::KCn, d_cn(true)), off0, *off as int, acc, Val::Cn(rv_cabl_id@));
            lemma_pres_step(s, e, fs, 13, fd(FieldKind::KCn, d_cn(true)), off0, *off as int, acc, Val::Cn(rv_cabl_id@), p0,
                *pres as int);
            acc = acc.push(Val::Cn(rv_cabl_id@));
        }
        Ok((rv_card_id, rv_load_typ, rv_load_id, rv_dib_typ, rv_dib_id, rv_cabl_typ, rv_cabl_id))
    }

    /// Reads fields 14 .. 20 of the record.
    #[verifier::rlimit(100)]
    #[verifier::spinoff_prover]
    fn read_seg2(
        bytes: &[u8],
        off: &mut usize,
        pres: &mut usize,
        e: Endian,
        Ghost(acc0): Ghost<Seq<Val>>,
    ) -> (r: Result<(Vec<u8>, Vec<u8>, Vec<u8>, Vec<u8>, Vec<u8>, Vec<u8>), StdfError>)
        requires
            *old(off) <= bytes@.len(),
            *old(pres) <= 14,
            acc0.len() == 14,
            sdecode(bytes@, e, Self::fields()) == sdecode_from(
                bytes@, e, Self::fields(), 14, *old(off) as int, acc0,
            ),
            spres_inv(bytes@, e, Self::fields(), 14, *old(off) as int, acc0,
                *old(pres) as int),
        ensures
            *final(off) <= bytes@.len(),
            *final(pres) <= 20,
            match r {
                Ok(t) => sdecode(bytes@, e, Self::fields()) == sdecode_from(
                    bytes@, e, Self::fields(), 20, *final(off) as int,
                    acc0.push(Val::Cn(t.0@)).push(Val::Cn(t.1@)).push(Val::Cn(t.2@)).push(Val::Cn(t.3@)).push(Val::Cn(t.4@)).push(Val::Cn(t.5@)),
                ) && spres_inv(bytes@, e, Self::fields(), 20, *final(off) as int,
                    acc0.push(Val::Cn(t.0@)).push(Val::Cn(t.1@)).push(Val::Cn(t.2@)).push(Val::Cn(t.3@)).push(Val::Cn(t.4@)).push(Val::Cn(t.5@)),
                    *final(pres) as int,
                ),
                Err(_) => sdecode(bytes@, e, Self::fields()) is None,
            },
    {
        let ghost s = bytes@;
        let ghost fs = Self::fields();
        let ghost mut acc = acc0;
        let ghost off0 = *off as int;
        let ghost p0 = *pres as int;
        if *off < bytes.len() {
            *pres = 15;
        }
        let rv_cont_typ = match rd_cn(bytes, off, e, true) {
            Ok(v) => v,
            Err(er) => {
                proof {
                    lemma_read_step_none(s, e, fs, 14, fd(FieldKind::KCn, d_cn(true)), off0, acc);
                }
                return Err(er);
            },
        };
        proof {
            lemma_read_step(s, e, fs, 14, fd(FieldKind::KCn, d_cn(true)), off0, *off as int, acc, Val::Cn(rv_cont_typ@));
            lemma_pres_step(s, e, fs, 14, fd(FieldKind::KCn, d_cn(true)), off0, *off as int, acc, Val::Cn(rv_cont_typ@), p0,
                *pres as int);
            acc = acc.push(Val::Cn(rv_cont_typ@));
        }
        let ghost off0 = *off as int;
        let ghost p0 = *pres as int;
        if *off < bytes.len() {
            *pres = 16;
        }
        let rv_cont_id = match rd_cn(bytes, off, e, true) {
            Ok(v) => v,
            Err(er) => {
                proof {
                    lemma_read_step_none(s, e, fs, 15, fd(FieldKind::KCn, d_cn(true)), off0, acc);
                }
                return Err(er);
            },
        };
        proof {
            lemma_read_step(s, e, fs, 15, fd(FieldKind::KCn, d_cn(true)), off0, *off as int, acc, Val::Cn(rv_cont_id@));
            lemma_pres_step(s, e, fs, 15, fd(FieldKind::KCn, d_cn(true)), off0, *off as int, acc, Val::Cn(rv_cont_id@), p0,
                *pres as int);
            acc = acc.push(Val::Cn(rv_cont_id@));
        }
        let ghost off0 = *off as int;
        let ghost p0 = *pres as int;
        if *off < bytes.len() {
            *pres = 17;
        }
        let rv_lasr_typ = match rd_cn(bytes, off, e, true) {
            Ok(v) => v,
            Err(er) => {
                proof {
                    lemma_read_step_none(s, e, fs, 16, fd(FieldKind::KCn, d_cn(true)), off0, acc);
                }
                return Err(er);
            },
        };
        proof {
            lemma_read_step(s, e, fs, 16, fd(FieldKind::KCn, d_cn(true)), off0, *off as int, acc, Val::Cn(rv_lasr_typ@));
            lemma_pres_step(s, e, fs, 16, fd(FieldKind::KCn, d_cn(true)), off0, *off as int, acc, Val::Cn(rv_lasr_typ@), p0,
                *pres as int);
            acc = acc.push(Val::Cn(rv_lasr_typ@));
        }
        let ghost off0 = *off as int;
        let ghost p0 = *pres as int;
        if *off < bytes.len() {
            *pres = 18;
        }
        let rv_lasr_id = match rd_cn(bytes, off, e, true) {
            Ok(v) => v,
            Err(er) => {
                proof {
                    lemma_read_step_none(s, e, fs, 17, fd(FieldKind::KCn, d_cn(true)), off0, acc);
                }
                return Err(er);
            },
        };
        proof {
            lemma_read_step(s, e, fs, 17, fd(FieldKind::KCn, d_cn(true)), off0, *off as int, acc, Val::Cn(rv_lasr_id@));
            lemma_pres_step(s, e, fs, 17, fd(FieldKind::KCn, d_cn(true)), off0, *off as int, acc, Val::Cn(rv_lasr_id@), p0,
                *pres as int);
            acc = acc.push(Val::Cn(rv_lasr_id@));
        }
        let ghost off0 = *off as int;
        let ghost p0 = *pres as int;
        if *off < bytes.len() {
            *pres = 19;
        }
        let rv_extr_typ = match rd_cn(bytes, off, e, true) {
            Ok(v) => v,
            Err(er) => {
                proof {
                    lemma_read_step_none(s, e, fs, 18, fd(FieldKind::KCn, d_cn(true)), off0, acc);
                }
                return Err(er);
            },
        };
        proof {
            lemma_read_step(s, e, fs, 18, fd(FieldKind::KCn, d_cn(true)), off0, *off as int, acc, Val::Cn(rv_extr_typ@));
            lemma_pres_step(s, e, fs, 18, fd(FieldKind::KCn, d_cn(true)), off0, *off as int, acc, Val::Cn(rv_extr_typ@), p0,
                *pres as int);
            acc = acc.push(Val::Cn(rv_extr_typ@));
        }
        let ghost off0 = *off as int;
        let ghost p0 = *pres as int;
        if *off < bytes.len() {
            *pres = 20;
        }
        let rv_extr_id = match rd_cn(bytes, off, e, true) {
            Ok(v) => v,
            Err(er) => {
                proof {
                    lemma_read_step_none(s, e, fs, 19, fd(FieldKind::KCn, d_cn(true)), off0, acc);
                }
                return Err(er);
            },
        };
        proof {
            lemma_read_step(s, e, fs, 19, fd(FieldKind::KCn, d_cn(true)), off0, *off as int, acc, Val::Cn(rv_extr_id@));
            lemma_pres_step(s, e, fs, 19, fd(FieldKind::KCn, d_cn(true)), off0, *off as int, acc, Val::Cn(rv_extr_id@), p0,
                *pres as int);
            acc = acc.push(Val::Cn(rv_extr_id@));
        }
        Ok((rv_cont_typ, rv_cont_id, rv_lasr_typ, rv_lasr_id, rv_extr_typ, rv_extr_id))
    }

    /// Decodes a record payload: fields in declaration order, trailing
    /// absent fields at their defaults.
    #[verifier::rlimit(100)]
    #[verifier::spinoff_prover]
    pub fn read(bytes: &[u8], e: Endian) -> (r: Result<SDR, StdfError>)
        ensures
            match r {
                Ok(rec) => sdecode(bytes@, e, Self::fields()) == Some(rec.val_seq())
                    && rec.wf() && rec.present as int == spres(bytes@, e, Self::fields()),
                Err(_) => sdecode(bytes@, e, Self::fields()) is None,
            },
    {
        let ghost s = bytes@;
        let ghost fs = Self::fields();
        let mut off: usize = 0;
        let mut pres: usize = 0;
        proof {
            lemma_read_begin(s, e, fs);
            lemma_pres_begin(s, e, fs);
        }
        let ghost acc_0 = Seq::<Val>::empty();
        let t0 = match Self::read_seg0(bytes, &mut off, &mut pres, e, Ghost(acc_0)) {
            Ok(t) => t,
            Err(er) => {
                return Err(er);
            },
        };
        let ghost acc_1 = acc_0.push(Val::U1(t0.0)).push(Val::U1(t0.1)).push(Val::U1(t0.2)).push(Val::ArrU1(t0.3.deep_view())).push(Val::Cn(t0.4@)).push(Val::Cn(t0.5@)).push(Val::Cn(t0.6@));
        let t1 = match Self::read_seg1(bytes, &mut off, &mut pres, e, Ghost(acc_1)) {
            Ok(t) => t,
            Err(er) => {
                return Err(er);
            },
        };
        let ghost acc_2 = acc_1.push(Val::Cn(t1.0@)).push(Val::Cn(t1.1@)).push(Val::Cn(t1.2@)).push(Val::Cn(t1.3@)).push(Val::Cn(t1.4@)).push(Val::Cn(t1.5@)).push(Val::Cn(t1.6@));
        let t2 = match Self::read_seg2(bytes, &mut off, &mut pres, e, Ghost(acc_2)) {
            Ok(t) => t,
            Err(er) => {
                return Err(er);
            },
        };
        let ghost acc_3 = acc_2.push(Val::Cn(t2.0@)).push(Val::Cn(t2.1@)).push(Val::Cn(t2.2@)).push(Val::Cn(t2.3@)).push(Val::Cn(t2.4@)).push(Val::Cn(t2.5@));
        let rec = SDR {
            head_num: U1(t0.0),
            site_grp: U1(t0.1),
            site_cnt: U1(t0.2),
            site_num: t0.3,
            hand_typ: Cn(t0.4),
            hand_id: Cn(t0.5),
            card_typ: Cn(t0.6),
            card_id: Cn(t1.0),
            load_typ: Cn(t1.1),
            load_id: Cn(t1.2),
            dib_typ: Cn(t1.3),
            dib_id: Cn(t1.4),
            cabl_typ: Cn(t1.5),
            cabl_id: Cn(t1.6),
            cont_typ: Cn(t2.0),
            cont_id: Cn(t2.1),
            lasr_typ: Cn(t2.2),
            lasr_id: Cn(t2.3),
            extr_typ: Cn(t2.4),
            extr_id: Cn(t2.5),
            present: pres,
        };
        proof {
            lemma_read_end(s, e, fs, off as int, acc_3);
            lemma_pres_end(s, e, fs, off as int, acc_3, pres as int);
            Self::lemma_val_seq_unfold(rec);
            lemma_sdecode_match(s, e, fs);
        }
        Ok(rec)
    }

    /// The field values, written out as the pushes the decoder makes.
    #[verifier::rlimit(100)]
    #[verifier::spinoff_prover]
    proof fn lemma_val_seq_unfold(rec: SDR)
        ensures
            rec.val_seq() == Seq::<Val>::empty()
                .push(Val::U1(rec.head_num.0))
                .push(Val::U1(rec.site_grp.0))
                .push(Val::U1(rec.site_cnt.0))
                .push(Val::ArrU1(rec.site_num.deep_view()))
                .push(Val::Cn(rec.hand_typ.0@))
                .push(Val::Cn(rec.hand_id.0@))
                .push(Val::Cn(rec.card_typ.0@))
                .push(Val::Cn(rec.card_id.0@))
                .push(Val::Cn(rec.load_typ.0@))
                .push(Val::Cn(rec.load_id.0@))
                .push(Val::Cn(rec.dib_typ.0@))
                .push(Val::Cn(rec.dib_id.0@))
                .push(Val::Cn(rec.cabl_typ.0@))
                .push(Val::Cn(rec.cabl_id.0@))
                .push(Val::Cn(rec.cont_typ.0@))
                .push(Val::Cn(rec.cont_id.0@))
                .push(Val::Cn(rec.lasr_typ.0@))
                .push(Val::Cn(rec.lasr_id.0@))
                .push(Val::Cn(rec.extr_typ.0@))
                .push(Val::Cn(rec.extr_id.0@))
            ,
    {
        assert(rec.val_seq() =~= Seq::<Val>::empty()
            .push(Val::U1(rec.head_num.0))
            .push(Val::U1(rec.site_grp.0))
            .push(Val::U1(rec.site_cnt.0))
            .push(Val::ArrU1(rec.site_num.deep_view()))
            .push(Val::Cn(rec.hand_typ.0@))
            .push(Val::Cn(rec.hand_id.0@))
            .push(Val::Cn(rec.card_typ.0@))
            .push(Val::Cn(rec.card_id.0@))
            .push(Val::Cn(rec.load_typ.0@))
            .push(Val::Cn(rec.load_id.0@))
            .push(Val::Cn(rec.dib_typ.0@))
            .push(Val::Cn(rec.dib_id.0@))
            .push(Val::Cn(rec.cabl_typ.0@))
            .push(Val::Cn(rec.cabl_id.0@))
            .push(Val::Cn(rec.cont_typ.0@))
            .push(Val::Cn(rec.cont_id.0@))
            .push(Val::Cn(rec.lasr_typ.0@))
            .push(Val::Cn(rec.lasr_id.0@))
            .push(Val::Cn(rec.extr_typ.0@))
            .push(Val::Cn(rec.extr_id.0@))
        );
    }

    /// Appends the payload encoding of the record to a buffer.
    #[verifier::rlimit(100)]
    #[verifier::spinoff_prover]
    pub fn write(&self, out: &mut Vec<u8>, e: Endian)
        requires
            self.wf(),
        ensures
            final(out)@ == old(out)@ + self.enc(e),
    {
        let ghost vs = self.val_seq();
        let ghost kk = self.present as int;
        let keep = self.present;
        proof {
            assert(0 <= kk <= 20);
            lemma_write_begin(e, vs, old(out)@);
        }
        let ghost mid = out@;
        if keep > 0 {
            wr_u1(out, self.head_num.0);
            proof {
                assert(vs[0] == Val::U1(self.head_num.0));
                lemma_write_step(e, vs, 0, old(out)@, mid, out@);
            }
        }
        proof {
            assert(out@ == old(out)@ + enc_vals(e, vs.take(
                if kk > 0 {
                    1int
                } else {
                    kk
                },
            )));
        }
        let ghost mid = out@;
        if keep > 1 {
            wr_u1(out, self.site_grp.0);
            proof {
                assert(vs[1] == Val::U1(self.site_grp.0));
                lemma_write_step(e, vs, 1, old(out)@, mid, out@);
            }
        }
        proof {
            assert(out@ == old(out)@ + enc_vals(e, vs.take(
                if kk > 1 {
                    2int
                } else {
                    kk
                },
            )));
        }
        let ghost mid = out@;
        if keep > 2 {
            wr_u1(out, self.site_cnt.0);
            proof {
                assert(vs[2] == Val::U1(self.site_cnt.0));
                lemma_write_step(e, vs, 2, old(out)@, mid, out@);
            }
        }
        proof {
            assert(out@ == old(out)@ + enc_vals(e, vs.take(
                if kk > 2 {
                    3int
                } else {
                    kk
                },
            )));
        }
        let ghost mid = out@;
        if keep > 3 {
            wr_arr_u1(out, &self.site_num);
            proof {
                assert(vs[3] == Val::ArrU1(self.site_num.deep_view()));
                lemma_write_step(e, vs, 3, old(out)@, mid, out@);
            }
        }
        proof {
            assert(out@ == old(out)@ + enc_vals(e, vs.take(
                if kk > 3 {
                    4int
                } else {
                    kk
                },
            )));
        }
        let ghost mid = out@;
        if keep > 4 {
            proof {
                assert(val_matches_at(Self::fields(), vs, 4));
            }
            wr_cn(out, self.hand_typ.0.as_slice());
            proof {
                assert(vs[4] == Val::Cn(self.hand_typ.0@));
                lemma_write_step(e, vs, 4, old(out)@, mid, out@);
            }
        }
        proof {
            assert(out@ == old(out)@ + enc_vals(e, vs.take(
                if kk > 4 {
                    5int
                } else {
                    kk
                },
            )));
        }
        let ghost mid = out@;
        if keep > 5 {
            proof {
                assert(val_matches_at(Self::fields(), vs, 5));
            }
            wr_cn(out, self.hand_id.0.as_slice());
            proof {
                assert(vs[5] == Val::Cn(self.hand_id.0@));
                lemma_write_step(e, vs, 5, old(out)@, mid, out@);
            }
        }
        proof {
            assert(out@ == old(out)@ + enc_vals(e, vs.take(
                if kk > 5 {
                    6int
                } else {
                    kk
                },
            )));
        }
        let ghost mid = out@;
        if keep > 6 {
            proof {
                assert(val_matches_at(Self::fields(), vs, 6));
            }
            wr_cn(out, self.card_typ.0.as_slice());
            proof {
                assert(vs[6] == Val::Cn(self.card_typ.0@));
                lemma_write_step(e, vs, 6, old(out)@, mid, out@);
            }
        }
        proof {
            assert(out@ == old(out)@ + enc_vals(e, vs.take(
                if kk > 6 {
                    7int
                } else {
                    kk
                },
            )));
        }
        let ghost mid = out@;
        if keep > 7 {
            proof {
                assert(val_matches_at(Self::fields(), vs, 7));
            }
            wr_cn(out, self.card_id.0.as_slice());
            proof {
                assert(vs[7] == Val::Cn(self.card_id.0@));
                lemma_write_step(e, vs, 7, old(out)@, mid, out@);
            }
        }
        proof {
            assert(out@ == old(out)@ + enc_vals(e, vs.take(
                if kk > 7 {
                    8int
                } else {
                    kk
                },
            )));
        }
        let ghost mid = out@;
        if keep > 8 {
            proof {
                assert(val_matches_at(Self::fields(), vs, 8));
            }
            wr_cn(out, self.load_typ.0.as_slice());
            proof {
                assert(vs[8] == Val::Cn(self.load_typ.0@));
                lemma_write_step(e, vs, 8, old(out)@, mid, out@);
            }
        }
        proof {
            assert(out@ == old(out)@ + enc_vals(e, vs.take(
                if kk > 8 {
                    9int
                } else {
                    kk
                },
            )));
        }
        let ghost mid = out@;
        if keep > 9 {
            proof {
                assert(val_matches_at(Self::fields(), vs, 9));
            }
            wr_cn(out, self.load_id.0.as_slice());
            proof {
                assert(vs[9] == Val::Cn(self.load_id.0@));
                lemma_write_step(e, vs, 9, old(out)@, mid, out@);
            }
        }
        proof {
            assert(out@ == old(out)@ + enc_vals(e, vs.take(
                if kk > 9 {
                    10int
                } else {
                    kk
                },
            )));
        }
        let ghost mid = out@;
        if keep > 10 {
            proof {
                assert(val_matches_at(Self::fields(), vs, 10));
            }
            wr_cn(out, self.dib_typ.0.as_slice());
            proof {
                assert(vs[10] == Val::Cn(self.dib_typ.0@));
                lemma_write_step(e, vs, 10, old(out)@, mid, out@);
            }
        }
        proof {
            assert(out@ == old(out)@ + enc_vals(e, vs.take(
                if kk > 10 {
                    11int
                } else {
                    kk
                },
            )));
        }
        let ghost mid = out@;
        if keep > 11 {
            proof {
                assert(val_matches_at(Self::fields(), vs, 11));
            }
            wr_cn(out, self.dib_id.0.as_slice());
            proof {
                assert(vs[11] == Val::Cn(self.dib_id.0@));
                lemma_write_step(e, vs, 11, old(out)@, mid, out@);
            }
        }
        proof {
            assert(out@ == old(out)@ + enc_vals(e, vs.take(
                if kk > 11 {
                    12int
                } else {
                    kk
                },
            )));
        }
        let ghost mid = out@;
        if keep > 12 {
            proof {
                assert(val_matches_at(Self::fields(), vs, 12));
            }
            wr_cn(out, self.cabl_typ.0.as_slice());
            proof {
                assert(vs[12] == Val::Cn(self.cabl_typ.0@));
                lemma_write_step(e, vs, 12, old(out)@, mid, out@);
            }
        }
        proof {
            assert(out@ == old(out)@ + enc_vals(e, vs.take(
                if kk > 12 {
                    13int
                } else {
                    kk
                },
            )));
        }
        let ghost mid = out@;
        if keep > 13 {
            proof {
                assert(val_matches_at(Self::fields(), vs, 13));
            }
            wr_cn(out, self.cabl_id.0.as_slice());
            proof {
                assert(vs[13] == Val::Cn(self.cabl_id.0@));
                lemma_write_step(e, vs, 13, old(out)@, mid, out@);
            }
        }
        proof {
            assert(out@ == old(out)@ + enc_vals(e, vs.take(
                if kk > 13 {
                    14int
                } else {
                    kk
                },
            )));
        }
        let ghost mid = out@;
        if keep > 14 {
            proof {
                assert(val_matches_at(Self::fields(), vs, 14));
            }
            wr_cn(out, self.cont_typ.0.as_slice());
            proof {
                assert(vs[14] == Val::Cn(self.cont_typ.0@));
                lemma_write_step(e, vs, 14, old(out)@, mid, out@);
            }
        }
        proof {
            assert(out@ == old(out)@ + enc_vals(e, vs.take(
                if kk > 14 {
                    15int
                } else {
                    kk
                },
            )));
        }
        let ghost mid = out@;
        if keep > 15 {
            proof {
                assert(val_matches_at(Self::fields(), vs, 15));
            }
            wr_cn(out, self.cont_id.0.as_slice());
            proof {
                assert(vs[15] == Val::Cn(self.cont_id.0@));
                lemma_write_step(e, vs, 15, old(out)@, mid, out@);
            }
        }
        proof {
            assert(out@ == old(out)@ + enc_vals(e, vs.take(
                if kk > 15 {
                    16int
                } else {
                    kk
                },
            )));
        }
        let ghost mid = out@;
        if keep > 16 {
            proof {
                assert(val_matches_at(Self::fields(), vs, 16));
            }
            wr_cn(out, self.lasr_typ.0.as_slice());
            proof {
                assert(vs[16] == Val::Cn(self.lasr_typ.0@));
                lemma_write_step(e, vs, 16, old(out)@, mid, out@);
            }
        }
        proof {
            assert(out@ == old(out)@ + enc_vals(e, vs.take(
                if kk > 16 {
                    17int
                } else {
                    kk
                },
            )));
        }
        let ghost mid = out@;
        if keep > 17 {
            proof {
                assert(val_matches_at(Self::fields(), vs, 17));
            }
            wr_cn(out, self.lasr_id.0.as_slice());
            proof {
                assert(vs[17] == Val::Cn(self.lasr_id.0@));
                lemma_write_step(e, vs, 17, old(out)@, mid, out@);
            }
        }
        proof {
            assert(out@ == old(out)@ + enc_vals(e, vs.take(
                if kk > 17 {
                    18int
                } else {
                    kk
                },
            )));
        }
        let ghost mid = out@;
        if keep > 18 {
            proof {
                assert(val_matches_at(Self::fields(), vs, 18));
            }
            wr_cn(out, self.extr_typ.0.as_slice());
            proof {
                assert(vs[18] == Val::Cn(self.extr_typ.0@));
                lemma_write_step(e, vs, 18, old(out)@, mid, out@);
            }
        }
        proof {
            assert(out@ == old(out)@ + enc_vals(e, vs.take(
                if kk > 18 {
                    19int
                } else {
                    kk
                },
            )));
        }
        let ghost mid = out@;
        if keep > 19 {
            proof {
                assert(val_matches_at(Self::fields(), vs, 19));
            }
            wr_cn(out, self.extr_id.0.as_slice());
            proof {
                assert(vs[19] == Val::Cn(self.extr_id.0@));
                lemma_write_step(e, vs, 19, old(out)@, mid, out@);
            }
        }
        proof {
            assert(out@ == old(out)@ + enc_vals(e, vs.take(
                if kk > 19 {
                    20int
                } else {
                    kk
                },
            )));
        }
        proof {
            assert(out@ == old(out)@ + enc_vals(e, vs.take(kk)));
        }
    }
}

} // verus!
