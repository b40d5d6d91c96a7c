//! Lot-level records: file attributes, audit trail, master information
//! and results, part counts, and bin summaries.

use vstd::prelude::*;

use crate::fields::{
    d_cn, d_dn, d_u1, d_u2, d_u4, d_u8, i16_from_bits, i16_to_bits, i32_from_bits, i32_to_bits,
    i64_from_bits, i64_to_bits, i8_from_bits, i8_to_bits, rd_arr_cn, rd_arr_n1, rd_arr_u1,
    rd_arr_u2, rd_arr_u4, rd_arr_vn, rd_cn, rd_dn, rd_u1, rd_u2, rd_u4, rd_u8w, wr_arr_cn,
    wr_arr_n1, wr_arr_u1, wr_arr_u2, wr_arr_u4, wr_arr_vn, wr_cn, wr_dn, wr_u1, wr_u2, wr_u4,
    wr_u8w,
};
use crate::types::{Bn, Cn, Dn, Endian, StdfError, Vn, B1, C1, I1, I2, I4, I8, N1, R4, R8, U1, U2,
    U4, U4E, U8};
use crate::wire::{
    counts_strict_upto, enc_vals, fd, from_i16, from_i32, from_i64, from_i8, lemma_pres_begin,
    lemma_pres_end, lemma_pres_step, lemma_pres_step_arr, lemma_read_begin, lemma_read_end,
    lemma_read_step, lemma_read_step_arr, lemma_read_step_arr_none, lemma_read_step_none,
    lemma_sdecode_match, lemma_sdecode_present, lemma_signed_round_trip, lemma_write_begin,
    lemma_write_end, lemma_write_step, sdecode, sdecode_from, spres, spres_inv, suppressible,
    val_matches_at, vals_match, vnv_wf, Dflt, Elem, FieldDef, FieldKind, Val,
};


verus! {

/// FAR: the File Attributes Record, with pair (0, 10).
#[derive(Clone, Debug, PartialEq, Eq)]
pub struct FAR {
    pub cpu_type: U1,
    pub stdf_ver: U1,
    /// How many leading fields stood on the wire when the record
    /// was decoded; `write` puts exactly these back.
    pub present: usize,
}

impl FAR {
    /// The field layout of the record: wire kind, default, and for
    /// an array the position of its count field.
    pub open spec fn fields() -> Seq<FieldDef> {
        seq![
            fd(FieldKind::KU1, d_u1(None)),
            fd(FieldKind::KU1, d_u1(None)),
        ]
    }

    /// The field values of the record, in declaration order.
    pub open spec fn val_seq(self) -> Seq<Val> {
        seq![
            Val::U1(self.cpu_type.0),
            Val::U1(self.stdf_ver.0),
        ]
    }

    /// Well-formedness: every value fits its wire layout, arrays are
    /// as long as their count fields say or stand empty past the
    /// wire, and the on-the-wire count covers at most every field.
    pub open spec fn wf(self) -> bool {
        vals_match(Self::fields(), self.val_seq()) && self.present <= 2
    }

    /// Well-formedness is exactly conformance of the values to the
    /// layout, with the on-the-wire count in bounds.
    pub proof fn lemma_wf_is_match(self)
        ensures
            self.wf() == (vals_match(Self::fields(), self.val_seq()) && self.present
                <= Self::fields().len()),
    {
    }

    /// The payload bytes of the record under a byte order: the
    /// fields that stood on the wire, in declaration order; the
    /// absent tail stays off it.
    pub open spec fn enc(self, e: Endian) -> Seq<u8> {
        enc_vals(e, self.val_seq().take(self.present as int))
    }

    /// Every array that stood on the wire is as long as its count
    /// field says, so the record can be framed back onto it.
    pub open spec fn counts_ok(self) -> bool {
        counts_strict_upto(Self::fields(), self.val_seq(), self.present as int)
    }

    /// Every field past the on-the-wire count holds its declared
    /// default or is empty.
    pub open spec fn tail_absent(self) -> bool {
        forall|i: int|
            self.present <= i < Self::fields().len() ==> #[trigger] suppressible(
                Self::fields()[i],
                self.val_seq()[i],
            )
    }

    /// A record decoded off the wire is framed: its on-the-wire
    /// arrays match their counts and its absent fields hold their
    /// defaults.
    pub proof fn lemma_decoded_shape(self, s: Seq<u8>, e: Endian)
        requires
            sdecode(s, e, Self::fields()) == Some(self.val_seq()),
            self.present as int == spres(s, e, Self::fields()),
        ensures
            self.counts_ok(),
            self.tail_absent(),
    {
        lemma_sdecode_present(s, e, Self::fields());
    }

    /// Decodes a record payload: fields in declaration order, trailing
    /// absent fields at their defaults.
    pub fn read(bytes: &[u8], e: Endian) -> (r: Result<FAR, StdfError>)
        ensures
            match r {
                Ok(rec) => sdecode(bytes@, e, Self::fields()) == Some(rec.val_seq())
                    && rec.wf() && rec.present as int == spres(bytes@, e, Self::fields()),
                Err(_) => sdecode(bytes@, e, Self::fields()) is None,
            },
    {
        let ghost s = bytes@;
        let ghost fs = Self::fields();
        let mut off: usize = 0;
        let mut pres: usize = 0;
        let ghost mut acc = Seq::<Val>::empty();
        proof {
            lemma_read_begin(s, e, fs);
            lemma_pres_begin(s, e, fs);
        }
        let ghost off0 = off as int;
        let ghost p0 = pres as int;
        if off < bytes.len() {
            pres = 1;
        }
        let rv_cpu_type = match rd_u1(bytes, &mut off, e, None) {
            Ok(v) => v,
            Err(er) => {
                proof {
                    lemma_read_step_none(s, e, fs, 0, fd(FieldKind::KU1, d_u1(None)), off0, acc);
                }
                return Err(er);
            },
        };
        proof {
            lemma_read_step(s, e, fs, 0, fd(FieldKind::KU1, d_u1(None)), off0, off as int, acc, Val::U1(rv_cpu_type));
            lemma_pres_step(s, e, fs, 0, fd(FieldKind::KU1, d_u1(None)), off0, off as int, acc, Val::U1(rv_cpu_type), p0,
                pres as int);
            acc = acc.push(Val::U1(rv_cpu_type));
        }
        let ghost off0 = off as int;
        let ghost p0 = pres as int;
        if off < bytes.len() {
            pres = 2;
        }
        let rv_stdf_ver = match rd_u1(bytes, &mut off, e, None) {
            Ok(v) => v,
            Err(er) => {
                proof {
                    lemma_read_step_none(s, e, fs, 1, fd(FieldKind::KU1, d_u1(None)), off0, acc);
                }
                return Err(er);
            },
        };
        proof {
            lemma_read_step(s, e, fs, 1, fd(FieldKind::KU1, d_u1(None)), off0, off as int, acc, Val::U1(rv_stdf_ver));
            lemma_pres_step(s, e, fs, 1, fd(FieldKind::KU1, d_u1(None)), off0, off as int, acc, Val::U1(rv_stdf_ver), p0,
                pres as int);
            acc = acc.push(Val::U1(rv_stdf_ver));
        }
        let rec = FAR {
            cpu_type: U1(rv_cpu_type),
            stdf_ver: U1(rv_stdf_ver),
            present: pres,
        };
        proof {
            lemma_read_end(s, e, fs, off as int, acc);
            lemma_pres_end(s, e, fs, off as int, acc, pres as int);
            assert(rec.val_seq() =~= acc);
            lemma_sdecode_match(s, e, fs);
        }
        Ok(rec)
    }

    /// Appends the payload encoding of the record to a buffer.
    pub fn write(&self, out: &mut Vec<u8>, e: Endian)
        requires
            self.wf(),
        ensures
            final(out)@ == old(out)@ + self.enc(e),
    {
        let ghost vs = self.val_seq();
        let ghost kk = self.present as int;
        let keep = self.present;
        proof {
            assert(0 <= kk <= 2);
            lemma_write_begin(e, vs, old(out)@);
        }
        let ghost mid = out@;
        if keep > 0 {
            wr_u1(out, self.cpu_type.0);
            proof {
                assert(vs[0] == Val::U1(self.cpu_type.0));
                lemma_write_step(e, vs, 0, old(out)@, mid, out@);
            }
        }
        proof {
            assert(out@ == old(out)@ + enc_vals(e, vs.take(
                if kk > 0 {
                    1int
                } else {
                    kk
                },
            )));
        }
        let ghost mid = out@;
        if keep > 1 {
            wr_u1(out, self.stdf_ver.0);
            proof {
                assert(vs[1] == Val::U1(self.stdf_ver.0));
                lemma_write_step(e, vs, 1, old(out)@, mid, out@);
            }
        }
        proof {
            assert(out@ == old(out)@ + enc_vals(e, vs.take(
                if kk > 1 {
                    2int
                } else {
                    kk
                },
            )));
        }
        proof {
            assert(out@ == old(out)@ + enc_vals(e, vs.take(kk)));
        }
    }
}

/// ATR: the Audit Trail Record, with pair (0, 20).
#[derive(Clone, Debug, PartialEq, Eq)]
pub struct ATR {
    pub mod_tim: U4E,
    pub cmd_line: Cn,
    /// How many leading fields stood on the wire when the record
    /// was decoded; `write` puts exactly these back.
    pub present: usize,
}

impl ATR {
    /// The field layout of the record: wire kind, default, and for
    /// an array the position of its count field.
    pub open spec fn fields() -> Seq<FieldDef> {
        seq![
            fd(FieldKind::KU4, d_u4(Some(0u32))),
            fd(FieldKind::KCn, d_cn(true)),
        ]
    }

    /// The field values of the record, in declaration order.
    pub open spec fn val_seq(self) -> Seq<Val> {
        seq![
            Val::U4(self.mod_tim.0),
            Val::Cn(self.cmd_line.0@),
        ]
    }

    /// Well-formedness: every value fits its wire layout, arrays are
    /// as long as their count fields say or stand empty past the
    /// wire, and the on-the-wire count covers at most every field.
    pub open spec fn wf(self) -> bool {
        vals_match(Self::fields(), self.val_seq()) && self.present <= 2
    }

    /// Well-formedness is exactly conformance of the values to the
    /// layout, with the on-the-wire count in bounds.
    pub proof fn lemma_wf_is_match(self)
        ensures
            self.wf() == (vals_match(Self::fields(), self.val_seq()) && self.present
                <= Self::fields().len()),
    {
    }

    /// The payload bytes of the record under a byte order: the
    /// fields that stood on the wire, in declaration order; the
    /// absent tail stays off it.
    pub open spec fn enc(self, e: Endian) -> Seq<u8> {
        enc_vals(e, self.val_seq().take(self.present as int))
    }

    /// Every array that stood on the wire is as long as its count
    /// field says, so the record can be framed back onto it.
    pub open spec fn counts_ok(self) -> bool {
        counts_strict_upto(Self::fields(), self.val_seq(), self.present as int)
    }

    /// Every field past the on-the-wire count holds its declared
    /// default or is empty.
    pub open spec fn tail_absent(self) -> bool {
        forall|i: int|
            self.present <= i < Self::fields().len() ==> #[trigger] suppressible(
                Self::fields()[i],
                self.val_seq()[i],
            )
    }

    /// A record decoded off the wire is framed: its on-the-wire
    /// arrays match their counts and its absent fields hold their
    /// defaults.
    pub proof fn lemma_decoded_shape(self, s: Seq<u8>, e: Endian)
        requires
            sdecode(s, e, Self::fields()) == Some(self.val_seq()),
            self.present as int == spres(s, e, Self::fields()),
        ensures
            self.counts_ok(),
            self.tail_absent(),
    {
        lemma_sdecode_present(s, e, Self::fields());
    }

    /// Decodes a record payload: fields in declaration order, trailing
    /// absent fields at their defaults.
    pub fn read(bytes: &[u8], e: Endian) -> (r: Result<ATR, StdfError>)
        ensures
            match r {
                Ok(rec) => sdecode(bytes@, e, Self::fields()) == Some(rec.val_seq())
                    && rec.wf() && rec.present as int == spres(bytes@, e, Self::fields()),
                Err(_) => sdecode(bytes@, e, Self::fields()) is None,
            },
    {
        let ghost s = bytes@;
        let ghost fs = Self::fields();
        let mut off: usize = 0;
        let mut pres: usize = 0;
        let ghost mut acc = Seq::<Val>::empty();
        proof {
            lemma_read_begin(s, e, fs);
            lemma_pres_begin(s, e, fs);
        }
        let ghost off0 = off as int;
        let ghost p0 = pres as int;
        if off < bytes.len() {
            pres = 1;
        }
        let rv_mod_tim = match rd_u4(bytes, &mut off, e, Some(0u32)) {
            Ok(v) => v,
            Err(er) => {
                proof {
                    lemma_read_step_none(s, e, fs, 0, fd(FieldKind::KU4, d_u4(Some(0u32))), off0, acc);
                }
                return Err(er);
            },
        };
        proof {
            lemma_read_step(s, e, fs, 0, fd(FieldKind::KU4, d_u4(Some(0u32))), off0, off as int, acc, Val::U4(rv_mod_tim));
            lemma_pres_step(s, e, fs, 0, fd(FieldKind::KU4, d_u4(Some(0u32))), off0, off as int, acc, Val::U4(rv_mod_tim), p0,
                pres as int);
            acc = acc.push(Val::U4(rv_mod_tim));
        }
        let ghost off0 = off as int;
        let ghost p0 = pres as int;
        if off < bytes.len() {
            pres = 2;
        }
        let rv_cmd_line = match rd_cn(bytes, &mut off, e, true) {
            Ok(v) => v,
            Err(er) => {
                proof {
                    lemma_read_step_none(s, e, fs, 1, fd(FieldKind::KCn, d_cn(true)), off0, acc);
                }
                return Err(er);
            },
        };
        proof {
            lemma_read_step(s, e, fs, 1, fd(FieldKind::KCn, d_cn(true)), off0, off as int, acc, Val::Cn(rv_cmd_line@));
            lemma_pres_step(s, e, fs, 1, fd(FieldKind::KCn, d_cn(true)), off0, off as int, acc, Val::Cn(rv_cmd_line@), p0,
                pres as int);
            acc = acc.push(Val::Cn(rv_cmd_line@));
        }
        let rec = ATR {
            mod_tim: U4E(rv_mod_tim),
            cmd_line: Cn(rv_cmd_line),
            present: pres,
        };
        proof {
            lemma_read_end(s, e, fs, off as int, acc);
            lemma_pres_end(s, e, fs, off as int, acc, pres as int);
            assert(rec.val_seq() =~= acc);
            lemma_sdecode_match(s, e, fs);
        }
        Ok(rec)
    }

    /// Appends the payload encoding of the record to a buffer.
    pub fn write(&self, out: &mut Vec<u8>, e: Endian)
        requires
            self.wf(),
        ensures
            final(out)@ == old(out)@ + self.enc(e),
    {
        let ghost vs = self.val_seq();
        let ghost kk = self.present as int;
        let keep = self.present;
        proof {
            assert(0 <= kk <= 2);
            lemma_write_begin(e, vs, old(out)@);
        }
        let ghost mid = out@;
        if keep > 0 {
            wr_u4(out, e, self.mod_tim.0);
            proof {
                assert(vs[0] == Val::U4(self.mod_tim.0));
                lemma_write_step(e, vs, 0, old(out)@, mid, out@);
            }
        }
        proof {
            assert(out@ == old(out)@ + enc_vals(e, vs.take(
                if kk > 0 {
                    1int
                } else {
                    kk
                },
            )));
        }
        let ghost mid = out@;
        if keep > 1 {
            proof {
                assert(val_matches_at(Self::fields(), vs, 1));
            }
            wr_cn(out, self.cmd_line.0.as_slice());
            proof {
                assert(vs[1] == Val::Cn(self.cmd_line.0@));
                lemma_write_step(e, vs, 1, old(out)@, mid, out@);
            }
        }
        proof {
            assert(out@ == old(out)@ + enc_vals(e, vs.take(
                if kk > 1 {
                    2int
                } else {
                    kk
                },
            )));
        }
        proof {
            assert(out@ == old(out)@ + enc_vals(e, vs.take(kk)));
        }
    }
}

/// MIR: the Master Information Record, with pair (1, 10).
#[derive(Clone, Debug, PartialEq, Eq)]
pub struct MIR {
    pub setup_t: U4E,
    pub start_t: U4E,
    pub stat_num: U1,
    pub mode_cod: C1,
    pub rtst_cod: C1,
    pub prot_cod: C1,
    pub burn_tim: U2,
    pub cmod_cod: C1,
    pub lot_id: Cn,
    pub part_typ: Cn,
    pub node_nam: Cn,
    pub tstr_typ: Cn,
    pub job_nam: Cn,
    pub job_rev: Cn,
    pub sblot_id: Cn,
    pub oper_nam: Cn,
    pub exec_typ: Cn,
    pub exec_ver: Cn,
    pub test_cod: Cn,
    pub tst_temp: Cn,
    pub user_txt: Cn,
    pub aux_file: Cn,
    pub pkg_typ: Cn,
    pub famly_id: Cn,
    pub date_cod: Cn,
    pub facil_id: Cn,
    pub floor_id: Cn,
    pub proc_id: Cn,
    pub oper_frq: Cn,
    pub spec_nam: Cn,
    pub spec_ver: Cn,
    pub flow_id: Cn,
    pub setup_id: Cn,
    pub dsgn_rev: Cn,
    pub eng_id: Cn,
    pub rom_cod: Cn,
    pub serl_num: Cn,
    pub supr_nam: Cn,
    /// How many leading fields stood on the wire when the record
    /// was decoded; `write` puts exactly these back.
    pub present: usize,
}

impl MIR {
    /// The field layout of the record: wire kind, default, and for
    /// an array the position of its count field.
    pub open spec fn fields() -> Seq<FieldDef> {
        seq![
            fd(FieldKind::KU4, d_u4(Some(0u32))),
            fd(FieldKind::KU4, d_u4(Some(0u32))),
            fd(FieldKind::KU1, d_u1(Some(0u8))),
            fd(FieldKind::KU1, d_u1(Some(0x20u8))),
            fd(FieldKind::KU1, d_u1(Some(0x20u8))),
            fd(FieldKind::KU1, d_u1(Some(0x20u8))),
            fd(FieldKind::KU2, d_u2(Some(0u16))),
            fd(FieldKind::KU1, d_u1(Some(0x20u8))),
            fd(FieldKind::KCn, d_cn(true)),
            fd(FieldKind::KCn, d_cn(true)),
            fd(FieldKind::KCn, d_cn(true)),
            fd(FieldKind::KCn, d_cn(true)),
            fd(FieldKind::KCn, d_cn(true)),
            fd(FieldKind::KCn, d_cn(true)),
            fd(FieldKind::KCn, d_cn(true)),
            fd(FieldKind::KCn, d_cn(true)),
            fd(FieldKind::KCn, d_cn(true)),
            fd(FieldKind::KCn, d_cn(true)),
            fd(FieldKind::KCn, d_cn(true)),
            fd(FieldKind::KCn, d_cn(true)),
            fd(FieldKind::KCn, d_cn(true)),
            fd(FieldKind::KCn, d_cn(true)),
            fd(FieldKind::KCn, d_cn(true)),
            fd(FieldKind::KCn, d_cn(true)),
            fd(FieldKind::KCn, d_cn(true)),
            fd(FieldKind::KCn, d_cn(true)),
            fd(FieldKind::KCn, d_cn(true)),
            fd(FieldKind::KCn, d_cn(true)),
            fd(FieldKind::KCn, d_cn(true)),
            fd(FieldKind::KCn, d_cn(true)),
            fd(FieldKind::KCn, d_cn(true)),
            fd(FieldKind::KCn, d_cn(true)),
            fd(FieldKind::KCn, d_cn(true)),
            fd(FieldKind::KCn, d_cn(true)),
            fd(FieldKind::KCn, d_cn(true)),
            fd(FieldKind::KCn, d_cn(true)),
            fd(FieldKind::KCn, d_cn(true)),
            fd(FieldKind::KCn, d_cn(true)),
        ]
    }

    /// The field values of the record, in declaration order.
    pub open spec fn val_seq(self) -> Seq<Val> {
        seq![
            Val::U4(self.setup_t.0),
            Val::U4(self.start_t.0),
            Val::U1(self.stat_num.0),
            Val::U1(self.mode_cod.0),
            Val::U1(self.rtst_cod.0),
            Val::U1(self.prot_cod.0),
            Val::U2(self.burn_tim.0),
            Val::U1(self.cmod_cod.0),
            Val::Cn(self.lot_id.0@),
            Val::Cn(self.part_typ.0@),
            Val::Cn(self.node_nam.0@),
            Val::Cn(self.tstr_typ.0@),
            Val::Cn(self.job_nam.0@),
            Val::Cn(self.job_rev.0@),
            Val::Cn(self.sblot_id.0@),
            Val::Cn(self.oper_nam.0@),
            Val::Cn(self.exec_typ.0@),
            Val::Cn(self.exec_ver.0@),
            Val::Cn(self.test_cod.0@),
            Val::Cn(self.tst_temp.0@),
            Val::Cn(self.user_txt.0@),
            Val::Cn(self.aux_file.0@),
            Val::Cn(self.pkg_typ.0@),
            Val::Cn(self.famly_id.0@),
            Val::Cn(self.date_cod.0@),
            Val::Cn(self.facil_id.0@),
            Val::Cn(self.floor_id.0@),
            Val::Cn(self.proc_id.0@),
            Val::Cn(self.oper_frq.0@),
            Val::Cn(self.spec_nam.0@),
            Val::Cn(self.spec_ver.0@),
            Val::Cn(self.flow_id.0@),
            Val::Cn(self.setup_id.0@),
            Val::Cn(self.dsgn_rev.0@),
            Val::Cn(self.eng_id.0@),
            Val::Cn(self.rom_cod.0@),
            Val::Cn(self.serl_num.0@),
            Val::Cn(self.supr_nam.0@),
        ]
    }

    /// Well-formedness: every value fits its wire layout, arrays are
    /// as long as their count fields say or stand empty past the
    /// wire, and the on-the-wire count covers at most every field.
    pub open spec fn wf(self) -> bool {
        vals_match(Self::fields(), self.val_seq()) && self.present <= 38
    }

    /// Well-formedness is exactly conformance of the values to the
    /// layout, with the on-the-wire count in bounds.
    pub proof fn lemma_wf_is_match(self)
        ensures
            self.wf() == (vals_match(Self::fields(), self.val_seq()) && self.present
                <= Self::fields().len()),
    {
    }

    /// The payload bytes of the record under a byte order: the
    /// fields that stood on the wire, in declaration order; the
    /// absent tail stays off it.
    pub open spec fn enc(self, e: Endian) -> Seq<u8> {
        enc_vals(e, self.val_seq().take(self.present as int))
    }

    /// Every array that stood on the wire is as long as its count
    /// field says, so the record can be framed back onto it.
    pub open spec fn counts_ok(self) -> bool {
        counts_strict_upto(Self::fields(), self.val_seq(), self.present as int)
    }

    /// Every field past the on-the-wire count holds its declared
    /// default or is empty.
    pub open spec fn tail_absent(self) -> bool {
        forall|i: int|
            self.present <= i < Self::fields().len() ==> #[trigger] suppressible(
                Self::fields()[i],
                self.val_seq()[i],
            )
    }

    /// A record decoded off the wire is framed: its on-the-wire
    /// arrays match their counts and its absent fields hold their
    /// defaults.
    pub proof fn lemma_decoded_shape(self, s: Seq<u8>, e: Endian)
        requires
            sdecode(s, e, Self::fields()) == Some(self.val_seq()),
            self.present as int == spres(s, e, Self::fields()),
        ensures
            self.counts_ok(),
            self.tail_absent(),
    {
        lemma_sdecode_present(s, e, Self::fields());
    }

    /// Reads fields 0 .. 7 of the record.
    #[verifier::rlimit(100)]
    #[verifier::spinoff_prover]
    fn read_seg0(
        bytes: &[u8],
        off: &mut usize,
        pres: &mut usize,
        e: Endian,
        Ghost(acc0): Ghost<Seq<Val>>,
    ) -> (r: Result<(u32, u32, u8, u8, u8, u8, u16), StdfError>)
        requires
            *old(off) <= bytes@.len(),
            *old(pres) <= 0,
            acc0.len() == 0,
            sdecode(bytes@, e, Self::fields()) == sdecode_from(
                bytes@, e, Self::fields(), 0, *old(off) as int, acc0,
            ),
            spres_inv(bytes@, e, Self::fields(), 0, *old(off) as int, acc0,
                *old(pres) as int),
        ensures
            *final(off) <= bytes@.len(),
            *final(pres) <= 7,
            match r {
                Ok(t) => sdecode(bytes@, e, Self::fields()) == sdecode_from(
                    bytes@, e, Self::fields(), 7, *final(off) as int,
                    acc0.push(Val::U4(t.0)).push(Val::U4(t.1)).push(Val::U1(t.2)).push(Val::U1(t.3)).push(Val::U1(t.4)).push(Val::U1(t.5)).push(Val::U2(t.6)),
                ) && spres_inv(bytes@, e, Self::fields(), 7, *final(off) as int,
                    acc0.push(Val::U4(t.0)).push(Val::U4(t.1)).push(Val::U1(t.2)).push(Val::U1(t.3)).push(Val::U1(t.4)).push(Val::U1(t.5)).push(Val::U2(t.6)),
                    *final(pres) as int,
                ),
                Err(_) => sdecode(bytes@, e, Self::fields()) is None,
            },
    {
        let ghost s = bytes@;
        let ghost fs = Self::fields();
        let ghost mut acc = acc0;
        let ghost off0 = *off as int;
        let ghost p0 = *pres as int;
        if *off < bytes.len() {
            *pres = 1;
        }
        let rv_setup_t = match rd_u4(bytes, off, e, Some(0u32)) {
            Ok(v) => v,
            Err(er) => {
                proof {
                    lemma_read_step_none(s, e, fs, 0, fd(FieldKind::KU4, d_u4(Some(0u32))), off0, acc);
                }
                return Err(er);
            },
        };
        proof {
            lemma_read_step(s, e, fs, 0, fd(FieldKind::KU4, d_u4(Some(0u32))), off0, *off as int, acc, Val::U4(rv_setup_t));
            lemma_pres_step(s, e, fs, 0, fd(FieldKind::KU4, d_u4(Some(0u32))), off0, *off as int, acc, Val::U4(rv_setup_t), p0,
                *pres as int);
            acc = acc.push(Val::U4(rv_setup_t));
        }
        let ghost off0 = *off as int;
        let ghost p0 = *pres as int;
        if *off < bytes.len() {
            *pres = 2;
        }
        let rv_start_t = match rd_u4(bytes, off, e, Some(0u32)) {
            Ok(v) => v,
            Err(er) => {
                proof {
                    lemma_read_step_none(s, e, fs, 1, fd(FieldKind::KU4, d_u4(Some(0u32))), off0, acc);
                }
                return Err(er);
            },
        };
        proof {
            lemma_read_step(s, e, fs, 1, fd(FieldKind::KU4, d_u4(Some(0u32))), off0, *off as int, acc, Val::U4(rv_start_t));
            lemma_pres_step(s, e, fs, 1, fd(FieldKind::KU4, d_u4(Some(0u32))), off0, *off as int, acc, Val::U4(rv_start_t), p0,
                *pres as int);
            acc = acc.push(Val::U4(rv_start_t));
        }
        let ghost off0 = *off as int;
        let ghost p0 = *pres as int;
        if *off < bytes.len() {
            *pres = 3;
        }
        let rv_stat_num = match rd_u1(bytes, off, e, Some(0u8)) {
            Ok(v) => v,
            Err(er) => {
                proof {
                    lemma_read_step_none(s, e, fs, 2, fd(FieldKind::KU1, d_u1(Some(0u8))), off0, acc);
                }
                return Err(er);
            },
        };
        proof {
            lemma_read_step(s, e, fs, 2, fd(FieldKind::KU1, d_u1(Some(0u8))), off0, *off as int, acc, Val::U1(rv_stat_num));
            lemma_pres_step(s, e, fs, 2, fd(FieldKind::KU1, d_u1(Some(0u8))), off0, *off as int, acc, Val::U1(rv_stat_num), p0,
                *pres as int);
            acc = acc.push(Val::U1(rv_stat_num));
        }
        let ghost off0 = *off as int;
        let ghost p0 = *pres as int;
        if *off < bytes.len() {
            *pres = 4;
        }
        let rv_mode_cod = match rd_u1(bytes, off, e, Some(0x20u8)) {
            Ok(v) => v,
            Err(er) => {
                proof {
                    lemma_read_step_none(s, e, fs, 3, fd(FieldKind::KU1, d_u1(Some(0x20u8))), off0, acc);
                }
                return Err(er);
            },
        };
        proof {
            lemma_read_step(s, e, fs, 3, fd(FieldKind::KU1, d_u1(Some(0x20u8))), off0, *off as int, acc, Val::U1(rv_mode_cod));
            lemma_pres_step(s, e, fs, 3, fd(FieldKind::KU1, d_u1(Some(0x20u8))), off0, *off as int, acc, Val::U1(rv_mode_cod), p0,
                *pres as int);
            acc = acc.push(Val::U1(rv_mode_cod));
        }
        let ghost off0 = *off as int;
        let ghost p0 = *pres as int;
        if *off < bytes.len() {
            *pres = 5;
        }
        let rv_rtst_cod = match rd_u1(bytes, off, e, Some(0x20u8)) {
            Ok(v) => v,
            Err(er) => {
                proof {
                    lemma_read_step_none(s, e, fs, 4, fd(FieldKind::KU1, d_u1(Some(0x20u8))), off0, acc);
                }
                return Err(er);
            },
        };
        proof {
            lemma_read_step(s, e, fs, 4, fd(FieldKind::KU1, d_u1(Some(0x20u8))), off0, *off as int, acc, Val::U1(rv_rtst_cod));
            lemma_pres_step(s, e, fs, 4, fd(FieldKind::KU1, d_u1(Some(0x20u8))), off0, *off as int, acc, Val::U1(rv_rtst_cod), p0,
                *pres as int);
            acc = acc.push(Val::U1(rv_rtst_cod));
        }
        let ghost off0 = *off as int;
        let ghost p0 = *pres as int;
        if *off < bytes.len() {
            *pres = 6;
        }
        let rv_prot_cod = match rd_u1(bytes, off, e, Some(0x20u8)) {
            Ok(v) => v,
            Err(er) => {
                proof {
                    lemma_read_step_none(s, e, fs, 5, fd(FieldKind::KU1, d_u1(Some(0x20u8))), off0, acc);
                }
                return Err(er);
            },
        };
        proof {
            lemma_read_step(s, e, fs, 5, fd(FieldKind::KU1, d_u1(Some(0x20u8))), off0, *off as int, acc, Val::U1(rv_prot_cod));
            lemma_pres_step(s, e, fs, 5, fd(FieldKind::KU1, d_u1(Some(0x20u8))), off0, *off as int, acc, Val::U1(rv_prot_cod), p0,
                *pres as int);
            acc = acc.push(Val::U1(rv_prot_cod));
        }
        let ghost off0 = *off as int;
        let ghost p0 = *pres as int;
        if *off < bytes.len() {
            *pres = 7;
        }
        let rv_burn_tim = match rd_u2(bytes, off, e, Some(0u16)) {
            Ok(v) => v,
            Err(er) => {
                proof {
                    lemma_read_step_none(s, e, fs, 6, fd(FieldKind::KU2, d_u2(Some(0u16))), off0, acc);
                }
                return Err(er);
            },
        };
        proof {
            lemma_read_step(s, e, fs, 6, fd(FieldKind::KU2, d_u2(Some(0u16))), off0, *off as int, acc, Val::U2(rv_burn_tim));
            lemma_pres_step(s, e, fs, 6, fd(FieldKind::KU2, d_u2(Some(0u16))), off0, *off as int, acc, Val::U2(rv_burn_tim), p0,
                *pres as int);
            acc = acc.push(Val::U2(rv_burn_tim));
        }
        Ok((rv_setup_t, rv_start_t, rv_stat_num, rv_mode_cod, rv_rtst_cod, rv_prot_cod, rv_burn_tim))
    }

    /// Reads fields 7 .. 14 of the record.
    #[verifier::rlimit(100)]
    #[verifier::spinoff_prover]
    fn read_seg1(
        bytes: &[u8],
        off: &mut usize,
        pres: &mut usize,
        e: Endian,
        Ghost(acc0): Ghost<Seq<Val>>,
    ) -> (r: Result<(u8, Vec<u8>, Vec<u8>, Vec<u8>, Vec<u8>, Vec<u8>, Vec<u8>), StdfError>)
        requires
            *old(off) <= bytes@.len(),
            *old(pres) <= 7,
            acc0.len() == 7,
            sdecode(bytes@, e, Self::fields()) == sdecode_from(
                bytes@, e, Self::fields(), 7, *old(off) as int, acc0,
            ),
            spres_inv(bytes@, e, Self::fields(), 7, *old(off) as int, acc0,
                *old(pres) as int),
        ensures
            *final(off) <= bytes@.len(),
            *final(pres) <= 14,
            match r {
                Ok(t) => sdecode(bytes@, e, Self::fields()) == sdecode_from(
                    bytes@, e, Self::fields(), 14, *final(off) as int,
                    acc0.push(Val::U1(t.0)).push(Val::Cn(t.1@)).push(Val::Cn(t.2@)).push(Val::Cn(t.3@)).push(Val::Cn(t.4@)).push(Val::Cn(t.5@)).push(Val::Cn(t.6@)),
                ) && spres_inv(bytes@, e, Self::fields(), 14, *final(off) as int,
                    acc0.push(Val::U1(t.0)).push(Val::Cn(t.1@)).push(Val::Cn(t.2@)).push(Val::Cn(t.3@)).push(Val::Cn(t.4@)).push(Val::Cn(t.5@)).push(Val::Cn(t.6@)),
                    *final(pres) as int,
                ),
                Err(_) => sdecode(bytes@, e, Self::fields()) is None,
            },
    {
        let ghost s = bytes@;
        let ghost fs = Self::fields();
        let ghost mut acc = acc0;
        let ghost off0 = *off as int;
        let ghost p0 = *pres as int;
        if *off < bytes.len() {
            *pres = 8;
        }
        let rv_cmod_cod = match rd_u1(bytes, off, e, Some(0x20u8)) {
            Ok(v) => v,
            Err(er) => {
                proof {
                    lemma_read_step_none(s, e, fs, 7, fd(FieldKind::KU1, d_u1(Some(0x20u8))), off0, acc);
                }
                return Err(er);
            },
        };
        proof {
            lemma_read_step(s, e, fs, 7, fd(FieldKind::KU1, d_u1(Some(0x20u8))), off0, *off as int, acc, Val::U1(rv_cmod_cod));
            lemma_pres_step(s, e, fs, 7, fd(FieldKind::KU1, d_u1(Some(0x20u8))), off0, *off as int, acc, Val::U1(rv_cmod_cod), p0,
                *pres as int);
            acc = acc.push(Val::U1(rv_cmod_cod));
        }
        let ghost off0 = *off as int;
        let ghost p0 = *pres as int;
        if *off < bytes.len() {
            *pres = 9;
        }
        let rv_lot_id = match rd_cn(bytes, off, e, true) {
            Ok(v) => v,
            Err(er) => {
                proof {
                    lemma_read_step_none(s, e, fs, 8, fd(FieldKind::KCn, d_cn(true)), off0, acc);
                }
                return Err(er);
            },
        };
        proof {
            lemma_read_step(s, e, fs, 8, fd(FieldKind::KCn, d_cn(true)), off0, *off as int, acc, Val::Cn(rv_lot_id@));
            lemma_pres_step(s, e, fs, 8, fd(FieldKind::KCn, d_cn(true)), off0, *off as int, acc, Val::Cn(rv_lot_id@), p0,
                *pres as int);
            acc = acc.push(Val::Cn(rv_lot_id@));
        }
        let ghost off0 = *off as int;
        let ghost p0 = *pres as int;
        if *off < bytes.len() {
            *pres = 10;
        }
        let rv_part_typ = match rd_cn(bytes, off, e, true) {
            Ok(v) => v,
            Err(er) => {
                proof {
                    lemma_read_step_none(s, e, fs, 9, fd(FieldKind::KCn, d_cn(true)), off0, acc);
                }
                return Err(er);
            },
        };
        proof {
            lemma_read_step(s, e, fs, 9, fd(FieldKind::KCn, d_cn(true)), off0, *off as int, acc, Val::Cn(rv_part_typ@));
            lemma_pres_step(s, e, fs, 9, fd(FieldKind::KCn, d_cn(true)), off0, *off as int, acc, Val::Cn(rv_part_typ@), p0,
                *pres as int);
            acc = acc.push(Val::Cn(rv_part_typ@));
        }
        let ghost off0 = *off as int;
        let ghost p0 = *pres as int;
        if *off < bytes.len() {
            *pres = 11;
        }
        let rv_node_nam = match rd_cn(bytes, off, e, true) {
            Ok(v) => v,
            Err(er) => {
                proof {
                    lemma_read_step_none(s, e, fs, 10, fd(FieldKind::KCn, d_cn(true)), off0, acc);
                }
                return Err(er);
            },
        };
        proof {
            lemma_read_step(s, e, fs, 10, fd(FieldKind::KCn, d_cn(true)), off0, *off as int, acc, Val::Cn(rv_node_nam@));
            lemma_pres_step(s, e, fs, 10, fd(FieldKind::KCn, d_cn(true)), off0, *off as int, acc, Val::Cn(rv_node_nam@), p0,
                *pres as int);
            acc = acc.push(Val::Cn(rv_node_nam@));
        }
        let ghost off0 = *off as int;
        let ghost p0 = *pres as int;
        if *off < bytes.len() {
            *pres = 12;
        }
        let rv_tstr_typ = match rd_cn(bytes, off, e, true) {
            Ok(v) => v,
            Err(er) => {
                proof {
                    lemma_read_step_none(s, e, fs, 11, fd(FieldKind::KCn, d_cn(true)), off0, acc);
                }
                return Err(er);
            },
        };
        proof {
            lemma_read_step(s, e, fs, 11, fd(FieldKind::KCn, d_cn(true)), off0, *off as int, acc, Val::Cn(rv_tstr_typ@));
            lemma_pres_step(s, e, fs, 11, fd(FieldKind::KCn, d_cn(true)), off0, *off as int, acc, Val::Cn(rv_tstr_typ@), p0,
                *pres as int);
            acc = acc.push(Val::Cn(rv_tstr_typ@));
        }
        let ghost off0 = *off as int;
        let ghost p0 = *pres as int;
        if *off < bytes.len() {
            *pres = 13;
        }
        let rv_job_nam = match rd_cn(bytes, off, e, true) {
            Ok(v) => v,
            Err(er) => {
                proof {
                    lemma_read_step_none(s, e, fs, 12, fd(FieldKind::KCn, d_cn(true)), off0, acc);
                }
                return Err(er);
            },
        };
        proof {
            lemma_read_step(s, e, fs, 12, fd(FieldKind::KCn, d_cn(true)), off0, *off as int, acc, Val::Cn(rv_job_nam@));
            lemma_pres_step(s, e, fs, 12, fd(FieldKind::KCn, d_cn(true)), off0, *off as int, acc, Val::Cn(rv_job_nam@), p0,
                *pres as int);
            acc = acc.push(Val::Cn(rv_job_nam@));
        }
        let ghost off0 = *off as int;
        let ghost p0 = *pres as int;
        if *off < bytes.len() {
            *pres = 14;
        }
        let rv_job_rev = match rd_cn(bytes, off, e, true) {
            Ok(v) => v,
            Err(er) => {
                proof {
                    lemma_read_step_none(s, e, fs, 13, fd(FieldKind::KCn, d_cn(true)), off0, acc);
                }
                return Err(er);
            },
        };
        proof {
            lemma_read_step(s, e, fs, 13, fd(FieldKind::KCn, d_cn(true)), off0, *off as int, acc, Val::Cn(rv_job_rev@));
            lemma_pres_step(s, e, fs, 13, fd(FieldKind::KCn, d_cn(true)), off0, *off as int, acc, Val::Cn(rv_job_rev@), p0,
                *pres as int);
            acc = acc.push(Val::Cn(rv_job_rev@));
        }
        Ok((rv_cmod_cod, rv_lot_id, rv_part_typ, rv_node_nam, rv_tstr_typ, rv_job_nam, rv_job_rev))
    }

    /// Reads fields 14 .. 21 of the record.
    #[verifier::rlimit(100)]
    #[verifier::spinoff_prover]
    fn read_seg2(
        bytes: &[u8],
        off: &mut usize,
        pres: &mut usize,
        e: Endian,
        Ghost(acc0): Ghost<Seq<Val>>,
    ) -> (r: Result<(Vec<u8>, Vec<u8>, Vec<u8>, Vec<u8>, Vec<u8>, Vec<u8>, Vec<u8>), StdfError>)
        requires
            *old(off) <= bytes@.len(),
            *old(pres) <= 14,
            acc0.len() == 14,
            sdecode(bytes@, e, Self::fields()) == sdecode_from(
                bytes@, e, Self::fields(), 14, *old(off) as int, acc0,
            ),
            spres_inv(bytes@, e, Self::fields(), 14, *old(off) as int, acc0,
                *old(pres) as int),
        ensures
            *final(off) <= bytes@.len(),
            *final(pres) <= 21,
            match r {
                Ok(t) => sdecode(bytes@, e, Self::fields()) == sdecode_from(
                    bytes@, e, Self::fields(), 21, *final(off) as int,
                    acc0.push(Val::Cn(t.0@)).push(Val::Cn(t.1@)).push(Val::Cn(t.2@)).push(Val::Cn(t.3@)).push(Val::Cn(t.4@)).push(Val::Cn(t.5@)).push(Val::Cn(t.6@)),
                ) && spres_inv(bytes@, e, Self::fields(), 21, *final(off) as int,
                    acc0.push(Val::Cn(t.0@)).push(Val::Cn(t.1@)).push(Val::Cn(t.2@)).push(Val::Cn(t.3@)).push(Val::Cn(t.4@)).push(Val::Cn(t.5@)).push(Val::Cn(t.6@)),
                    *final(pres) as int,
                ),
                Err(_) => sdecode(bytes@, e, Self::fields()) is None,
            },
    {
        let ghost s = bytes@;
        let ghost fs = Self::fields();
        let ghost mut acc = acc0;
        let ghost off0 = *off as int;
        let ghost p0 = *pres as int;
        if *off < bytes.len() {
            *pres = 15;
        }
        let rv_sblot_id = match rd_cn(bytes, off, e, true) {
            Ok(v) => v,
            Err(er) => {
                proof {
                    lemma_read_step_none(s, e, fs, 14, fd(FieldKind::KCn, d_cn(true)), off0, acc);
                }
                return Err(er);
            },
        };
        proof {
            lemma_read_step(s, e, fs, 14, fd(FieldKind::KCn, d_cn(true)), off0, *off as int, acc, Val::Cn(rv_sblot_id@));
            lemma_pres_step(s, e, fs, 14, fd(FieldKind::KCn, d_cn(true)), off0, *off as int, acc, Val::Cn(rv_sblot_id@), p0,
                *pres as int);
            acc = acc.push(Val::Cn(rv_sblot_id@));
        }
        let ghost off0 = *off as int;
        let ghost p0 = *pres as int;
        if *off < bytes.len() {
            *pres = 16;
        }
        let rv_oper_nam = match rd_cn(bytes, off, e, true) {
            Ok(v) => v,
            Err(er) => {
                proof {
                    lemma_read_step_none(s, e, fs, 15, fd(FieldKind::KCn, d_cn(true)), off0, acc);
                }
                return Err(er);
            },
        };
        proof {
            lemma_read_step(s, e, fs, 15, fd(FieldKind::KCn, d_cn(true)), off0, *off as int, acc, Val::Cn(rv_oper_nam@));
            lemma_pres_step(s, e, fs, 15, fd(FieldKind::KCn, d_cn(true)), off0, *off as int, acc, Val::Cn(rv_oper_nam@), p0,
                *pres as int);
            acc = acc.push(Val::Cn(rv_oper_nam@));
        }
        let ghost off0 = *off as int;
        let ghost p0 = *pres as int;
        if *off < bytes.len() {
            *pres = 17;
        }
        let rv_exec_typ = match rd_cn(bytes, off, e, true) {
            Ok(v) => v,
            Err(er) => {
                proof {
                    lemma_read_step_none(s, e, fs, 16, fd(FieldKind::KCn, d_cn(true)), off0, acc);
                }
                return Err(er);
            },
        };
        proof {
            lemma_read_step(s, e, fs, 16, fd(FieldKind::KCn, d_cn(true)), off0, *off as int, acc, Val::Cn(rv_exec_typ@));
            lemma_pres_step(s, e, fs, 16, fd(FieldKind::KCn, d_cn(true)), off0, *off as int, acc, Val::Cn(rv_exec_typ@), p0,
                *pres as int);
            acc = acc.push(Val::Cn(rv_exec_typ@));
        }
        let ghost off0 = *off as int;
        let ghost p0 = *pres as int;
        if *off < bytes.len() {
            *pres = 18;
        }
        let rv_exec_ver = match rd_cn(bytes, off, e, true) {
            Ok(v) => v,
            Err(er) => {
                proof {
                    lemma_read_step_none(s, e, fs, 17, fd(FieldKind::KCn, d_cn(true)), off0, acc);
                }
                return Err(er);
            },
        };
        proof {
            lemma_read_step(s, e, fs, 17, fd(FieldKind::KCn, d_cn(true)), off0, *off as int, acc, Val::Cn(rv_exec_ver@));
            lemma_pres_step(s, e, fs, 17, fd(FieldKind::KCn, d_cn(true)), off0, *off as int, acc, Val::Cn(rv_exec_ver@), p0,
                *pres as int);
            acc = acc.push(Val::Cn(rv_exec_ver@));
        }
        let ghost off0 = *off as int;
        let ghost p0 = *pres as int;
        if *off < bytes.len() {
            *pres = 19;
        }
        let rv_test_cod = match rd_cn(bytes, off, e, true) {
            Ok(v) => v,
            Err(er) => {
                proof {
                    lemma_read_step_none(s, e, fs, 18, fd(FieldKind::KCn, d_cn(true)), off0, acc);
                }
                return Err(er);
            },
        };
        proof {
            lemma_read_step(s, e, fs, 18, fd(FieldKind::KCn, d_cn(true)), off0, *off as int, acc, Val::Cn(rv_test_cod@));
            lemma_pres_step(s, e, fs, 18, fd(FieldKind::KCn, d_cn(true)), off0, *off as int, acc, Val::Cn(rv_test_cod@), p0,
                *pres as int);
            acc = acc.push(Val::Cn(rv_test_cod@));
        }
        let ghost off0 = *off as int;
        let ghost p0 = *pres as int;
        if *off < bytes.len() {
            *pres = 20;
        }
        let rv_tst_temp = match rd_cn(bytes, off, e, true) {
            Ok(v) => v,
            Err(er) => {
                proof {
                    lemma_read_step_none(s, e, fs, 19, fd(FieldKind::KCn, d_cn(true)), off0, acc);
                }
                return Err(er);
            },
        };
        proof {
            lemma_read_step(s, e, fs, 19, fd(FieldKind::KCn, d_cn(true)), off0, *off as int, acc, Val::Cn(rv_tst_temp@));
            lemma_pres_step(s, e, fs, 19, fd(FieldKind::KCn, d_cn(true)), off0, *off as int, acc, Val::Cn(rv_tst_temp@), p0,
                *pres as int);
            acc = acc.push(Val::Cn(rv_tst_temp@));
        }
        let ghost off0 = *off as int;
        let ghost p0 = *pres as int;
        if *off < bytes.len() {
            *pres = 21;
        }
        let rv_user_txt = match rd_cn(bytes, off, e, true) {
            Ok(v) => v,
            Err(er) => {
                proof {
                    lemma_read_step_none(s, e, fs, 20, fd(FieldKind::KCn, d_cn(true)), off0, acc);
                }
                return Err(er);
            },
        };
        proof {
            lemma_read_step(s, e, fs, 20, fd(FieldKind::KCn, d_cn(true)), off0, *off as int, acc, Val::Cn(rv_user_txt@));
            lemma_pres_step(s, e, fs, 20, fd(FieldKind::KCn, d_cn(true)), off0, *off as int, acc, Val::Cn(rv_user_txt@), p0,
                *pres as int);
            acc = acc.push(Val::Cn(rv_user_txt@));
        }
        Ok((rv_sblot_id, rv_oper_nam, rv_exec_typ, rv_exec_ver, rv_test_cod, rv_tst_temp, rv_user_txt))
    }

    /// Reads fields 21 .. 28 of the record.
    #[verifier::rlimit(100)]
    #[verifier::spinoff_prover]
    fn read_seg3(
        bytes: &[u8],
        off: &mut usize,
        pres: &mut usize,
        e: Endian,
        Ghost(acc0): Ghost<Seq<Val>>,
    ) -> (r: Result<(Vec<u8>, Vec<u8>, Vec<u8>, Vec<u8>, Vec<u8>, Vec<u8>, Vec<u8>), StdfError>)
        requires
            *old(off) <= bytes@.len(),
            *old(pres) <= 21,
            acc0.len() == 21,
            sdecode(bytes@, e, Self::fields()) == sdecode_from(
                bytes@, e, Self::fields(), 21, *old(off) as int, acc0,
            ),
            spres_inv(bytes@, e, Self::fields(), 21, *old(off) as int, acc0,
                *old(pres) as int),
        ensures
            *final(off) <= bytes@.len(),
            *final(pres) <= 28,
            match r {
                Ok(t) => sdecode(bytes@, e, Self::fields()) == sdecode_from(
                    bytes@, e, Self::fields(), 28, *final(off) as int,
                    acc0.push(Val::Cn(t.0@)).push(Val::Cn(t.1@)).push(Val::Cn(t.2@)).push(Val::Cn(t.3@)).push(Val::Cn(t.4@)).push(Val::Cn(t.5@)).push(Val::Cn(t.6@)),
                ) && spres_inv(bytes@, e, Self::fields(), 28, *final(off) as int,
                    acc0.push(Val::Cn(t.0@)).push(Val::Cn(t.1@)).push(Val::Cn(t.2@)).push(Val::Cn(t.3@)).push(Val::Cn(t.4@)).push(Val::Cn(t.5@)).push(Val::Cn(t.6@)),
                    *final(pres) as int,
                ),
                Err(_) => sdecode(bytes@, e, Self::fields()) is None,
            },
    {
        let ghost s = bytes@;
        let ghost fs = Self::fields();
        let ghost mut acc = acc0;
        let ghost off0 = *off as int;
        let ghost p0 = *pres as int;
        if *off < bytes.len() {
            *pres = 22;
        }
        let rv_aux_file = match rd_cn(bytes, off, e, true) {
            Ok(v) => v,
            Err(er) => {
                proof {
                    lemma_read_step_none(s, e, fs, 21, fd(FieldKind::KCn, d_cn(true)), off0, acc);
                }
                return Err(er);
            },
        };
        proof {
            lemma_read_step(s, e, fs, 21, fd(FieldKind::KCn, d_cn(true)), off0, *off as int, acc, Val::Cn(rv_aux_file@));
            lemma_pres_step(s, e, fs, 21, fd(FieldKind::KCn, d_cn(true)), off0, *off as int, acc, Val::Cn(rv_aux_file@), p0,
                *pres as int);
            acc = acc.push(Val::Cn(rv_aux_file@));
        }
        let ghost off0 = *off as int;
        let ghost p0 = *pres as int;
        if *off < bytes.len() {
            *pres = 23;
        }
        let rv_pkg_typ = match rd_cn(bytes, off, e, true) {
            Ok(v) => v,
            Err(er) => {
                proof {
                    lemma_read_step_none(s, e, fs, 22, fd(FieldKind::KCn, d_cn(true)), off0, acc);
                }
                return Err(er);
            },
        };
        proof {
            lemma_read_step(s, e, fs, 22, fd(FieldKind::KCn, d_cn(true)), off0, *off as int, acc, Val::Cn(rv_pkg_typ@));
            lemma_pres_step(s, e, fs, 22, fd(FieldKind::KCn, d_cn(true)), off0, *off as int, acc, Val::Cn(rv_pkg_typ@), p0,
                *pres as int);
            acc = acc.push(Val::Cn(rv_pkg_typ@));
        }
        let ghost off0 = *off as int;
        let ghost p0 = *pres as int;
        if *off < bytes.len() {
            *pres = 24;
        }
        let rv_famly_id = match rd_cn(bytes, off, e, true) {
            Ok(v) => v,
            Err(er) => {
                proof {
                    lemma_read_step_none(s, e, fs, 23, fd(FieldKind::KCn, d_cn(true)), off0, acc);
                }
                return Err(er);
            },
        };
        proof {
            lemma_read_step(s, e, fs, 23, fd(FieldKind::KCn, d_cn(true)), off0, *off as int, acc, Val::Cn(rv_famly_id@));
            lemma_pres_step(s, e, fs, 23, fd(FieldKind::KCn, d_cn(true)), off0, *off as int, acc, Val::Cn(rv_famly_id@), p0,
                *pres as int);
            acc = acc.push(Val::Cn(rv_famly_id@));
        }
        let ghost off0 = *off as int;
        let ghost p0 = *pres as int;
        if *off < bytes.len() {
            *pres = 25;
        }
        let rv_date_cod = match rd_cn(bytes, off, e, true) {
            Ok(v) => v,
            Err(er) => {
                proof {
                    lemma_read_step_none(s, e, fs, 24, fd(FieldKind::KCn, d_cn(true)), off0, acc);
                }
                return Err(er);
            },
        };
        proof {
            lemma_read_step(s, e, fs, 24, fd(FieldKind::KCn, d_cn(true)), off0, *off as int, acc, Val::Cn(rv_date_cod@));
            lemma_pres_step(s, e, fs, 24, fd(FieldKind::KCn, d_cn(true)), off0, *off as int, acc, Val::Cn(rv_date_cod@), p0,
                *pres as int);
            acc = acc.push(Val::Cn(rv_date_cod@));
        }
        let ghost off0 = *off as int;
        let ghost p0 = *pres as int;
        if *off < bytes.len() {
            *pres = 26;
        }
        let rv_facil_id = match rd_cn(bytes, off, e, true) {
            Ok(v) => v,
            Err(er) => {
                proof {
                    lemma_read_step_none(s, e, fs, 25, fd(FieldKind::KCn, d_cn(true)), off0, acc);
                }
                return Err(er);
            },
        };
        proof {
            lemma_read_step(s, e, fs, 25, fd(FieldKind::KCn, d_cn(true)), off0, *off as int, acc, Val::Cn(rv_facil_id@));
            lemma_pres_step(s, e, fs, 25, fd(FieldKind::KCn, d_cn(true)), off0, *off as int, acc, Val::Cn(rv_facil_id@), p0,
                *pres as int);
            acc = acc.push(Val::Cn(rv_facil_id@));
        }
        let ghost off0 = *off as int;
        let ghost p0 = *pres as int;
        if *off < bytes.len() {
            *pres = 27;
        }
        let rv_floor_id = match rd_cn(bytes, off, e, true) {
            Ok(v) => v,
            Err(er) => {
                proof {
                    lemma_read_step_none(s, e, fs, 26, fd(FieldKind::KCn, d_cn(true)), off0, acc);
                }
                return Err(er);
            },
        };
        proof {
            lemma_read_step(s, e, fs, 26, fd(FieldKind::KCn, d_cn(true)), off0, *off as int, acc, Val::Cn(rv_floor_id@));
            lemma_pres_step(s, e, fs, 26, fd(FieldKind::KCn, d_cn(true)), off0, *off as int, acc, Val::Cn(rv_floor_id@), p0,
                *pres as int);
            acc = acc.push(Val::Cn(rv_floor_id@));
        }
        let ghost off0 = *off as int;
        let ghost p0 = *pres as int;
        if *off < bytes.len() {
            *pres = 28;
        }
        let rv_proc_id = match rd_cn(bytes, off, e, true) {
            Ok(v) => v,
            Err(er) => {
                proof {
                    lemma_read_step_none(s, e, fs, 27, fd(FieldKind::KCn, d_cn(true)), off0, acc);
                }
                return Err(er);
            },
        };
        proof {
            lemma_read_step(s, e, fs, 27, fd(FieldKind::KCn, d_cn(true)), off0, *off as int, acc, Val::Cn(rv_proc_id@));
            lemma_pres_step(s, e, fs, 27, fd(FieldKind::KCn, d_cn(true)), off0, *off as int, acc, Val::Cn(rv_proc_id@), p0,
                *pres as int);
            acc = acc.push(Val::Cn(rv_proc_id@));
        }
        Ok((rv_aux_file, rv_pkg_typ, rv_famly_id, rv_date_cod, rv_facil_id, rv_floor_id, rv_proc_id))
    }

    /// Reads fields 28 .. 35 of the record.
    #[verifier::rlimit(100)]
    #[verifier::spinoff_prover]
    fn read_seg4(
        bytes: &[u8],
        off: &mut usize,
        pres: &mut usize,
        e: Endian,
        Ghost(acc0): Ghost<Seq<Val>>,
    ) -> (r: Result<(Vec<u8>, Vec<u8>, Vec<u8>, Vec<u8>, Vec<u8>, Vec<u8>, Vec<u8>), StdfError>)
        requires
            *old(off) <= bytes@.len(),
            *old(pres) <= 28,
            acc0.len() == 28,
            sdecode(bytes@, e, Self::fields()) == sdecode_from(
                bytes@, e, Self::fields(), 28, *old(off) as int, acc0,
            ),
            spres_inv(bytes@, e, Self::fields(), 28, *old(off) as int, acc0,
                *old(pres) as int),
        ensures
            *final(off) <= bytes@.len(),
            *final(pres) <= 35,
            match r {
                Ok(t) => sdecode(bytes@, e, Self::fields()) == sdecode_from(
                    bytes@, e, Self::fields(), 35, *final(off) as int,
                    acc0.push(Val::Cn(t.0@)).push(Val::Cn(t.1@)).push(Val::Cn(t.2@)).push(Val::Cn(t.3@)).push(Val::Cn(t.4@)).push(Val::Cn(t.5@)).push(Val::Cn(t.6@)),
                ) && spres_inv(bytes@, e, Self::fields(), 35, *final(off) as int,
                    acc0.push(Val::Cn(t.0@)).push(Val::Cn(t.1@)).push(Val::Cn(t.2@)).push(Val::Cn(t.3@)).push(Val::Cn(t.4@)).push(Val::Cn(t.5@)).push(Val::Cn(t.6@)),
                    *final(pres) as int,
                ),
                Err(_) => sdecode(bytes@, e, Self::fields()) is None,
            },
    {
        let ghost s = bytes@;
        let ghost fs = Self::fields();
        let ghost mut acc = acc0;
        let ghost off0 = *off as int;
        let ghost p0 = *pres as int;
        if *off < bytes.len() {
            *pres = 29;
        }
        let rv_oper_frq = match rd_cn(bytes, off, e, true) {
            Ok(v) => v,
            Err(er) => {
                proof {
                    lemma_read_step_none(s, e, fs, 28, fd(FieldKind::KCn, d_cn(true)), off0, acc);
                }
                return Err(er);
            },
        };
        proof {
            lemma_read_step(s, e, fs, 28, fd(FieldKind::KCn, d_cn(true)), off0, *off as int, acc, Val::Cn(rv_oper_frq@));
            lemma_pres_step(s, e, fs, 28, fd(FieldKind::KCn, d_cn(true)), off0, *off as int, acc, Val::Cn(rv_oper_frq@), p0,
                *pres as int);
            acc = acc.push(Val::Cn(rv_oper_frq@));
        }
        let ghost off0 = *off as int;
        let ghost p0 = *pres as int;
        if *off < bytes.len() {
            *pres = 30;
        }
        let rv_spec_nam = match rd_cn(bytes, off, e, true) {
            Ok(v) => v,
            Err(er) => {
                proof {
                    lemma_read_step_none(s, e, fs, 29, fd(FieldKind::KCn, d_cn(true)), off0, acc);
                }
                return Err(er);
            },
        };
        proof {
            lemma_read_step(s, e, fs, 29, fd(FieldKind::KCn, d_cn(true)), off0, *off as int, acc, Val::Cn(rv_spec_nam@));
            lemma_pres_step(s, e, fs, 29, fd(FieldKind::KCn, d_cn(true)), off0, *off as int, acc, Val::Cn(rv_spec_nam@), p0,
                *pres as int);
            acc = acc.push(Val::Cn(rv_spec_nam@));
        }
        let ghost off0 = *off as int;
        let ghost p0 = *pres as int;
        if *off < bytes.len() {
            *pres = 31;
        }
        let rv_spec_ver = match rd_cn(bytes, off, e, true) {
            Ok(v) => v,
            Err(er) => {
                proof {
                    lemma_read_step_none(s, e, fs, 30, fd(FieldKind::KCn, d_cn(true)), off0, acc);
                }
                return Err(er);
            },
        };
        proof {
            lemma_read_step(s, e, fs, 30, fd(FieldKind::KCn, d_cn(true)), off0, *off as int, acc, Val::Cn(rv_spec_ver@));
            lemma_pres_step(s, e, fs, 30, fd(FieldKind::KCn, d_cn(true)), off0, *off as int, acc, Val::Cn(rv_spec_ver@), p0,
                *pres as int);
            acc = acc.push(Val::Cn(rv_spec_ver@));
        }
        let ghost off0 = *off as int;
        let ghost p0 = *pres as int;
        if *off < bytes.len() {
            *pres = 32;
        }
        let rv_flow_id = match rd_cn(bytes, off, e, true) {
            Ok(v) => v,
            Err(er) => {
                proof {
                    lemma_read_step_none(s, e, fs, 31, fd(FieldKind::KCn, d_cn(true)), off0, acc);
                }
                return Err(er);
            },
        };
        proof {
            lemma_read_step(s, e, fs, 31, fd(FieldKind::KCn, d_cn(true)), off0, *off as int, acc, Val::Cn(rv_flow_id@));
            lemma_pres_step(s, e, fs, 31, fd(FieldKind::KCn, d_cn(true)), off0, *off as int, acc, Val::Cn(rv_flow_id@), p0,
                *pres as int);
            acc = acc.push(Val::Cn(rv_flow_id@));
        }
        let ghost off0 = *off as int;
        let ghost p0 = *pres as int;
        if *off < bytes.len() {
            *pres = 33;
        }
        let rv_setup_id = match rd_cn(bytes, off, e, true) {
            Ok(v) => v,
            Err(er) => {
                proof {
                    lemma_read_step_none(s, e, fs, 32, fd(FieldKind::KCn, d_cn(true)), off0, acc);
                }
                return Err(er);
            },
        };
        proof {
            lemma_read_step(s, e, fs, 32, fd(FieldKind::KCn, d_cn(true)), off0, *off as int, acc, Val::Cn(rv_setup_id@));
            lemma_pres_step(s, e, fs, 32, fd(FieldKind::KCn, d_cn(true)), off0, *off as int, acc, Val::Cn(rv_setup_id@), p0,
                *pres as int);
            acc = acc.push(Val::Cn(rv_setup_id@));
        }
        let ghost off0 = *off as int;
        let ghost p0 = *pres as int;
        if *off < bytes.len() {
            *pres = 34;
        }
        let rv_dsgn_rev = match rd_cn(bytes, off, e, true) {
            Ok(v) => v,
            Err(er) => {
                proof {
                    lemma_read_step_none(s, e, fs, 33, fd(FieldKind::KCn, d_cn(true)), off0, acc);
                }
                return Err(er);
            },
        };
        proof {
            lemma_read_step(s, e, fs, 33, fd(FieldKind::KCn, d_cn(true)), off0, *off as int, acc, Val::Cn(rv_dsgn_rev@));
            lemma_pres_step(s, e, fs, 33, fd(FieldKind::KCn, d_cn(true)), off0, *off as int, acc, Val::Cn(rv_dsgn_rev@), p0,
                *pres as int);
            acc = acc.push(Val::Cn(rv_dsgn_rev@));
        }
        let ghost off0 = *off as int;
        let ghost p0 = *pres as int;
        if *off < bytes.len() {
            *pres = 35;
        }
        let rv_eng_id = match rd_cn(bytes, off, e, true) {
            Ok(v) => v,
            Err(er) => {
                proof {
                    lemma_read_step_none(s, e, fs, 34, fd(FieldKind::KCn, d_cn(true)), off0, acc);
                }
                return Err(er);
            },
        };
        proof {
            lemma_read_step(s, e, fs, 34, fd(FieldKind::KCn, d_cn(true)), off0, *off as int, acc, Val::Cn(rv_eng_id@));
            lemma_pres_step(s, e, fs, 34, fd(FieldKind::KCn, d_cn(true)), off0, *off as int, acc, Val::Cn(rv_eng_id@), p0,
                *pres as int);
            acc = acc.push(Val::Cn(rv_eng_id@));
        }
        Ok((rv_oper_frq, rv_spec_nam, rv_spec_ver, rv_flow_id, rv_setup_id, rv_dsgn_rev, rv_eng_id))
    }

    /// Reads fields 35 .. 38 of the record.
    #[verifier::rlimit(100)]
    #[verifier::spinoff_prover]
    fn read_seg5(
        bytes: &[u8],
        off: &mut usize,
        pres: &mut usize,
        e: Endian,
        Ghost(acc0): Ghost<Seq<Val>>,
    ) -> (r: Result<(Vec<u8>, Vec<u8>, Vec<u8>), StdfError>)
        requires
            *old(off) <= bytes@.len(),
            *old(pres) <= 35,
            acc0.len() == 35,
            sdecode(bytes@, e, Self::fields()) == sdecode_from(
                bytes@, e, Self::fields(), 35, *old(off) as int, acc0,
            ),
            spres_inv(bytes@, e, Self::fields(), 35, *old(off) as int, acc0,
                *old(pres) as int),
        ensures
            *final(off) <= bytes@.len(),
            *final(pres) <= 38,
            match r {
                Ok(t) => sdecode(bytes@, e, Self::fields()) == sdecode_from(
                    bytes@, e, Self::fields(), 38, *final(off) as int,
                    acc0.push(Val::Cn(t.0@)).push(Val::Cn(t.1@)).push(Val::Cn(t.2@)),
                ) && spres_inv(bytes@, e, Self::fields(), 38, *final(off) as int,
                    acc0.push(Val::Cn(t.0@)).push(Val::Cn(t.1@)).push(Val::Cn(t.2@)),
                    *final(pres) as int,
                ),
                Err(_) => sdecode(bytes@, e, Self::fields()) is None,
            },
    {
        let ghost s = bytes@;
        let ghost fs = Self::fields();
        let ghost mut acc = acc0;
        let ghost off0 = *off as int;
        let ghost p0 = *pres as int;
        if *off < bytes.len() {
            *pres = 36;
        }
        let rv_rom_cod = match rd_cn(bytes, off, e, true) {
            Ok(v) => v,
            Err(er) => {
                proof {
                    lemma_read_step_none(s, e, fs, 35, fd(FieldKind::KCn, d_cn(true)), off0, acc);
                }
                return Err(er);
            },
        };
        proof {
            lemma_read_step(s, e, fs, 35, fd(FieldKind::KCn, d_cn(true)), off0, *off as int, acc, Val::Cn(rv_rom_cod@));
            lemma_pres_step(s, e, fs, 35, fd(FieldKind::KCn, d_cn(true)), off0, *off as int, acc, Val::Cn(rv_rom_cod@), p0,
                *pres as int);
            acc = acc.push(Val::Cn(rv_rom_cod@));
        }
        let ghost off0 = *off as int;
        let ghost p0 = *pres as int;
        if *off < bytes.len() {
            *pres = 37;
        }
        let rv_serl_num = match rd_cn(bytes, off, e, true) {
            Ok(v) => v,
            Err(er) => {
                proof {
                    lemma_read_step_none(s, e, fs, 36, fd(FieldKind::KCn, d_cn(true)), off0, acc);
                }
                return Err(er);
            },
        };
        proof {
            lemma_read_step(s, e, fs, 36, fd(FieldKind::KCn, d_cn(true)), off0, *off as int, acc, Val::Cn(rv_serl_num@));
            lemma_pres_step(s, e, fs, 36, fd(FieldKind::KCn, d_cn(true)), off0, *off as int, acc, Val::Cn(rv_serl_num@), p0,
                *pres as int);
            acc = acc.push(Val::Cn(rv_serl_num@));
        }
        let ghost off0 = *off as int;
        let ghost p0 = *pres as int;
        if *off < bytes.len() {
            *pres = 38;
        }
        let rv_supr_nam = match rd_cn(bytes, off, e, true) {
            Ok(v) => v,
            Err(er) => {
                proof {
                    lemma_read_step_none(s, e, fs, 37, fd(FieldKind::KCn, d_cn(true)), off0, acc);
                }
                return Err(er);
            },
        };
        proof {
            lemma_read_step(s, e, fs, 37, fd(FieldKind::KCn, d_cn(true)), off0, *off as int, acc, Val::Cn(rv_supr_nam@));
            lemma_pres_step(s, e, fs, 37, fd(FieldKind::KCn, d_cn(true)), off0, *off as int, acc, Val::Cn(rv_supr_nam@), p0,
                *pres as int);
            acc = acc.push(Val::Cn(rv_supr_nam@));
        }
        Ok((rv_rom_cod, rv_serl_num, rv_supr_nam))
    }

    /// Decodes a record payload: fields in declaration order, trailing
    /// absent fields at their defaults.
    #[verifier::rlimit(100)]
    #[verifier::spinoff_prover]
    pub fn read(bytes: &[u8], e: Endian) -> (r: Result<MIR, StdfError>)
        ensures
            match r {
                Ok(rec) => sdecode(bytes@, e, Self::fields()) == Some(rec.val_seq())
                    && rec.wf() && rec.present as int == spres(bytes@, e, Self::fields()),
                Err(_) => sdecode(bytes@, e, Self::fields()) is None,
            },
    {
        let ghost s = bytes@;
        let ghost fs = Self::fields();
        let mut off: usize = 0;
        let mut pres: usize = 0;
        proof {
            lemma_read_begin(s, e, fs);
            lemma_pres_begin(s, e, fs);
        }
        let ghost acc_0 = Seq::<Val>::empty();
        let t0 = match Self::read_seg0(bytes, &mut off, &mut pres, e, Ghost(acc_0)) {
            Ok(t) => t,
            Err(er) => {
                return Err(er);
            },
        };
        let ghost acc_1 = acc_0.push(Val::U4(t0.0)).push(Val::U4(t0.1)).push(Val::U1(t0.2)).push(Val::U1(t0.3)).push(Val::U1(t0.4)).push(Val::U1(t0.5)).push(Val::U2(t0.6));
        let t1 = match Self::read_seg1(bytes, &mut off, &mut pres, e, Ghost(acc_1)) {
            Ok(t) => t,
            Err(er) => {
                return Err(er);
            },
        };
        let ghost acc_2 = acc_1.push(Val::U1(t1.0)).push(Val::Cn(t1.1@)).push(Val::Cn(t1.2@)).push(Val::Cn(t1.3@)).push(Val::Cn(t1.4@)).push(Val::Cn(t1.5@)).push(Val::Cn(t1.6@));
        let t2 = match Self::read_seg2(bytes, &mut off, &mut pres, e, Ghost(acc_2)) {
            Ok(t) => t,
            Err(er) => {
                return Err(er);
            },
        };
        let ghost acc_3 = acc_2.push(Val::Cn(t2.0@)).push(Val::Cn(t2.1@)).push(Val::Cn(t2.2@)).push(Val::Cn(t2.3@)).push(Val::Cn(t2.4@)).push(Val::Cn(t2.5@)).push(Val::Cn(t2.6@));
        let t3 = match Self::read_seg3(bytes, &mut off, &mut pres, e, Ghost(acc_3)) {
            Ok(t) => t,
            Err(er) => {
                return Err(er);
            },
        };
        let ghost acc_4 = acc_3.push(Val::Cn(t3.0@)).push(Val::Cn(t3.1@)).push(Val::Cn(t3.2@)).push(Val::Cn(t3.3@)).push(Val::Cn(t3.4@)).push(Val::Cn(t3.5@)).push(Val::Cn(t3.6@));
        let t4 = match Self::read_seg4(bytes, &mut off, &mut pres, e, Ghost(acc_4)) {
            Ok(t) => t,
            Err(er) => {
                return Err(er);
            },
        };
        let ghost acc_5 = acc_4.push(Val::Cn(t4.0@)).push(Val::Cn(t4.1@)).push(Val::Cn(t4.2@)).push(Val::Cn(t4.3@)).push(Val::Cn(t4.4@)).push(Val::Cn(t4.5@)).push(Val::Cn(t4.6@));
        let t5 = match Self::read_seg5(bytes, &mut off, &mut pres, e, Ghost(acc_5)) {
            Ok(t) => t,
            Err(er) => {
                return Err(er);
            },
        };
        let ghost acc_6 = acc_5.push(Val::Cn(t5.0@)).push(Val::Cn(t5.1@)).push(Val::Cn(t5.2@));
        let rec = MIR {
            setup_t: U4E(t0.0),
            start_t: U4E(t0.1),
            stat_num: U1(t0.2),
            mode_cod: C1(t0.3),
            rtst_cod: C1(t0.4),
            prot_cod: C1(t0.5),
            burn_tim: U2(t0.6),
            cmod_cod: C1(t1.0),
            lot_id: Cn(t1.1),
            part_typ: Cn(t1.2),
            node_nam: Cn(t1.3),
            tstr_typ: Cn(t1.4),
            job_nam: Cn(t1.5),
            job_rev: Cn(t1.6),
            sblot_id: Cn(t2.0),
            oper_nam: Cn(t2.1),
            exec_typ: Cn(t2.2),
            exec_ver: Cn(t2.3),
            test_cod: Cn(t2.4),
            tst_temp: Cn(t2.5),
            user_txt: Cn(t2.6),
            aux_file: Cn(t3.0),
            pkg_typ: Cn(t3.1),
            famly_id: Cn(t3.2),
            date_cod: Cn(t3.3),
            facil_id: Cn(t3.4),
            floor_id: Cn(t3.5),
            proc_id: Cn(t3.6),
            oper_frq: Cn(t4.0),
            spec_nam: Cn(t4.1),
            spec_ver: Cn(t4.2),
            flow_id: Cn(t4.3),
            setup_id: Cn(t4.4),
            dsgn_rev: Cn(t4.5),
            eng_id: Cn(t4.6),
            rom_cod: Cn(t5.0),
            serl_num: Cn(t5.1),
            supr_nam: Cn(t5.2),
            present: pres,
        };
        proof {
            lemma_read_end(s, e, fs, off as int, acc_6);
            lemma_pres_end(s, e, fs, off as int, acc_6, pres as int);
            Self::lemma_val_seq_unfold(rec);
            lemma_sdecode_match(s, e, fs);
        }
        Ok(rec)
    }

    /// The field values, written out as the pushes the decoder makes.
    #[verifier::rlimit(100)]
    #[verifier::spinoff_prover]
    proof fn lemma_val_seq_unfold(rec: MIR)
        ensures
            rec.val_seq() == Seq::<Val>::empty()
                .push(Val::U4(rec.setup_t.0))
                .push(Val::U4(rec.start_t.0))
                .push(Val::U1(rec.stat_num.0))
                .push(Val::U1(rec.mode_cod.0))
                .push(Val::U1(rec.rtst_cod.0))
                .push(Val::U1(rec.prot_cod.0))
                .push(Val::U2(rec.burn_tim.0))
                .push(Val::U1(rec.cmod_cod.0))
                .push(Val::Cn(rec.lot_id.0@))
                .push(Val::Cn(rec.part_typ.0@))
                .push(Val::Cn(rec.node_nam.0@))
                .push(Val::Cn(rec.tstr_typ.0@))
                .push(Val::Cn(rec.job_nam.0@))
                .push(Val::Cn(rec.job_rev.0@))
                .push(Val::Cn(rec.sblot_id.0@))
                .push(Val::Cn(rec.oper_nam.0@))
                .push(Val::Cn(rec.exec_typ.0@))
                .push(Val::Cn(rec.exec_ver.0@))
                .push(Val::Cn(rec.test_cod.0@))
                .push(Val::Cn(rec.tst_temp.0@))
                .push(Val::Cn(rec.user_txt.0@))
                .push(Val::Cn(rec.aux_file.0@))
                .push(Val::Cn(rec.pkg_typ.0@))
                .push(Val::Cn(rec.famly_id.0@))
                .push(Val::Cn(rec.date_cod.0@))
                .push(Val::Cn(rec.facil_id.0@))
                .push(Val::Cn(rec.floor_id.0@))
                .push(Val::Cn(rec.proc_id.0@))
                .push(Val::Cn(rec.oper_frq.0@))
                .push(Val::Cn(rec.spec_nam.0@))
                .push(Val::Cn(rec.spec_ver.0@))
                .push(Val::Cn(rec.flow_id.0@))
                .push(Val::Cn(rec.setup_id.0@))
                .push(Val::Cn(rec.dsgn_rev.0@))
                .push(Val::Cn(rec.eng_id.0@))
                .push(Val::Cn(rec.rom_cod.0@))
                .push(Val::Cn(rec.serl_num.0@))
                .push(Val::Cn(rec.supr_nam.0@))
            ,
    {
        assert(rec.val_seq() =~= Seq::<Val>::empty()
            .push(Val::U4(rec.setup_t.0))
            .push(Val::U4(rec.start_t.0))
            .push(Val::U1(rec.stat_num.0))
            .push(Val::U1(rec.mode_cod.0))
            .push(Val::U1(rec.rtst_cod.0))
            .push(Val::U1(rec.prot_cod.0))
            .push(Val::U2(rec.burn_tim.0))
            .push(Val::U1(rec.cmod_cod.0))
            .push(Val::Cn(rec.lot_id.0@))
            .push(Val::Cn(rec.part_typ.0@))
            .push(Val::Cn(rec.node_nam.0@))
            .push(Val::Cn(rec.tstr_typ.0@))
            .push(Val::Cn(rec.job_nam.0@))
            .push(Val::Cn(rec.job_rev.0@))
            .push(Val::Cn(rec.sblot_id.0@))
            .push(Val::Cn(rec.oper_nam.0@))
            .push(Val::Cn(rec.exec_typ.0@))
            .push(Val::Cn(rec.exec_ver.0@))
            .push(Val::Cn(rec.test_cod.0@))
            .push(Val::Cn(rec.tst_temp.0@))
            .push(Val::Cn(rec.user_txt.0@))
            .push(Val::Cn(rec.aux_file.0@))
            .push(Val::Cn(rec.pkg_typ.0@))
            .push(Val::Cn(rec.famly_id.0@))
            .push(Val::Cn(rec.date_cod.0@))
            .push(Val::Cn(rec.facil_id.0@))
            .push(Val::Cn(rec.floor_id.0@))
            .push(Val::Cn(rec.proc_id.0@))
            .push(Val::Cn(rec.oper_frq.0@))
            .push(Val::Cn(rec.spec_nam.0@))
            .push(Val::Cn(rec.spec_ver.0@))
            .push(Val::Cn(rec.flow_id.0@))
            .push(Val::Cn(rec.setup_id.0@))
            .push(Val::Cn(rec.dsgn_rev.0@))
            .push(Val::Cn(rec.eng_id.0@))
            .push(Val::Cn(rec.rom_cod.0@))
            .push(Val::Cn(rec.serl_num.0@))
            .push(Val::Cn(rec.supr_nam.0@))
        );
    }

    /// Appends the payload encoding of the record to a buffer.
    #[verifier::rlimit(100)]
    #[verifier::spinoff_prover]
    pub fn write(&self, out: &mut Vec<u8>, e: Endian)
        requires
            self.wf(),
        ensures
            final(out)@ == old(out)@ + self.enc(e),
    {
        let ghost vs = self.val_seq();
        let ghost kk = self.present as int;
        let keep = self.present;
        proof {
            assert(0 <= kk <= 38);
            lemma_write_begin(e, vs, old(out)@);
        }
        let ghost mid = out@;
        if keep > 0 {
            wr_u4(out, e, self.setup_t.0);
            proof {
                assert(vs[0] == Val::U4(self.setup_t.0));
                lemma_write_step(e, vs, 0, old(out)@, mid, out@);
            }
        }
        proof {
            assert(out@ == old(out)@ + enc_vals(e, vs.take(
                if kk > 0 {
                    1int
                } else {
                    kk
                },
            )));
        }
        let ghost mid = out@;
        if keep > 1 {
            wr_u4(out, e, self.start_t.0);
            proof {
                assert(vs[1] == Val::U4(self.start_t.0));
                lemma_write_step(e, vs, 1, old(out)@, mid, out@);
            }
        }
        proof {
            assert(out@ == old(out)@ + enc_vals(e, vs.take(
                if kk > 1 {
                    2int
                } else {
                    kk
                },
            )));
        }
        let ghost mid = out@;
        if keep > 2 {
            wr_u1(out, self.stat_num.0);
            proof {
                assert(vs[2] == Val::U1(self.stat_num.0));
                lemma_write_step(e, vs, 2, old(out)@, mid, out@);
            }
        }
        proof {
            assert(out@ == old(out)@ + enc_vals(e, vs.take(
                if kk > 2 {
                    3int
                } else {
                    kk
                },
            )));
        }
        let ghost mid = out@;
        if keep > 3 {
            wr_u1(out, self.mode_cod.0);
            proof {
                assert(vs[3] == Val::U1(self.mode_cod.0));
                lemma_write_step(e, vs, 3, old(out)@, mid, out@);
            }
        }
        proof {
            assert(out@ == old(out)@ + enc_vals(e, vs.take(
                if kk > 3 {
                    4int
                } else {
                    kk
                },
            )));
        }
        let ghost mid = out@;
        if keep > 4 {
            wr_u1(out, self.rtst_cod.0);
            proof {
                assert(vs[4] == Val::U1(self.rtst_cod.0));
                lemma_write_step(e, vs, 4, old(out)@, mid, out@);
            }
        }
        proof {
            assert(out@ == old(out)@ + enc_vals(e, vs.take(
                if kk > 4 {
                    5int
                } else {
                    kk
                },
            )));
        }
        let ghost mid = out@;
        if keep > 5 {
            wr_u1(out, self.prot_cod.0);
            proof {
                assert(vs[5] == Val::U1(self.prot_cod.0));
                lemma_write_step(e, vs, 5, old(out)@, mid, out@);
            }
        }
        proof {
            assert(out@ == old(out)@ + enc_vals(e, vs.take(
                if kk > 5 {
                    6int
                } else {
                    kk
                },
            )));
        }
        let ghost mid = out@;
        if keep > 6 {
            wr_u2(out, e, self.burn_tim.0);
            proof {
                assert(vs[6] == Val::U2(self.burn_tim.0));
                lemma_write_step(e, vs, 6, old(out)@, mid, out@);
            }
        }
        proof {
            assert(out@ == old(out)@ + enc_vals(e, vs.take(
                if kk > 6 {
                    7int
                } else {
                    kk
                },
            )));
        }
        let ghost mid = out@;
        if keep > 7 {
            wr_u1(out, self.cmod_cod.0);
            proof {
                assert(vs[7] == Val::U1(self.cmod_cod.0));
                lemma_write_step(e, vs, 7, old(out)@, mid, out@);
            }
        }
        proof {
            assert(out@ == old(out)@ + enc_vals(e, vs.take(
                if kk > 7 {
                    8int
                } else {
                    kk
                },
            )));
        }
        let ghost mid = out@;
        if keep > 8 {
            proof {
                assert(val_matches_at(Self::fields(), vs, 8));
            }
            wr_cn(out, self.lot_id.0.as_slice());
            proof {
                assert(vs[8] == Val::Cn(self.lot_id.0@));
                lemma_write_step(e, vs, 8, old(out)@, mid, out@);
            }
        }
        proof {
            assert(out@ == old(out)@ + enc_vals(e, vs.take(
                if kk > 8 {
                    9int
                } else {
                    kk
                },
            )));
        }
        let ghost mid = out@;
        if keep > 9 {
            proof {
                assert(val_matches_at(Self::fields(), vs, 9));
            }
            wr_cn(out, self.part_typ.0.as_slice());
            proof {
                assert(vs[9] == Val::Cn(self.part_typ.0@));
                lemma_write_step(e, vs, 9, old(out)@, mid, out@);
            }
        }
        proof {
            assert(out@ == old(out)@ + enc_vals(e, vs.take(
                if kk > 9 {
                    10int
                } else {
                    kk
                },
            )));
        }
        let ghost mid = out@;
        if keep > 10 {
            proof {
                assert(val_matches_at(Self::fields(), vs, 10));
            }
            wr_cn(out, self.node_nam.0.as_slice());
            proof {
                assert(vs[10] == Val::Cn(self.node_nam.0@));
                lemma_write_step(e, vs, 10, old(out)@, mid, out@);
            }
        }
        proof {
            assert(out@ == old(out)@ + enc_vals(e, vs.take(
                if kk > 10 {
                    11int
                } else {
                    kk
                },
            )));
        }
        let ghost mid = out@;
        if keep > 11 {
            proof {
                assert(val_matches_at(Self::fields(), vs, 11));
            }
            wr_cn(out, self.tstr_typ.0.as_slice());
            proof {
                assert(vs[11] == Val::Cn(self.tstr_typ.0@));
                lemma_write_step(e, vs, 11, old(out)@, mid, out@);
            }
        }
        proof {
            assert(out@ == old(out)@ + enc_vals(e, vs.take(
                if kk > 11 {
                    12int
                } else {
                    kk
                },
            )));
        }
        let ghost mid = out@;
        if keep > 12 {
            proof {
                assert(val_matches_at(Self::fields(), vs, 12));
            }
            wr_cn(out, self.job_nam.0.as_slice());
            proof {
                assert(vs[12] == Val::Cn(self.job_nam.0@));
                lemma_write_step(e, vs, 12, old(out)@, mid, out@);
            }
        }
        proof {
            assert(out@ == old(out)@ + enc_vals(e, vs.take(
                if kk > 12 {
                    13int
                } else {
                    kk
                },
            )));
        }
        let ghost mid = out@;
        if keep > 13 {
            proof {
                assert(val_matches_at(Self::fields(), vs, 13));
            }
            wr_cn(out, self.job_rev.0.as_slice());
            proof {
                assert(vs[13] == Val::Cn(self.job_rev.0@));
                lemma_write_step(e, vs, 13, old(out)@, mid, out@);
            }
        }
        proof {
            assert(out@ == old(out)@ + enc_vals(e, vs.take(
                if kk > 13 {
                    14int
                } else {
                    kk
                },
            )));
        }
        let ghost mid = out@;
        if keep > 14 {
            proof {
                assert(val_matches_at(Self::fields(), vs, 14));
            }
            wr_cn(out, self.sblot_id.0.as_slice());
            proof {
                assert(vs[14] == Val::Cn(self.sblot_id.0@));
                lemma_write_step(e, vs, 14, old(out)@, mid, out@);
            }
        }
        proof {
            assert(out@ == old(out)@ + enc_vals(e, vs.take(
                if kk > 14 {
                    15int
                } else {
                    kk
                },
            )));
        }
        let ghost mid = out@;
        if keep > 15 {
            proof {
                assert(val_matches_at(Self::fields(), vs, 15));
            }
            wr_cn(out, self.oper_nam.0.as_slice());
            proof {
                assert(vs[15] == Val::Cn(self.oper_nam.0@));
                lemma_write_step(e, vs, 15, old(out)@, mid, out@);
            }
        }
        proof {
            assert(out@ == old(out)@ + enc_vals(e, vs.take(
                if kk > 15 {
                    16int
                } else {
                    kk
                },
            )));
        }
        let ghost mid = out@;
        if keep > 16 {
            proof {
                assert(val_matches_at(Self::fields(), vs, 16));
            }
            wr_cn(out, self.exec_typ.0.as_slice());
            proof {
                assert(vs[16] == Val::Cn(self.exec_typ.0@));
                lemma_write_step(e, vs, 16, old(out)@, mid, out@);
            }
        }
        proof {
            assert(out@ == old(out)@ + enc_vals(e, vs.take(
                if kk > 16 {
                    17int
                } else {
                    kk
                },
            )));
        }
        let ghost mid = out@;
        if keep > 17 {
            proof {
                assert(val_matches_at(Self::fields(), vs, 17));
            }
            wr_cn(out, self.exec_ver.0.as_slice());
            proof {
                assert(vs[17] == Val::Cn(self.exec_ver.0@));
                lemma_write_step(e, vs, 17, old(out)@, mid, out@);
            }
        }
        proof {
            assert(out@ == old(out)@ + enc_vals(e, vs.take(
                if kk > 17 {
                    18int
                } else {
                    kk
                },
            )));
        }
        let ghost mid = out@;
        if keep > 18 {
            proof {
                assert(val_matches_at(Self::fields(), vs, 18));
            }
            wr_cn(out, self.test_cod.0.as_slice());
            proof {
                assert(vs[18] == Val::Cn(self.test_cod.0@));
                lemma_write_step(e, vs, 18, old(out)@, mid, out@);
            }
        }
        proof {
            assert(out@ == old(out)@ + enc_vals(e, vs.take(
                if kk > 18 {
                    19int
                } else {
                    kk
                },
            )));
        }
        let ghost mid = out@;
        if keep > 19 {
            proof {
                assert(val_matches_at(Self::fields(), vs, 19));
            }
            wr_cn(out, self.tst_temp.0.as_slice());
            proof {
                assert(vs[19] == Val::Cn(self.tst_temp.0@));
                lemma_write_step(e, vs, 19, old(out)@, mid, out@);
            }
        }
        proof {
            assert(out@ == old(out)@ + enc_vals(e, vs.take(
                if kk > 19 {
                    20int
                } else {
                    kk
                },
            )));
        }
        let ghost mid = out@;
        if keep > 20 {
            proof {
                assert(val_matches_at(Self::fields(), vs, 20));
            }
            wr_cn(out, self.user_txt.0.as_slice());
            proof {
                assert(vs[20] == Val::Cn(self.user_txt.0@));
                lemma_write_step(e, vs, 20, old(out)@, mid, out@);
            }
        }
        proof {
            assert(out@ == old(out)@ + enc_vals(e, vs.take(
                if kk > 20 {
                    21int
                } else {
                    kk
                },
            )));
        }
        let ghost mid = out@;
        if keep > 21 {
            proof {
                assert(val_matches_at(Self::fields(), vs, 21));
            }
            wr_cn(out, self.aux_file.0.as_slice());
            proof {
                assert(vs[21] == Val::Cn(self.aux_file.0@));
                lemma_write_step(e, vs, 21, old(out)@, mid, out@);
            }
        }
        proof {
            assert(out@ == old(out)@ + enc_vals(e, vs.take(
                if kk > 21 {
                    22int
                } else {
                    kk
                },
            )));
        }
        let ghost mid = out@;
        if keep > 22 {
            proof {
                assert(val_matches_at(Self::fields(), vs, 22));
            }
            wr_cn(out, self.pkg_typ.0.as_slice());
            proof {
                assert(vs[22] == Val::Cn(self.pkg_typ.0@));
                lemma_write_step(e, vs, 22, old(out)@, mid, out@);
            }
        }
        proof {
            assert(out@ == old(out)@ + enc_vals(e, vs.take(
                if kk > 22 {
                    23int
                } else {
                    kk
                },
            )));
        }
        let ghost mid = out@;
        if keep > 23 {
            proof {
                assert(val_matches_at(Self::fields(), vs, 23));
            }
            wr_cn(out, self.famly_id.0.as_slice());
            proof {
                assert(vs[23] == Val::Cn(self.famly_id.0@));
                lemma_write_step(e, vs, 23, old(out)@, mid, out@);
            }
        }
        proof {
            assert(out@ == old(out)@ + enc_vals(e, vs.take(
                if kk > 23 {
                    24int
                } else {
                    kk
                },
            )));
        }
        let ghost mid = out@;
        if keep > 24 {
            proof {
                assert(val_matches_at(Self::fields(), vs, 24));
            }
            wr_cn(out, self.date_cod.0.as_slice());
            proof {
                assert(vs[24] == Val::Cn(self.date_cod.0@));
                lemma_write_step(e, vs, 24, old(out)@, mid, out@);
            }
        }
        proof {
            assert(out@ == old(out)@ + enc_vals(e, vs.take(
                if kk > 24 {
                    25int
                } else {
                    kk
                },
            )));
        }
        let ghost mid = out@;
        if keep > 25 {
            proof {
                assert(val_matches_at(Self::fields(), vs, 25));
            }
            wr_cn(out, self.facil_id.0.as_slice());
            proof {
                assert(vs[25] == Val::Cn(self.facil_id.0@));
                lemma_write_step(e, vs, 25, old(out)@, mid, out@);
            }
        }
        proof {
            assert(out@ == old(out)@ + enc_vals(e, vs.take(
                if kk > 25 {
                    26int
                } else {
                    kk
                },
            )));
        }
        let ghost mid = out@;
        if keep > 26 {
            proof {
                assert(val_matches_at(Self::fields(), vs, 26));
            }
            wr_cn(out, self.floor_id.0.as_slice());
            proof {
                assert(vs[26] == Val::Cn(self.floor_id.0@));
                lemma_write_step(e, vs, 26, old(out)@, mid, out@);
            }
        }
        proof {
            assert(out@ == old(out)@ + enc_vals(e, vs.take(
                if kk > 26 {
                    27int
                } else {
                    kk
                },
            )));
        }
        let ghost mid = out@;
        if keep > 27 {
            proof {
                assert(val_matches_at(Self::fields(), vs, 27));
            }
            wr_cn(out, self.proc_id.0.as_slice());
            proof {
                assert(vs[27] == Val::Cn(self.proc_id.0@));
                lemma_write_step(e, vs, 27, old(out)@, mid, out@);
            }
        }
        proof {
            assert(out@ == old(out)@ + enc_vals(e, vs.take(
                if kk > 27 {
                    28int
                } else {
                    kk
                },
            )));
        }
        let ghost mid = out@;
        if keep > 28 {
            proof {
                assert(val_matches_at(Self::fields(), vs, 28));
            }
            wr_cn(out, self.oper_frq.0.as_slice());
            proof {
                assert(vs[28] == Val::Cn(self.oper_frq.0@));
                lemma_write_step(e, vs, 28, old(out)@, mid, out@);
            }
        }
        proof {
            assert(out@ == old(out)@ + enc_vals(e, vs.take(
                if kk > 28 {
                    29int
                } else {
                    kk
                },
            )));
        }
        let ghost mid = out@;
        if keep > 29 {
            proof {
                assert(val_matches_at(Self::fields(), vs, 29));
            }
            wr_cn(out, self.spec_nam.0.as_slice());
            proof {
                assert(vs[29] == Val::Cn(self.spec_nam.0@));
                lemma_write_step(e, vs, 29, old(out)@, mid, out@);
            }
        }
        proof {
            assert(out@ == old(out)@ + enc_vals(e, vs.take(
                if kk > 29 {
                    30int
                } else {
                    kk
                },
            )));
        }
        let ghost mid = out@;
        if keep > 30 {
            proof {
                assert(val_matches_at(Self::fields(), vs, 30));
            }
            wr_cn(out, self.spec_ver.0.as_slice());
            proof {
                assert(vs[30] == Val::Cn(self.spec_ver.0@));
                lemma_write_step(e, vs, 30, old(out)@, mid, out@);
            }
        }
        proof {
            assert(out@ == old(out)@ + enc_vals(e, vs.take(
                if kk > 30 {
                    31int
                } else {
                    kk
                },
            )));
        }
        let ghost mid = out@;
        if keep > 31 {
            proof {
                assert(val_matches_at(Self::fields(), vs, 31));
            }
            wr_cn(out, self.flow_id.0.as_slice());
            proof {
                assert(vs[31] == Val::Cn(self.flow_id.0@));
                lemma_write_step(e, vs, 31, old(out)@, mid, out@);
            }
        }
        proof {
            assert(out@ == old(out)@ + enc_vals(e, vs.take(
                if kk > 31 {
                    32int
                } else {
                    kk
                },
            )));
        }
        let ghost mid = out@;
        if keep > 32 {
            proof {
                assert(val_matches_at(Self::fields(), vs, 32));
            }
            wr_cn(out, self.setup_id.0.as_slice());
            proof {
                assert(vs[32] == Val::Cn(self.setup_id.0@));
                lemma_write_step(e, vs, 32, old(out)@, mid, out@);
            }
        }
        proof {
            assert(out@ == old(out)@ + enc_vals(e, vs.take(
                if kk > 32 {
                    33int
                } else {
                    kk
                },
            )));
        }
        let ghost mid = out@;
        if keep > 33 {
            proof {
                assert(val_matches_at(Self::fields(), vs, 33));
            }
            wr_cn(out, self.dsgn_rev.0.as_slice());
            proof {
                assert(vs[33] == Val::Cn(self.dsgn_rev.0@));
                lemma_write_step(e, vs, 33, old(out)@, mid, out@);
            }
        }
        proof {
            assert(out@ == old(out)@ + enc_vals(e, vs.take(
                if kk > 33 {
                    34int
                } else {
                    kk
                },
            )));
        }
        let ghost mid = out@;
        if keep > 34 {
            proof {
                assert(val_matches_at(Self::fields(), vs, 34));
            }
            wr_cn(out, self.eng_id.0.as_slice());
            proof {
                assert(vs[34] == Val::Cn(self.eng_id.0@));
                lemma_write_step(e, vs, 34, old(out)@, mid, out@);
            }
        }
        proof {
            assert(out@ == old(out)@ + enc_vals(e, vs.take(
                if kk > 34 {
                    35int
                } else {
                    kk
                },
            )));
        }
        let ghost mid = out@;
        if keep > 35 {
            proof {
                assert(val_matches_at(Self::fields(), vs, 35));
            }
            wr_cn(out, self.rom_cod.0.as_slice());
            proof {
                assert(vs[35] == Val::Cn(self.rom_cod.0@));
                lemma_write_step(e, vs, 35, old(out)@, mid, out@);
            }
        }
        proof {
            assert(out@ == old(out)@ + enc_vals(e, vs.take(
                if kk > 35 {
                    36int
                } else {
                    kk
                },
            )));
        }
        let ghost mid = out@;
        if keep > 36 {
            proof {
                assert(val_matches_at(Self::fields(), vs, 36));
            }
            wr_cn(out, self.serl_num.0.as_slice());
            proof {
                assert(vs[36] == Val::Cn(self.serl_num.0@));
                lemma_write_step(e, vs, 36, old(out)@, mid, out@);
            }
        }
        proof {
            assert(out@ == old(out)@ + enc_vals(e, vs.take(
                if kk > 36 {
                    37int
                } else {
                    kk
                },
            )));
        }
        let ghost mid = out@;
        if keep > 37 {
            proof {
                assert(val_matches_at(Self::fields(), vs, 37));
            }
            wr_cn(out, self.supr_nam.0.as_slice());
            proof {
                assert(vs[37] == Val::Cn(self.supr_nam.0@));
                lemma_write_step(e, vs, 37, old(out)@, mid, out@);
            }
        }
        proof {
            assert(out@ == old(out)@ + enc_vals(e, vs.take(
                if kk > 37 {
                    38int
                } else {
                    kk
                },
            )));
        }
        proof {
            assert(out@ == old(out)@ + enc_vals(e, vs.take(kk)));
        }
    }
}

/// MRR: the Master Results Record, with pair (1, 20).
#[derive(Clone, Debug, PartialEq, Eq)]
pub struct MRR {
    pub finish_t: U4E,
    pub disp_cod: C1,
    pub usr_desc: Cn,
    pub exc_desc: Cn,
    /// How many leading fields stood on the wire when the record
    /// was decoded; `write` puts exactly these back.
    pub present: usize,
}

impl MRR {
    /// The field layout of the record: wire kind, default, and for
    /// an array the position of its count field.
    pub open spec fn fields() -> Seq<FieldDef> {
        seq![
            fd(FieldKind::KU4, d_u4(None)),
            fd(FieldKind::KU1, d_u1(Some(0x20u8))),
            fd(FieldKind::KCn, d_cn(true)),
            fd(FieldKind::KCn, d_cn(true)),
        ]
    }

    /// The field values of the record, in declaration order.
    pub open spec fn val_seq(self) -> Seq<Val> {
        seq![
            Val::U4(self.finish_t.0),
            Val::U1(self.disp_cod.0),
            Val::Cn(self.usr_desc.0@),
            Val::Cn(self.exc_desc.0@),
        ]
    }

    /// Well-formedness: every value fits its wire layout, arrays are
    /// as long as their count fields say or stand empty past the
    /// wire, and the on-the-wire count covers at most every field.
    pub open spec fn wf(self) -> bool {
        vals_match(Self::fields(), self.val_seq()) && self.present <= 4
    }

    /// Well-formedness is exactly conformance of the values to the
    /// layout, with the on-the-wire count in bounds.
    pub proof fn lemma_wf_is_match(self)
        ensures
            self.wf() == (vals_match(Self::fields(), self.val_seq()) && self.present
                <= Self::fields().len()),
    {
    }

    /// The payload bytes of the record under a byte order: the
    /// fields that stood on the wire, in declaration order; the
    /// absent tail stays off it.
    pub open spec fn enc(self, e: Endian) -> Seq<u8> {
        enc_vals(e, self.val_seq().take(self.present as int))
    }

    /// Every array that stood on the wire is as long as its count
    /// field says, so the record can be framed back onto it.
    pub open spec fn counts_ok(self) -> bool {
        counts_strict_upto(Self::fields(), self.val_seq(), self.present as int)
    }

    /// Every field past the on-the-wire count holds its declared
    /// default or is empty.
    pub open spec fn tail_absent(self) -> bool {
        forall|i: int|
            self.present <= i < Self::fields().len() ==> #[trigger] suppressible(
                Self::fields()[i],
                self.val_seq()[i],
            )
    }

    /// A record decoded off the wire is framed: its on-the-wire
    /// arrays match their counts and its absent fields hold their
    /// defaults.
    pub proof fn lemma_decoded_shape(self, s: Seq<u8>, e: Endian)
        requires
            sdecode(s, e, Self::fields()) == Some(self.val_seq()),
            self.present as int == spres(s, e, Self::fields()),
        ensures
            self.counts_ok(),
            self.tail_absent(),
    {
        lemma_sdecode_present(s, e, Self::fields());
    }

    /// Decodes a record payload: fields in declaration order, trailing
    /// absent fields at their defaults.
    pub fn read(bytes: &[u8], e: Endian) -> (r: Result<MRR, StdfError>)
        ensures
            match r {
                Ok(rec) => sdecode(bytes@, e, Self::fields()) == Some(rec.val_seq())
                    && rec.wf() && rec.present as int == spres(bytes@, e, Self::fields()),
                Err(_) => sdecode(bytes@, e, Self::fields()) is None,
            },
    {
        let ghost s = bytes@;
        let ghost fs = Self::fields();
        let mut off: usize = 0;
        let mut pres: usize = 0;
        let ghost mut acc = Seq::<Val>::empty();
        proof {
            lemma_read_begin(s, e, fs);
            lemma_pres_begin(s, e, fs);
        }
        let ghost off0 = off as int;
        let ghost p0 = pres as int;
        if off < bytes.len() {
            pres = 1;
        }
        let rv_finish_t = match rd_u4(bytes, &mut off, e, None) {
            Ok(v) => v,
            Err(er) => {
                proof {
                    lemma_read_step_none(s, e, fs, 0, fd(FieldKind::KU4, d_u4(None)), off0, acc);
                }
                return Err(er);
            },
        };
        proof {
            lemma_read_step(s, e, fs, 0, fd(FieldKind::KU4, d_u4(None)), off0, off as int, acc, Val::U4(rv_finish_t));
            lemma_pres_step(s, e, fs, 0, fd(FieldKind::KU4, d_u4(None)), off0, off as int, acc, Val::U4(rv_finish_t), p0,
                pres as int);
            acc = acc.push(Val::U4(rv_finish_t));
        }
        let ghost off0 = off as int;
        let ghost p0 = pres as int;
        if off < bytes.len() {
            pres = 2;
        }
        let rv_disp_cod = match rd_u1(bytes, &mut off, e, Some(0x20u8)) {
            Ok(v) => v,
            Err(er) => {
                proof {
                    lemma_read_step_none(s, e, fs, 1, fd(FieldKind::KU1, d_u1(Some(0x20u8))), off0, acc);
                }
                return Err(er);
            },
        };
        proof {
            lemma_read_step(s, e, fs, 1, fd(FieldKind::KU1, d_u1(Some(0x20u8))), off0, off as int, acc, Val::U1(rv_disp_cod));
            lemma_pres_step(s, e, fs, 1, fd(FieldKind::KU1, d_u1(Some(0x20u8))), off0, off as int, acc, Val::U1(rv_disp_cod), p0,
                pres as int);
            acc = acc.push(Val::U1(rv_disp_cod));
        }
        let ghost off0 = off as int;
        let ghost p0 = pres as int;
        if off < bytes.len() {
            pres = 3;
        }
        let rv_usr_desc = match rd_cn(bytes, &mut off, e, true) {
            Ok(v) => v,
            Err(er) => {
                proof {
                    lemma_read_step_none(s, e, fs, 2, fd(FieldKind::KCn, d_cn(true)), off0, acc);
                }
                return Err(er);
            },
        };
        proof {
            lemma_read_step(s, e, fs, 2, fd(FieldKind::KCn, d_cn(true)), off0, off as int, acc, Val::Cn(rv_usr_desc@));
            lemma_pres_step(s, e, fs, 2, fd(FieldKind::KCn, d_cn(true)), off0, off as int, acc, Val::Cn(rv_usr_desc@), p0,
                pres as int);
            acc = acc.push(Val::Cn(rv_usr_desc@));
        }
        let ghost off0 = off as int;
        let ghost p0 = pres as int;
        if off < bytes.len() {
            pres = 4;
        }
        let rv_exc_desc = match rd_cn(bytes, &mut off, e, true) {
            Ok(v) => v,
            Err(er) => {
                proof {
                    lemma_read_step_none(s, e, fs, 3, fd(FieldKind::KCn, d_cn(true)), off0, acc);
                }
                return Err(er);
            },
        };
        proof {
            lemma_read_step(s, e, fs, 3, fd(FieldKind::KCn, d_cn(true)), off0, off as int, acc, Val::Cn(rv_exc_desc@));
            lemma_pres_step(s, e, fs, 3, fd(FieldKind::KCn, d_cn(true)), off0, off as int, acc, Val::Cn(rv_exc_desc@), p0,
                pres as int);
            acc = acc.push(Val::Cn(rv_exc_desc@));
        }
        let rec = MRR {
            finish_t: U4E(rv_finish_t),
            disp_cod: C1(rv_disp_cod),
            usr_desc: Cn(rv_usr_desc),
            exc_desc: Cn(rv_exc_desc),
            present: pres,
        };
        proof {
            lemma_read_end(s, e, fs, off as int, acc);
            lemma_pres_end(s, e, fs, off as int, acc, pres as int);
            assert(rec.val_seq() =~= acc);
            lemma_sdecode_match(s, e, fs);
        }
        Ok(rec)
    }

    /// Appends the payload encoding of the record to a buffer.
    pub fn write(&self, out: &mut Vec<u8>, e: Endian)
        requires
            self.wf(),
        ensures
            final(out)@ == old(out)@ + self.enc(e),
    {
        let ghost vs = self.val_seq();
        let ghost kk = self.present as int;
        let keep = self.present;
        proof {
            assert(0 <= kk <= 4);
            lemma_write_begin(e, vs, old(out)@);
        }
        let ghost mid = out@;
        if keep > 0 {
            wr_u4(out, e, self.finish_t.0);
            proof {
                assert(vs[0] == Val::U4(self.finish_t.0));
                lemma_write_step(e, vs, 0, old(out)@, mid, out@);
            }
        }
        proof {
            assert(out@ == old(out)@ + enc_vals(e, vs.take(
                if kk > 0 {
                    1int
                } else {
                    kk
                },
            )));
        }
        let ghost mid = out@;
        if keep > 1 {
            wr_u1(out, self.disp_cod.0);
            proof {
                assert(vs[1] == Val::U1(self.disp_cod.0));
                lemma_write_step(e, vs, 1, old(out)@, mid, out@);
            }
        }
        proof {
            assert(out@ == old(out)@ + enc_vals(e, vs.take(
                if kk > 1 {
                    2int
                } else {
                    kk
                },
            )));
        }
        let ghost mid = out@;
        if keep > 2 {
            proof {
                assert(val_matches_at(Self::fields(), vs, 2));
            }
            wr_cn(out, self.usr_desc.0.as_slice());
            proof {
                assert(vs[2] == Val::Cn(self.usr_desc.0@));
                lemma_write_step(e, vs, 2, old(out)@, mid, out@);
            }
        }
        proof {
            assert(out@ == old(out)@ + enc_vals(e, vs.take(
                if kk > 2 {
                    3int
                } else {
                    kk
                },
            )));
        }
        let ghost mid = out@;
        if keep > 3 {
            proof {
                assert(val_matches_at(Self::fields(), vs, 3));
            }
            wr_cn(out, self.exc_desc.0.as_slice());
            proof {
                assert(vs[3] == Val::Cn(self.exc_desc.0@));
                lemma_write_step(e, vs, 3, old(out)@, mid, out@);
            }
        }
        proof {
            assert(out@ == old(out)@ + enc_vals(e, vs.take(
                if kk > 3 {
                    4int
                } else {
                    kk
                },
            )));
        }
        proof {
            assert(out@ == old(out)@ + enc_vals(e, vs.take(kk)));
        }
    }
}

/// PCR: the Part Count Record, with pair (1, 30).
#[derive(Clone, Debug, PartialEq, Eq)]
pub struct PCR {
    pub head_num: U1,
    pub site_num: U1,
    pub part_cnt: U4,
    pub rtst_cnt: U4,
    pub abrt_cnt: U4,
    pub good_cnt: U4,
    pub func_cnt: U4,
    /// How many leading fields stood on the wire when the record
    /// was decoded; `write` puts exactly these back.
    pub present: usize,
}

impl PCR {
    /// The field layout of the record: wire kind, default, and for
    /// an array the position of its count field.
    pub open spec fn fields() -> Seq<FieldDef> {
        seq![
            fd(FieldKind::KU1, d_u1(None)),
            fd(FieldKind::KU1, d_u1(None)),
            fd(FieldKind::KU4, d_u4(None)),
            fd(FieldKind::KU4, d_u4(Some(0xffff_ffffu32))),
            fd(FieldKind::KU4, d_u4(Some(0xffff_ffffu32))),
            fd(FieldKind::KU4, d_u4(Some(0xffff_ffffu32))),
            fd(FieldKind::KU4, d_u4(Some(0xffff_ffffu32))),
        ]
    }

    /// The field values of the record, in declaration order.
    pub open spec fn val_seq(self) -> Seq<Val> {
        seq![
            Val::U1(self.head_num.0),
            Val::U1(self.site_num.0),
            Val::U4(self.part_cnt.0),
            Val::U4(self.rtst_cnt.0),
            Val::U4(self.abrt_cnt.0),
            Val::U4(self.good_cnt.0),
            Val::U4(self.func_cnt.0),
        ]
    }

    /// Well-formedness: every value fits its wire layout, arrays are
    /// as long as their count fields say or stand empty past the
    /// wire, and the on-the-wire count covers at most every field.
    pub open spec fn wf(self) -> bool {
        vals_match(Self::fields(), self.val_seq()) && self.present <= 7
    }

    /// Well-formedness is exactly conformance of the values to the
    /// layout, with the on-the-wire count in bounds.
    pub proof fn lemma_wf_is_match(self)
        ensures
            self.wf() == (vals_match(Self::fields(), self.val_seq()) && self.present
                <= Self::fields().len()),
    {
    }

    /// The payload bytes of the record under a byte order: the
    /// fields that stood on the wire, in declaration order; the
    /// absent tail stays off it.
    pub open spec fn enc(self, e: Endian) -> Seq<u8> {
        enc_vals(e, self.val_seq().take(self.present as int))
    }

    /// Every array that stood on the wire is as long as its count
    /// field says, so the record can be framed back onto it.
    pub open spec fn counts_ok(self) -> bool {
        counts_strict_upto(Self::fields(), self.val_seq(), self.present as int)
    }

    /// Every field past the on-the-wire count holds its declared
    /// default or is empty.
    pub open spec fn tail_absent(self) -> bool {
        forall|i: int|
            self.present <= i < Self::fields().len() ==> #[trigger] suppressible(
                Self::fields()[i],
                self.val_seq()[i],
            )
    }

    /// A record decoded off the wire is framed: its on-the-wire
    /// arrays match their counts and its absent fields hold their
    /// defaults.
    pub proof fn lemma_decoded_shape(self, s: Seq<u8>, e: Endian)
        requires
            sdecode(s, e, Self::fields()) == Some(self.val_seq()),
            self.present as int == spres(s, e, Self::fields()),
        ensures
            self.counts_ok(),
            self.tail_absent(),
    {
        lemma_sdecode_present(s, e, Self::fields());
    }

    /// Decodes a record payload: fields in declaration order, trailing
    /// absent fields at their defaults.
    #[verifier::rlimit(100)]
    #[verifier::spinoff_prover]
    pub fn read(bytes: &[u8], e: Endian) -> (r: Result<PCR, StdfError>)
        ensures
            match r {
                Ok(rec) => sdecode(bytes@, e, Self::fields()) == Some(rec.val_seq())
                    && rec.wf() && rec.present as int == spres(bytes@, e, Self::fields()),
                Err(_) => sdecode(bytes@, e, Self::fields()) is None,
            },
    {
        let ghost s = bytes@;
        let ghost fs = Self::fields();
        let mut off: usize = 0;
        let mut pres: usize = 0;
        let ghost mut acc = Seq::<Val>::empty();
        proof {
            lemma_read_begin(s, e, fs);
            lemma_pres_begin(s, e, fs);
        }
        let ghost off0 = off as int;
        let ghost p0 = pres as int;
        if off < bytes.len() {
            pres = 1;
        }
        let rv_head_num = match rd_u1(bytes, &mut off, e, None) {
            Ok(v) => v,
            Err(er) => {
                proof {
                    lemma_read_step_none(s, e, fs, 0, fd(FieldKind::KU1, d_u1(None)), off0, acc);
                }
                return Err(er);
            },
        };
        proof {
            lemma_read_step(s, e, fs, 0, fd(FieldKind::KU1, d_u1(None)), off0, off as int, acc, Val::U1(rv_head_num));
            lemma_pres_step(s, e, fs, 0, fd(FieldKind::KU1, d_u1(None)), off0, off as int, acc, Val::U1(rv_head_num), p0,
                pres as int);
            acc = acc.push(Val::U1(rv_head_num));
        }
        let ghost off0 = off as int;
        let ghost p0 = pres as int;
        if off < bytes.len() {
            pres = 2;
        }
        let rv_site_num = match rd_u1(bytes, &mut off, e, None) {
            Ok(v) => v,
            Err(er) => {
                proof {
                    lemma_read_step_none(s, e, fs, 1, fd(FieldKind::KU1, d_u1(None)), off0, acc);
                }
                return Err(er);
            },
        };
        proof {
            lemma_read_step(s, e, fs, 1, fd(FieldKind::KU1, d_u1(None)), off0, off as int, acc, Val::U1(rv_site_num));
            lemma_pres_step(s, e, fs, 1, fd(FieldKind::KU1, d_u1(None)), off0, off as int, acc, Val::U1(rv_site_num), p0,
                pres as int);
            acc = acc.push(Val::U1(rv_site_num));
        }
        let ghost off0 = off as int;
        let ghost p0 = pres as int;
        if off < bytes.len() {
            pres = 3;
        }
        let rv_part_cnt = match rd_u4(bytes, &mut off, e, None) {
            Ok(v) => v,
            Err(er) => {
                proof {
                    lemma_read_step_none(s, e, fs, 2, fd(FieldKind::KU4, d_u4(None)), off0, acc);
                }
                return Err(er);
            },
        };
        proof {
            lemma_read_step(s, e, fs, 2, fd(FieldKind::KU4, d_u4(None)), off0, off as int, acc, Val::U4(rv_part_cnt));
            lemma_pres_step(s, e, fs, 2, fd(FieldKind::KU4, d_u4(None)), off0, off as int, acc, Val::U4(rv_part_cnt), p0,
                pres as int);
            acc = acc.push(Val::U4(rv_part_cnt));
        }
        let ghost off0 = off as int;
        let ghost p0 = pres as int;
        if off < bytes.len() {
            pres = 4;
        }
        let rv_rtst_cnt = match rd_u4(bytes, &mut off, e, Some(0xffff_ffffu32)) {
            Ok(v) => v,
            Err(er) => {
                proof {
                    lemma_read_step_none(s, e, fs, 3, fd(FieldKind::KU4, d_u4(Some(0xffff_ffffu32))), off0, acc);
                }
                return Err(er);
            },
        };
        proof {
            lemma_read_step(s, e, fs, 3, fd(FieldKind::KU4, d_u4(Some(0xffff_ffffu32))), off0, off as int, acc, Val::U4(rv_rtst_cnt));
            lemma_pres_step(s, e, fs, 3, fd(FieldKind::KU4, d_u4(Some(0xffff_ffffu32))), off0, off as int, acc, Val::U4(rv_rtst_cnt), p0,
                pres as int);
            acc = acc.push(Val::U4(rv_rtst_cnt));
        }
        let ghost off0 = off as int;
        let ghost p0 = pres as int;
        if off < bytes.len() {
            pres = 5;
        }
        let rv_abrt_cnt = match rd_u4(bytes, &mut off, e, Some(0xffff_ffffu32)) {
            Ok(v) => v,
            Err(er) => {
                proof {
                    lemma_read_step_none(s, e, fs, 4, fd(FieldKind::KU4, d_u4(Some(0xffff_ffffu32))), off0, acc);
                }
                return Err(er);
            },
        };
        proof {
            lemma_read_step(s, e, fs, 4, fd(FieldKind::KU4, d_u4(Some(0xffff_ffffu32))), off0, off as int, acc, Val::U4(rv_abrt_cnt));
            lemma_pres_step(s, e, fs, 4, fd(FieldKind::KU4, d_u4(Some(0xffff_ffffu32))), off0, off as int, acc, Val::U4(rv_abrt_cnt), p0,
                pres as int);
            acc = acc.push(Val::U4(rv_abrt_cnt));
        }
        let ghost off0 = off as int;
        let ghost p0 = pres as int;
        if off < bytes.len() {
            pres = 6;
        }
        let rv_good_cnt = match rd_u4(bytes, &mut off, e, Some(0xffff_ffffu32)) {
            Ok(v) => v,
            Err(er) => {
                proof {
                    lemma_read_step_none(s, e, fs, 5, fd(FieldKind::KU4, d_u4(Some(0xffff_ffffu32))), off0, acc);
                }
                return Err(er);
            },
        };
        proof {
            lemma_read_step(s, e, fs, 5, fd(FieldKind::KU4, d_u4(Some(0xffff_ffffu32))), off0, off as int, acc, Val::U4(rv_good_cnt));
            lemma_pres_step(s, e, fs, 5, fd(FieldKind::KU4, d_u4(Some(0xffff_ffffu32))), off0, off as int, acc, Val::U4(rv_good_cnt), p0,
                pres as int);
            acc = acc.push(Val::U4(rv_good_cnt));
        }
        let ghost off0 = off as int;
        let ghost p0 = pres as int;
        if off < bytes.len() {
            pres = 7;
        }
        let rv_func_cnt = match rd_u4(bytes, &mut off, e, Some(0xffff_ffffu32)) {
            Ok(v) => v,
            Err(er) => {
                proof {
                    lemma_read_step_none(s, e, fs, 6, fd(FieldKind::KU4, d_u4(Some(0xffff_ffffu32))), off0, acc);
                }
                return Err(er);
            },
        };
        proof {
            lemma_read_step(s, e, fs, 6, fd(FieldKind::KU4, d_u4(Some(0xffff_ffffu32))), off0, off as int, acc, Val::U4(rv_func_cnt));
            lemma_pres_step(s, e, fs, 6, fd(FieldKind::KU4, d_u4(Some(0xffff_ffffu32))), off0, off as int, acc, Val::U4(rv_func_cnt), p0,
                pres as int);
            acc = acc.push(Val::U4(rv_func_cnt));
        }
        let rec = PCR {
            head_num: U1(rv_head_num),
            site_num: U1(rv_site_num),
            part_cnt: U4(rv_part_cnt),
            rtst_cnt: U4(rv_rtst_cnt),
            abrt_cnt: U4(rv_abrt_cnt),
            good_cnt: U4(rv_good_cnt),
            func_cnt: U4(rv_func_cnt),
            present: pres,
        };
        proof {
            lemma_read_end(s, e, fs, off as int, acc);
            lemma_pres_end(s, e, fs, off as int, acc, pres as int);
            assert(rec.val_seq() =~= acc);
            lemma_sdecode_match(s, e, fs);
        }
        Ok(rec)
    }

    /// Appends the payload encoding of the record to a buffer.
    #[verifier::rlimit(100)]
    #[verifier::spinoff_prover]
    pub fn write(&self, out: &mut Vec<u8>, e: Endian)
        requires
            self.wf(),
        ensures
            final(out)@ == old(out)@ + self.enc(e),
    {
        let ghost vs = self.val_seq();
        let ghost kk = self.present as int;
        let keep = self.present;
        proof {
            assert(0 <= kk <= 7);
            lemma_write_begin(e, vs, old(out)@);
        }
        let ghost mid = out@;
        if keep > 0 {
            wr_u1(out, self.head_num.0);
            proof {
                assert(vs[0] == Val::U1(self.head_num.0));
                lemma_write_step(e, vs, 0, old(out)@, mid, out@);
            }
        }
        proof {
            assert(out@ == old(out)@ + enc_vals(e, vs.take(
                if kk > 0 {
                    1int
                } else {
                    kk
                },
            )));
        }
        let ghost mid = out@;
        if keep > 1 {
            wr_u1(out, self.site_num.0);
            proof {
                assert(vs[1] == Val::U1(self.site_num.0));
                lemma_write_step(e, vs, 1, old(out)@, mid, out@);
            }
        }
        proof {
            assert(out@ == old(out)@ + enc_vals(e, vs.take(
                if kk > 1 {
                    2int
                } else {
                    kk
                },
            )));
        }
        let ghost mid = out@;
        if keep > 2 {
            wr_u4(out, e, self.part_cnt.0);
            proof {
                assert(vs[2] == Val::U4(self.part_cnt.0));
                lemma_write_step(e, vs, 2, old(out)@, mid, out@);
            }
        }
        proof {
            assert(out@ == old(out)@ + enc_vals(e, vs.take(
                if kk > 2 {
                    3int
                } else {
                    kk
                },
            )));
        }
        let ghost mid = out@;
        if keep > 3 {
            wr_u4(out, e, self.rtst_cnt.0);
            proof {
                assert(vs[3] == Val::U4(self.rtst_cnt.0));
                lemma_write_step(e, vs, 3, old(out)@, mid, out@);
            }
        }
        proof {
            assert(out@ == old(out)@ + enc_vals(e, vs.take(
                if kk > 3 {
                    4int
                } else {
                    kk
                },
            )));
        }
        let ghost mid = out@;
        if keep > 4 {
            wr_u4(out, e, self.abrt_cnt.0);
            proof {
                assert(vs[4] == Val::U4(self.abrt_cnt.0));
                lemma_write_step(e, vs, 4, old(out)@, mid, out@);
            }
        }
        proof {
            assert(out@ == old(out)@ + enc_vals(e, vs.take(
                if kk > 4 {
                    5int
                } else {
                    kk
                },
            )));
        }
        let ghost mid = out@;
        if keep > 5 {
            wr_u4(out, e, self.good_cnt.0);
            proof {
                assert(vs[5] == Val::U4(self.good_cnt.0));
                lemma_write_step(e, vs, 5, old(out)@, mid, out@);
            }
        }
        proof {
            assert(out@ == old(out)@ + enc_vals(e, vs.take(
                if kk > 5 {
                    6int
                } else {
                    kk
                },
            )));
        }
        let ghost mid = out@;
        if keep > 6 {
            wr_u4(out, e, self.func_cnt.0);
            proof {
                assert(vs[6] == Val::U4(self.func_cnt.0));
                lemma_write_step(e, vs, 6, old(out)@, mid, out@);
            }
        }
        proof {
            assert(out@ == old(out)@ + enc_vals(e, vs.take(
                if kk > 6 {
                    7int
                } else {
                    kk
                },
            )));
        }
        proof {
            assert(out@ == old(out)@ + enc_vals(e, vs.take(kk)));
        }
    }
}

/// HBR: the Hardware Bin Record, with pair (1, 40).
#[derive(Clone, Debug, PartialEq, Eq)]
pub struct HBR {
    pub head_num: U1,
    pub site_num: U1,
    pub hbin_num: U2,
    pub hbin_cnt: U4,
    pub hbin_pf: C1,
    pub hbin_nam: Cn,
    /// How many leading fields stood on the wire when the record
    /// was decoded; `write` puts exactly these back.
    pub present: usize,
}

impl HBR {
    /// The field layout of the record: wire kind, default, and for
    /// an array the position of its count field.
    pub open spec fn fields() -> Seq<FieldDef> {
        seq![
            fd(FieldKind::KU1, d_u1(None)),
            fd(FieldKind::KU1, d_u1(None)),
            fd(FieldKind::KU2, d_u2(None)),
            fd(FieldKind::KU4, d_u4(None)),
            fd(FieldKind::KU1, d_u1(Some(0x20u8))),
            fd(FieldKind::KCn, d_cn(true)),
        ]
    }

    /// The field values of the record, in declaration order.
    pub open spec fn val_seq(self) -> Seq<Val> {
        seq![
            Val::U1(self.head_num.0),
            Val::U1(self.site_num.0),
            Val::U2(self.hbin_num.0),
            Val::U4(self.hbin_cnt.0),
            Val::U1(self.hbin_pf.0),
            Val::Cn(self.hbin_nam.0@),
        ]
    }

    /// Well-formedness: every value fits its wire layout, arrays are
    /// as long as their count fields say or stand empty past the
    /// wire, and the on-the-wire count covers at most every field.
    pub open spec fn wf(self) -> bool {
        vals_match(Self::fields(), self.val_seq()) && self.present <= 6
    }

    /// Well-formedness is exactly conformance of the values to the
    /// layout, with the on-the-wire count in bounds.
    pub proof fn lemma_wf_is_match(self)
        ensures
            self.wf() == (vals_match(Self::fields(), self.val_seq()) && self.present
                <= Self::fields().len()),
    {
    }

    /// The payload bytes of the record under a byte order: the
    /// fields that stood on the wire, in declaration order; the
    /// absent tail stays off it.
    pub open spec fn enc(self, e: Endian) -> Seq<u8> {
        enc_vals(e, self.val_seq().take(self.present as int))
    }

    /// Every array that stood on the wire is as long as its count
    /// field says, so the record can be framed back onto it.
    pub open spec fn counts_ok(self) -> bool {
        counts_strict_upto(Self::fields(), self.val_seq(), self.present as int)
    }

    /// Every field past the on-the-wire count holds its declared
    /// default or is empty.
    pub open spec fn tail_absent(self) -> bool {
        forall|i: int|
            self.present <= i < Self::fields().len() ==> #[trigger] suppressible(
                Self::fields()[i],
                self.val_seq()[i],
            )
    }

    /// A record decoded off the wire is framed: its on-the-wire
    /// arrays match their counts and its absent fields hold their
    /// defaults.
    pub proof fn lemma_decoded_shape(self, s: Seq<u8>, e: Endian)
        requires
            sdecode(s, e, Self::fields()) == Some(self.val_seq()),
            self.present as int == spres(s, e, Self::fields()),
        ensures
            self.counts_ok(),
            self.tail_absent(),
    {
        lemma_sdecode_present(s, e, Self::fields());
    }

    /// Decodes a record payload: fields in declaration order, trailing
    /// absent fields at their defaults.
    #[verifier::rlimit(100)]
    #[verifier::spinoff_prover]
    pub fn read(bytes: &[u8], e: Endian) -> (r: Result<HBR, StdfError>)
        ensures
            match r {
                Ok(rec) => sdecode(bytes@, e, Self::fields()) == Some(rec.val_seq())
                    && rec.wf() && rec.present as int == spres(bytes@, e, Self::fields()),
                Err(_) => sdecode(bytes@, e, Self::fields()) is None,
            },
    {
        let ghost s = bytes@;
        let ghost fs = Self::fields();
        let mut off: usize = 0;
        let mut pres: usize = 0;
        let ghost mut acc = Seq::<Val>::empty();
        proof {
            lemma_read_begin(s, e, fs);
            lemma_pres_begin(s, e, fs);
        }
        let ghost off0 = off as int;
        let ghost p0 = pres as int;
        if off < bytes.len() {
            pres = 1;
        }
        let rv_head_num = match rd_u1(bytes, &mut off, e, None) {
            Ok(v) => v,
            Err(er) => {
                proof {
                    lemma_read_step_none(s, e, fs, 0, fd(FieldKind::KU1, d_u1(None)), off0, acc);
                }
                return Err(er);
            },
        };
        proof {
            lemma_read_step(s, e, fs, 0, fd(FieldKind::KU1, d_u1(None)), off0, off as int, acc, Val::U1(rv_head_num));
            lemma_pres_step(s, e, fs, 0, fd(FieldKind::KU1, d_u1(None)), off0, off as int, acc, Val::U1(rv_head_num), p0,
                pres as int);
            acc = acc.push(Val::U1(rv_head_num));
        }
        let ghost off0 = off as int;
        let ghost p0 = pres as int;
        if off < bytes.len() {
            pres = 2;
        }
        let rv_site_num = match rd_u1(bytes, &mut off, e, None) {
            Ok(v) => v,
            Err(er) => {
                proof {
                    lemma_read_step_none(s, e, fs, 1, fd(FieldKind::KU1, d_u1(None)), off0, acc);
                }
                return Err(er);
            },
        };
        proof {
            lemma_read_step(s, e, fs, 1, fd(FieldKind::KU1, d_u1(None)), off0, off as int, acc, Val::U1(rv_site_num));
            lemma_pres_step(s, e, fs, 1, fd(FieldKind::KU1, d_u1(None)), off0, off as int, acc, Val::U1(rv_site_num), p0,
                pres as int);
            acc = acc.push(Val::U1(rv_site_num));
        }
        let ghost off0 = off as int;
        let ghost p0 = pres as int;
        if off < bytes.len() {
            pres = 3;
        }
        let rv_hbin_num = match rd_u2(bytes, &mut off, e, None) {
            Ok(v) => v,
            Err(er) => {
                proof {
                    lemma_read_step_none(s, e, fs, 2, fd(FieldKind::KU2, d_u2(None)), off0, acc);
                }
                return Err(er);
            },
        };
        proof {
            lemma_read_step(s, e, fs, 2, fd(FieldKind::KU2, d_u2(None)), off0, off as int, acc, Val::U2(rv_hbin_num));
            lemma_pres_step(s, e, fs, 2, fd(FieldKind::KU2, d_u2(None)), off0, off as int, acc, Val::U2(rv_hbin_num), p0,
                pres as int);
            acc = acc.push(Val::U2(rv_hbin_num));
        }
        let ghost off0 = off as int;
        let ghost p0 = pres as int;
        if off < bytes.len() {
            pres = 4;
        }
        let rv_hbin_cnt = match rd_u4(bytes, &mut off, e, None) {
            Ok(v) => v,
            Err(er) => {
                proof {
                    lemma_read_step_none(s, e, fs, 3, fd(FieldKind::KU4, d_u4(None)), off0, acc);
                }
                return Err(er);
            },
        };
        proof {
            lemma_read_step(s, e, fs, 3, fd(FieldKind::KU4, d_u4(None)), off0, off as int, acc, Val::U4(rv_hbin_cnt));
            lemma_pres_step(s, e, fs, 3, fd(FieldKind::KU4, d_u4(None)), off0, off as int, acc, Val::U4(rv_hbin_cnt), p0,
                pres as int);
            acc = acc.push(Val::U4(rv_hbin_cnt));
        }
        let ghost off0 = off as int;
        let ghost p0 = pres as int;
        if off < bytes.len() {
            pres = 5;
        }
        let rv_hbin_pf = match rd_u1(bytes, &mut off, e, Some(0x20u8)) {
            Ok(v) => v,
            Err(er) => {
                proof {
                    lemma_read_step_none(s, e, fs, 4, fd(FieldKind::KU1, d_u1(Some(0x20u8))), off0, acc);
                }
                return Err(er);
            },
        };
        proof {
            lemma_read_step(s, e, fs, 4, fd(FieldKind::KU1, d_u1(Some(0x20u8))), off0, off as int, acc, Val::U1(rv_hbin_pf));
            lemma_pres_step(s, e, fs, 4, fd(FieldKind::KU1, d_u1(Some(0x20u8))), off0, off as int, acc, Val::U1(rv_hbin_pf), p0,
                pres as int);
            acc = acc.push(Val::U1(rv_hbin_pf));
        }
        let ghost off0 = off as int;
        let ghost p0 = pres as int;
        if off < bytes.len() {
            pres = 6;
        }
        let rv_hbin_nam = match rd_cn(bytes, &mut off, e, true) {
            Ok(v) => v,
            Err(er) => {
                proof {
                    lemma_read_step_none(s, e, fs, 5, fd(FieldKind::KCn, d_cn(true)), off0, acc);
                }
                return Err(er);
            },
        };
        proof {
            lemma_read_step(s, e, fs, 5, fd(FieldKind::KCn, d_cn(true)), off0, off as int, acc, Val::Cn(rv_hbin_nam@));
            lemma_pres_step(s, e, fs, 5, fd(FieldKind::KCn, d_cn(true)), off0, off as int, acc, Val::Cn(rv_hbin_nam@), p0,
                pres as int);
            acc = acc.push(Val::Cn(rv_hbin_nam@));
        }
        let rec = HBR {
            head_num: U1(rv_head_num),
            site_num: U1(rv_site_num),
            hbin_num: U2(rv_hbin_num),
            hbin_cnt: U4(rv_hbin_cnt),
            hbin_pf: C1(rv_hbin_pf),
            hbin_nam: Cn(rv_hbin_nam),
            present: pres,
        };
        proof {
            lemma_read_end(s, e, fs, off as int, acc);
            lemma_pres_end(s, e, fs, off as int, acc, pres as int);
            assert(rec.val_seq() =~= acc);
            lemma_sdecode_match(s, e, fs);
        }
        Ok(rec)
    }

    /// Appends the payload encoding of the record to a buffer.
    #[verifier::rlimit(100)]
    #[verifier::spinoff_prover]
    pub fn write(&self, out: &mut Vec<u8>, e: Endian)
        requires
            self.wf(),
        ensures
            final(out)@ == old(out)@ + self.enc(e),
    {
        let ghost vs = self.val_seq();
        let ghost kk = self.present as int;
        let keep = self.present;
        proof {
            assert(0 <= kk <= 6);
            lemma_write_begin(e, vs, old(out)@);
        }
        let ghost mid = out@;
        if keep > 0 {
            wr_u1(out, self.head_num.0);
            proof {
                assert(vs[0] == Val::U1(self.head_num.0));
                lemma_write_step(e, vs, 0, old(out)@, mid, out@);
            }
        }
        proof {
            assert(out@ == old(out)@ + enc_vals(e, vs.take(
                if kk > 0 {
                    1int
                } else {
                    kk
                },
            )));
        }
        let ghost mid = out@;
        if keep > 1 {
            wr_u1(out, self.site_num.0);
            proof {
                assert(vs[1] == Val::U1(self.site_num.0));
                lemma_write_step(e, vs, 1, old(out)@, mid, out@);
            }
        }
        proof {
            assert(out@ == old(out)@ + enc_vals(e, vs.take(
                if kk > 1 {
                    2int
                } else {
                    kk
                },
            )));
        }
        let ghost mid = out@;
        if keep > 2 {
            wr_u2(out, e, self.hbin_num.0);
            proof {
                assert(vs[2] == Val::U2(self.hbin_num.0));
                lemma_write_step(e, vs, 2, old(out)@, mid, out@);
            }
        }
        proof {
            assert(out@ == old(out)@ + enc_vals(e, vs.take(
                if kk > 2 {
                    3int
                } else {
                    kk
                },
            )));
        }
        let ghost mid = out@;
        if keep > 3 {
            wr_u4(out, e, self.hbin_cnt.0);
            proof {
                assert(vs[3] == Val::U4(self.hbin_cnt.0));
                lemma_write_step(e, vs, 3, old(out)@, mid, out@);
            }
        }
        proof {
            assert(out@ == old(out)@ + enc_vals(e, vs.take(
                if kk > 3 {
                    4int
                } else {
                    kk
                },
            )));
        }
        let ghost mid = out@;
        if keep > 4 {
            wr_u1(out, self.hbin_pf.0);
            proof {
                assert(vs[4] == Val::U1(self.hbin_pf.0));
                lemma_write_step(e, vs, 4, old(out)@, mid, out@);
            }
        }
        proof {
            assert(out@ == old(out)@ + enc_vals(e, vs.take(
                if kk > 4 {
                    5int
                } else {
                    kk
                },
            )));
        }
        let ghost mid = out@;
        if keep > 5 {
            proof {
                assert(val_matches_at(Self::fields(), vs, 5));
            }
            wr_cn(out, self.hbin_nam.0.as_slice());
            proof {
                assert(vs[5] == Val::Cn(self.hbin_nam.0@));
                lemma_write_step(e, vs, 5, old(out)@, mid, out@);
            }
        }
        proof {
            assert(out@ == old(out)@ + enc_vals(e, vs.take(
                if kk > 5 {
                    6int
                } else {
                    kk
                },
            )));
        }
        proof {
            assert(out@ == old(out)@ + enc_vals(e, vs.take(kk)));
        }
    }
}

/// SBR: the Software Bin Record, with pair (1, 50).
#[derive(Clone, Debug, PartialEq, Eq)]
pub struct SBR {
    pub head_num: U1,
    pub site_num: U1,
    pub sbin_num: U2,
    pub sbin_cnt: U4,
    pub sbin_pf: C1,
    pub sbin_nam: Cn,
    /// How many leading fields stood on the wire when the record
    /// was decoded; `write` puts exactly these back.
    pub present: usize,
}

impl SBR {
    /// The field layout of the record: wire kind, default, and for
    /// an array the position of its count field.
    pub open spec fn fields() -> Seq<FieldDef> {
        seq![
            fd(FieldKind::KU1, d_u1(None)),
            fd(FieldKind::KU1, d_u1(None)),
            fd(FieldKind::KU2, d_u2(None)),
            fd(FieldKind::KU4, d_u4(None)),
            fd(FieldKind::KU1, d_u1(Some(0x20u8))),
            fd(FieldKind::KCn, d_cn(true)),
        ]
    }

    /// The field values of the record, in declaration order.
    pub open spec fn val_seq(self) -> Seq<Val> {
        seq![
            Val::U1(self.head_num.0),
            Val::U1(self.site_num.0),
            Val::U2(self.sbin_num.0),
            Val::U4(self.sbin_cnt.0),
            Val::U1(self.sbin_pf.0),
            Val::Cn(self.sbin_nam.0@),
        ]
    }

    /// Well-formedness: every value fits its wire layout, arrays are
    /// as long as their count fields say or stand empty past the
    /// wire, and the on-the-wire count covers at most every field.
    pub open spec fn wf(self) -> bool {
        vals_match(Self::fields(), self.val_seq()) && self.present <= 6
    }

    /// Well-formedness is exactly conformance of the values to the
    /// layout, with the on-the-wire count in bounds.
    pub proof fn lemma_wf_is_match(self)
        ensures
            self.wf() == (vals_match(Self::fields(), self.val_seq()) && self.present
                <= Self::fields().len()),
    {
    }

    /// The payload bytes of the record under a byte order: the
    /// fields that stood on the wire, in declaration order; the
    /// absent tail stays off it.
    pub open spec fn enc(self, e: Endian) -> Seq<u8> {
        enc_vals(e, self.val_seq().take(self.present as int))
    }

    /// Every array that stood on the wire is as long as its count
    /// field says, so the record can be framed back onto it.
    pub open spec fn counts_ok(self) -> bool {
        counts_strict_upto(Self::fields(), self.val_seq(), self.present as int)
    }

    /// Every field past the on-the-wire count holds its declared
    /// default or is empty.
    pub open spec fn tail_absent(self) -> bool {
        forall|i: int|
            self.present <= i < Self::fields().len() ==> #[trigger] suppressible(
                Self::fields()[i],
                self.val_seq()[i],
            )
    }

    /// A record decoded off the wire is framed: its on-the-wire
    /// arrays match their counts and its absent fields hold their
    /// defaults.
    pub proof fn lemma_decoded_shape(self, s: Seq<u8>, e: Endian)
        requires
            sdecode(s, e, Self::fields()) == Some(self.val_seq()),
            self.present as int == spres(s, e, Self::fields()),
        ensures
            self.counts_ok(),
            self.tail_absent(),
    {
        lemma_sdecode_present(s, e, Self::fields());
    }

    /// Decodes a record payload: fields in declaration order, trailing
    /// absent fields at their defaults.
    #[verifier::rlimit(100)]
    #[verifier::spinoff_prover]
    pub fn read(bytes: &[u8], e: Endian) -> (r: Result<SBR, StdfError>)
        ensures
            match r {
                Ok(rec) => sdecode(bytes@, e, Self::fields()) == Some(rec.val_seq())
                    && rec.wf() && rec.present as int == spres(bytes@, e, Self::fields()),
                Err(_) => sdecode(bytes@, e, Self::fields()) is None,
            },
    {
        let ghost s = bytes@;
        let ghost fs = Self::fields();
        let mut off: usize = 0;
        let mut pres: usize = 0;
        let ghost mut acc = Seq::<Val>::empty();
        proof {
            lemma_read_begin(s, e, fs);
            lemma_pres_begin(s, e, fs);
        }
        let ghost off0 = off as int;
        let ghost p0 = pres as int;
        if off < bytes.len() {
            pres = 1;
        }
        let rv_head_num = match rd_u1(bytes, &mut off, e, None) {
            Ok(v) => v,
            Err(er) => {
                proof {
                    lemma_read_step_none(s, e, fs, 0, fd(FieldKind::KU1, d_u1(None)), off0, acc);
                }
                return Err(er);
            },
        };
        proof {
            lemma_read_step(s, e, fs, 0, fd(FieldKind::KU1, d_u1(None)), off0, off as int, acc, Val::U1(rv_head_num));
            lemma_pres_step(s, e, fs, 0, fd(FieldKind::KU1, d_u1(None)), off0, off as int, acc, Val::U1(rv_head_num), p0,
                pres as int);
            acc = acc.push(Val::U1(rv_head_num));
        }
        let ghost off0 = off as int;
        let ghost p0 = pres as int;
        if off < bytes.len() {
            pres = 2;
        }
        let rv_site_num = match rd_u1(bytes, &mut off, e, None) {
            Ok(v) => v,
            Err(er) => {
                proof {
                    lemma_read_step_none(s, e, fs, 1, fd(FieldKind::KU1, d_u1(None)), off0, acc);
                }
                return Err(er);
            },
        };
        proof {
            lemma_read_step(s, e, fs, 1, fd(FieldKind::KU1, d_u1(None)), off0, off as int, acc, Val::U1(rv_site_num));
            lemma_pres_step(s, e, fs, 1, fd(FieldKind::KU1, d_u1(None)), off0, off as int, acc, Val::U1(rv_site_num), p0,
                pres as int);
            acc = acc.push(Val::U1(rv_site_num));
        }
        let ghost off0 = off as int;
        let ghost p0 = pres as int;
        if off < bytes.len() {
            pres = 3;
        }
        let rv_sbin_num = match rd_u2(bytes, &mut off, e, None) {
            Ok(v) => v,
            Err(er) => {
                proof {
                    lemma_read_step_none(s, e, fs, 2, fd(FieldKind::KU2, d_u2(None)), off0, acc);
                }
                return Err(er);
            },
        };
        proof {
            lemma_read_step(s, e, fs, 2, fd(FieldKind::KU2, d_u2(None)), off0, off as int, acc, Val::U2(rv_sbin_num));
            lemma_pres_step(s, e, fs, 2, fd(FieldKind::KU2, d_u2(None)), off0, off as int, acc, Val::U2(rv_sbin_num), p0,
                pres as int);
            acc = acc.push(Val::U2(rv_sbin_num));
        }
        let ghost off0 = off as int;
        let ghost p0 = pres as int;
        if off < bytes.len() {
            pres = 4;
        }
        let rv_sbin_cnt = match rd_u4(bytes, &mut off, e, None) {
            Ok(v) => v,
            Err(er) => {
                proof {
                    lemma_read_step_none(s, e, fs, 3, fd(FieldKind::KU4, d_u4(None)), off0, acc);
                }
                return Err(er);
            },
        };
        proof {
            lemma_read_step(s, e, fs, 3, fd(FieldKind::KU4, d_u4(None)), off0, off as int, acc, Val::U4(rv_sbin_cnt));
            lemma_pres_step(s, e, fs, 3, fd(FieldKind::KU4, d_u4(None)), off0, off as int, acc, Val::U4(rv_sbin_cnt), p0,
                pres as int);
            acc = acc.push(Val::U4(rv_sbin_cnt));
        }
        let ghost off0 = off as int;
        let ghost p0 = pres as int;
        if off < bytes.len() {
            pres = 5;
        }
        let rv_sbin_pf = match rd_u1(bytes, &mut off, e, Some(0x20u8)) {
            Ok(v) => v,
            Err(er) => {
                proof {
                    lemma_read_step_none(s, e, fs, 4, fd(FieldKind::KU1, d_u1(Some(0x20u8))), off0, acc);
                }
                return Err(er);
            },
        };
        proof {
            lemma_read_step(s, e, fs, 4, fd(FieldKind::KU1, d_u1(Some(0x20u8))), off0, off as int, acc, Val::U1(rv_sbin_pf));
            lemma_pres_step(s, e, fs, 4, fd(FieldKind::KU1, d_u1(Some(0x20u8))), off0, off as int, acc, Val::U1(rv_sbin_pf), p0,
                pres as int);
            acc = acc.push(Val::U1(rv_sbin_pf));
        }
        let ghost off0 = off as int;
        let ghost p0 = pres as int;
        if off < bytes.len() {
            pres = 6;
        }
        let rv_sbin_nam = match rd_cn(bytes, &mut off, e, true) {
            Ok(v) => v,
            Err(er) => {
                proof {
                    lemma_read_step_none(s, e, fs, 5, fd(FieldKind::KCn, d_cn(true)), off0, acc);
                }
                return Err(er);
            },
        };
        proof {
            lemma_read_step(s, e, fs, 5, fd(FieldKind::KCn, d_cn(true)), off0, off as int, acc, Val::Cn(rv_sbin_nam@));
            lemma_pres_step(s, e, fs, 5, fd(FieldKind::KCn, d_cn(true)), off0, off as int, acc, Val::Cn(rv_sbin_nam@), p0,
                pres as int);
            acc = acc.push(Val::Cn(rv_sbin_nam@));
        }
        let rec = SBR {
            head_num: U1(rv_head_num),
            site_num: U1(rv_site_num),
            sbin_num: U2(rv_sbin_num),
            sbin_cnt: U4(rv_sbin_cnt),
            sbin_pf: C1(rv_sbin_pf),
            sbin_nam: Cn(rv_sbin_nam),
            present: pres,
        };
        proof {
            lemma_read_end(s, e, fs, off as int, acc);
            lemma_pres_end(s, e, fs, off as int, acc, pres as int);
            assert(rec.val_seq() =~= acc);
            lemma_sdecode_match(s, e, fs);
        }
        Ok(rec)
    }

    /// Appends the payload encoding of the record to a buffer.
    #[verifier::rlimit(100)]
    #[verifier::spinoff_prover]
    pub fn write(&self, out: &mut Vec<u8>, e: Endian)
        requires
            self.wf(),
        ensures
            final(out)@ == old(out)@ + self.enc(e),
    {
        let ghost vs = self.val_seq();
        let ghost kk = self.present as int;
        let keep = self.present;
        proof {
            assert(0 <= kk <= 6);
            lemma_write_begin(e, vs, old(out)@);
        }
        let ghost mid = out@;
        if keep > 0 {
            wr_u1(out, self.head_num.0);
            proof {
                assert(vs[0] == Val::U1(self.head_num.0));
                lemma_write_step(e, vs, 0, old(out)@, mid, out@);
            }
        }
        proof {
            assert(out@ == old(out)@ + enc_vals(e, vs.take(
                if kk > 0 {
                    1int
                } else {
                    kk
                },
            )));
        }
        let ghost mid = out@;
        if keep > 1 {
            wr_u1(out, self.site_num.0);
            proof {
                assert(vs[1] == Val::U1(self.site_num.0));
                lemma_write_step(e, vs, 1, old(out)@, mid, out@);
            }
        }
        proof {
            assert(out@ == old(out)@ + enc_vals(e, vs.take(
                if kk > 1 {
                    2int
                } else {
                    kk
                },
            )));
        }
        let ghost mid = out@;
        if keep > 2 {
            wr_u2(out, e, self.sbin_num.0);
            proof {
                assert(vs[2] == Val::U2(self.sbin_num.0));
                lemma_write_step(e, vs, 2, old(out)@, mid, out@);
            }
        }
        proof {
            assert(out@ == old(out)@ + enc_vals(e, vs.take(
                if kk > 2 {
                    3int
                } else {
                    kk
                },
            )));
        }
        let ghost mid = out@;
        if keep > 3 {
            wr_u4(out, e, self.sbin_cnt.0);
            proof {
                assert(vs[3] == Val::U4(self.sbin_cnt.0));
                lemma_write_step(e, vs, 3, old(out)@, mid, out@);
            }
        }
        proof {
            assert(out@ == old(out)@ + enc_vals(e, vs.take(
                if kk > 3 {
                    4int
                } else {
                    kk
                },
            )));
        }
        let ghost mid = out@;
        if keep > 4 {
            wr_u1(out, self.sbin_pf.0);
            proof {
                assert(vs[4] == Val::U1(self.sbin_pf.0));
                lemma_write_step(e, vs, 4, old(out)@, mid, out@);
            }
        }
        proof {
            assert(out@ == old(out)@ + enc_vals(e, vs.take(
                if kk > 4 {
                    5int
                } else {
                    kk
                },
            )));
        }
        let ghost mid = out@;
        if keep > 5 {
            proof {
                assert(val_matches_at(Self::fields(), vs, 5));
            }
            wr_cn(out, self.sbin_nam.0.as_slice());
            proof {
                assert(vs[5] == Val::Cn(self.sbin_nam.0@));
                lemma_write_step(e, vs, 5, old(out)@, mid, out@);
            }
        }
        proof {
            assert(out@ == old(out)@ + enc_vals(e, vs.take(
                if kk > 5 {
                    6int
                } else {
                    kk
                },
            )));
        }
        proof {
            assert(out@ == old(out)@ + enc_vals(e, vs.take(kk)));
        }
    }
}

} // verus!
