//! Program-section, generic-data, and datalog-text records.

use vstd::prelude::*;

use crate::fields::{
    d_cn, d_dn, d_u1, d_u2, d_u4, d_u8, i16_from_bits, i16_to_bits, i32_from_bits, i32_to_bits,
    i64_from_bits, i64_to_bits, i8_from_bits, i8_to_bits, rd_arr_cn, rd_arr_n1, rd_arr_u1,
    rd_arr_u2, rd_arr_u4, rd_arr_vn, rd_cn, rd_dn, rd_u1, rd_u2, rd_u4, rd_u8w, wr_arr_cn,
    wr_arr_n1, wr_arr_u1, wr_arr_u2, wr_arr_u4, wr_arr_vn, wr_cn, wr_dn, wr_u1, wr_u2, wr_u4,
    wr_u8w,
};
use crate::types::{Bn, Cn, Dn, Endian, StdfError, Vn, B1, C1, I1, I2, I4, I8, N1, R4, R8, U1, U2,
    U4, U4E, U8};
use crate::wire::{
    counts_strict_upto, enc_vals, fd, from_i16, from_i32, from_i64, from_i8, lemma_pres_begin,
    lemma_pres_end, lemma_pres_step, lemma_pres_step_arr, lemma_read_begin, lemma_read_end,
    lemma_read_step, lemma_read_step_arr, lemma_read_step_arr_none, lemma_read_step_none,
    lemma_roundtrip,
    lemma_sdecode_match, lemma_sdecode_present, lemma_signed_round_trip, lemma_write_begin,
    lemma_write_end, lemma_write_step, sdecode, sdecode_from, spres, spres_inv, suppressible,
    val_matches_at, vals_match, vnv_wf, Dflt, Elem, FieldDef, FieldKind, Val,
};


verus! {

/// BPS: the Begin Program Section Record, with pair (20, 10).
#[derive(Clone, Debug, PartialEq, Eq)]
pub struct BPS {
    pub seq_name: Cn,
    /// How many leading fields stood on the wire when the record
    /// was decoded; `write` puts exactly these back.
    pub present: usize,
}

impl BPS {
    /// The field layout of the record: wire kind, default, and for
    /// an array the position of its count field.
    pub open spec fn fields() -> Seq<FieldDef> {
        seq![
            fd(FieldKind::KCn, d_cn(true)),
        ]
    }

    /// The field values of the record, in declaration order.
    pub open spec fn val_seq(self) -> Seq<Val> {
        seq![
            Val::Cn(self.seq_name.0@),
        ]
    }

    /// Well-formedness: every value fits its wire layout, arrays are
    /// as long as their count fields say or stand empty past the
    /// wire, and the on-the-wire count covers at most every field.
    pub open spec fn wf(self) -> bool {
        vals_match(Self::fields(), self.val_seq()) && self.present <= 1
    }

    /// Well-formedness is exactly conformance of the values to the
    /// layout, with the on-the-wire count in bounds.
    pub proof fn lemma_wf_is_match(self)
        ensures
            self.wf() == (vals_match(Self::fields(), self.val_seq()) && self.present
                <= Self::fields().len()),
    {
    }

    /// The payload bytes of the record under a byte order: the
    /// fields that stood on the wire, in declaration order; the
    /// absent tail stays off it.
    pub open spec fn enc(self, e: Endian) -> Seq<u8> {
        enc_vals(e, self.val_seq().take(self.present as int))
    }

    /// Every array that stood on the wire is as long as its count
    /// field says, so the record can be framed back onto it.
    pub open spec fn counts_ok(self) -> bool {
        counts_strict_upto(Self::fields(), self.val_seq(), self.present as int)
    }

    /// Every field past the on-the-wire count holds its declared
    /// default or is empty.
    pub open spec fn tail_absent(self) -> bool {
        forall|i: int|
            self.present <= i < Self::fields().len() ==> #[trigger] suppressible(
                Self::fields()[i],
                self.val_seq()[i],
            )
    }

    /// A record decoded off the wire is framed: its on-the-wire
    /// arrays match their counts and its absent fields hold their
    /// defaults.
    pub proof fn lemma_decoded_shape(self, s: Seq<u8>, e: Endian)
        requires
            sdecode(s, e, Self::fields()) == Some(self.val_seq()),
            self.present as int == spres(s, e, Self::fields()),
        ensures
            self.counts_ok(),
            self.tail_absent(),
    {
        lemma_sdecode_present(s, e, Self::fields());
    }

    /// Decodes a record payload: fields in declaration order, trailing
    /// absent fields at their defaults.
    pub fn read(bytes: &[u8], e: Endian) -> (r: Result<BPS, StdfError>)
        ensures
            match r {
                Ok(rec) => sdecode(bytes@, e, Self::fields()) == Some(rec.val_seq())
                    && rec.wf() && rec.present as int == spres(bytes@, e, Self::fields()),
                Err(_) => sdecode(bytes@, e, Self::fields()) is None,
            },
    {
        let ghost s = bytes@;
        let ghost fs = Self::fields();
        let mut off: usize = 0;
        let mut pres: usize = 0;
        let ghost mut acc = Seq::<Val>::empty();
        proof {
            lemma_read_begin(s, e, fs);
            lemma_pres_begin(s, e, fs);
        }
        let ghost off0 = off as int;
        let ghost p0 = pres as int;
        if off < bytes.len() {
            pres = 1;
        }
        let rv_seq_name = match rd_cn(bytes, &mut off, e, true) {
            Ok(v) => v,
            Err(er) => {
                proof {
                    lemma_read_step_none(s, e, fs, 0, fd(FieldKind::KCn, d_cn(true)), off0, acc);
                }
                return Err(er);
            },
        };
        proof {
            lemma_read_step(s, e, fs, 0, fd(FieldKind::KCn, d_cn(true)), off0, off as int, acc, Val::Cn(rv_seq_name@));
            lemma_pres_step(s, e, fs, 0, fd(FieldKind::KCn, d_cn(true)), off0, off as int, acc, Val::Cn(rv_seq_name@), p0,
                pres as int);
            acc = acc.push(Val::Cn(rv_seq_name@));
        }
        let rec = BPS {
            seq_name: Cn(rv_seq_name),
            present: pres,
        };
        proof {
            lemma_read_end(s, e, fs, off as int, acc);
            lemma_pres_end(s, e, fs, off as int, acc, pres as int);
            assert(rec.val_seq() =~= acc);
            lemma_sdecode_match(s, e, fs);
        }
        Ok(rec)
    }

    /// Appends the payload encoding of the record to a buffer.
    pub fn write(&self, out: &mut Vec<u8>, e: Endian)
        requires
            self.wf(),
        ensures
            final(out)@ == old(out)@ + self.enc(e),
    {
        let ghost vs = self.val_seq();
        let ghost kk = self.present as int;
        let keep = self.present;
        proof {
            assert(0 <= kk <= 1);
            lemma_write_begin(e, vs, old(out)@);
        }
        let ghost mid = out@;
        if keep > 0 {
            proof {
                assert(val_matches_at(Self::fields(), vs, 0));
            }
            wr_cn(out, self.seq_name.0.as_slice());
            proof {
                assert(vs[0] == Val::Cn(self.seq_name.0@));
                lemma_write_step(e, vs, 0, old(out)@, mid, out@);
            }
        }
        proof {
            assert(out@ == old(out)@ + enc_vals(e, vs.take(
                if kk > 0 {
                    1int
                } else {
                    kk
                },
            )));
        }
        proof {
            assert(out@ == old(out)@ + enc_vals(e, vs.take(kk)));
        }
    }
}

/// EPS: the End Program Section Record, with pair (20, 20).
#[derive(Clone, Debug, PartialEq, Eq)]
pub struct EPS;

impl EPS {
    /// The field layout of the record: wire kind, default, and for
    /// an array the position of its count field.
    pub open spec fn fields() -> Seq<FieldDef> {
        Seq::<FieldDef>::empty()
    }

    /// The field values of the record, in declaration order.
    pub open spec fn val_seq(self) -> Seq<Val> {
        Seq::<Val>::empty()
    }

    /// Well-formedness: every value fits its wire layout, arrays are
    /// as long as their count fields say or stand empty past the
    /// wire, and the on-the-wire count covers at most every field.
    pub open spec fn wf(self) -> bool {
        vals_match(Self::fields(), self.val_seq())
    }

    /// Well-formedness is exactly conformance of the values to the
    /// layout, with the on-the-wire count in bounds.
    pub proof fn lemma_wf_is_match(self)
        ensures
            self.wf() == vals_match(Self::fields(), self.val_seq()),
    {
    }

    /// The payload bytes of the record under a byte order: the
    /// fields that stood on the wire, in declaration order; the
    /// absent tail stays off it.
    pub open spec fn enc(self, e: Endian) -> Seq<u8> {
        enc_vals(e, self.val_seq())
    }

    /// Every array that stood on the wire is as long as its count
    /// field says, so the record can be framed back onto it.
    pub open spec fn counts_ok(self) -> bool {
        true
    }

    /// Every field past the on-the-wire count holds its declared
    /// default or is empty.
    pub open spec fn tail_absent(self) -> bool {
        true
    }

    /// The record's empty payload decodes back to its empty values.
    pub proof fn lemma_empty_round_trip(self, e: Endian)
        ensures
            sdecode(self.enc(e), e, Self::fields()) == Some(self.val_seq()),
    {
        lemma_roundtrip(e, Self::fields(), self.val_seq());
    }

    /// Decodes a record payload: fields in declaration order, trailing
    /// absent fields at their defaults.
    pub fn read(bytes: &[u8], e: Endian) -> (r: Result<EPS, StdfError>)
        ensures
            match r {
                Ok(rec) => sdecode(bytes@, e, Self::fields()) == Some(rec.val_seq())
                    && rec.wf(),
                Err(_) => sdecode(bytes@, e, Self::fields()) is None,
            },
    {
        let ghost s = bytes@;
        let ghost fs = Self::fields();
        let mut off: usize = 0;
        let ghost mut acc = Seq::<Val>::empty();
        proof {
            lemma_read_begin(s, e, fs);
        }
        let rec = EPS;
        proof {
            lemma_read_end(s, e, fs, off as int, acc);
            assert(rec.val_seq() =~= acc);
            lemma_sdecode_match(s, e, fs);
        }
        Ok(rec)
    }

    /// Appends the payload encoding of the record to a buffer.
    pub fn write(&self, out: &mut Vec<u8>, e: Endian)
        requires
            self.wf(),
        ensures
            final(out)@ == old(out)@ + self.enc(e),
    {
        let ghost vs = self.val_seq();
        proof {
            lemma_write_begin(e, vs, old(out)@);
        }
        proof {
            lemma_write_begin(e, vs, out@);
            assert(vs.take(0int) =~= vs);
            assert(out@ =~= old(out)@ + enc_vals(e, vs));
        }
    }
}

/// GDR: the Generic Data Record, with pair (50, 10).
#[derive(Clone, Debug, PartialEq, Eq)]
pub struct GDR {
    pub fld_cnt: U2,
    pub gen_data: Vec<Vn>,
    /// How many leading fields stood on the wire when the record
    /// was decoded; `write` puts exactly these back.
    pub present: usize,
}

impl GDR {
    /// The field layout of the record: wire kind, default, and for
    /// an array the position of its count field.
    pub open spec fn fields() -> Seq<FieldDef> {
        seq![
            fd(FieldKind::KU2, d_u2(Some(0u16))),
            fd(FieldKind::KArr(Elem::EVn, 0), None),
        ]
    }

    /// The field values of the record, in declaration order.
    pub open spec fn val_seq(self) -> Seq<Val> {
        seq![
            Val::U2(self.fld_cnt.0),
            Val::ArrVn(self.gen_data.deep_view()),
        ]
    }

    /// Well-formedness: every value fits its wire layout, arrays are
    /// as long as their count fields say or stand empty past the
    /// wire, and the on-the-wire count covers at most every field.
    pub open spec fn wf(self) -> bool {
        vals_match(Self::fields(), self.val_seq()) && self.present <= 2
    }

    /// Well-formedness is exactly conformance of the values to the
    /// layout, with the on-the-wire count in bounds.
    pub proof fn lemma_wf_is_match(self)
        ensures
            self.wf() == (vals_match(Self::fields(), self.val_seq()) && self.present
                <= Self::fields().len()),
    {
    }

    /// The payload bytes of the record under a byte order: the
    /// fields that stood on the wire, in declaration order; the
    /// absent tail stays off it.
    pub open spec fn enc(self, e: Endian) -> Seq<u8> {
        enc_vals(e, self.val_seq().take(self.present as int))
    }

    /// Every array that stood on the wire is as long as its count
    /// field says, so the record can be framed back onto it.
    pub open spec fn counts_ok(self) -> bool {
        counts_strict_upto(Self::fields(), self.val_seq(), self.present as int)
    }

    /// Every field past the on-the-wire count holds its declared
    /// default or is empty.
    pub open spec fn tail_absent(self) -> bool {
        forall|i: int|
            self.present <= i < Self::fields().len() ==> #[trigger] suppressible(
                Self::fields()[i],
                self.val_seq()[i],
            )
    }

    /// A record decoded off the wire is framed: its on-the-wire
    /// arrays match their counts and its absent fields hold their
    /// defaults.
    pub proof fn lemma_decoded_shape(self, s: Seq<u8>, e: Endian)
        requires
            sdecode(s, e, Self::fields()) == Some(self.val_seq()),
            self.present as int == spres(s, e, Self::fields()),
        ensures
            self.counts_ok(),
            self.tail_absent(),
    {
        lemma_sdecode_present(s, e, Self::fields());
    }

    /// Decodes a record payload: fields in declaration order, trailing
    /// absent fields at their defaults.
    pub fn read(bytes: &[u8], e: Endian) -> (r: Result<GDR, StdfError>)
        ensures
            match r {
                Ok(rec) => sdecode(bytes@, e, Self::fields()) == Some(rec.val_seq())
                    && rec.wf() && rec.present as int == spres(bytes@, e, Self::fields()),
                Err(_) => sdecode(bytes@, e, Self::fields()) is None,
            },
    {
        let ghost s = bytes@;
        let ghost fs = Self::fields();
        let mut off: usize = 0;
        let mut pres: usize = 0;
        let ghost mut acc = Seq::<Val>::empty();
        proof {
            lemma_read_begin(s, e, fs);
            lemma_pres_begin(s, e, fs);
        }
        let ghost off0 = off as int;
        let ghost p0 = pres as int;
        if off < bytes.len() {
            pres = 1;
        }
        let rv_fld_cnt = match rd_u2(bytes, &mut off, e, Some(0u16)) {
            Ok(v) => v,
            Err(er) => {
                proof {
                    lemma_read_step_none(s, e, fs, 0, fd(FieldKind::KU2, d_u2(Some(0u16))), off0, acc);
                }
                return Err(er);
            },
        };
        proof {
            lemma_read_step(s, e, fs, 0, fd(FieldKind::KU2, d_u2(Some(0u16))), off0, off as int, acc, Val::U2(rv_fld_cnt));
            lemma_pres_step(s, e, fs, 0, fd(FieldKind::KU2, d_u2(Some(0u16))), off0, off as int, acc, Val::U2(rv_fld_cnt), p0,
                pres as int);
            acc = acc.push(Val::U2(rv_fld_cnt));
        }
        let ghost off0 = off as int;
        let ghost p0 = pres as int;
        if off < bytes.len() {
            pres = 2;
        }
        proof {
            assert(acc[0] == Val::U2(rv_fld_cnt));
        }
        let rv_gen_data = match rd_arr_vn(bytes, &mut off, e, rv_fld_cnt as usize) {
            Ok(v) => v,
            Err(er) => {
                proof {
                    lemma_read_step_arr_none(s, e, fs, 1, Elem::EVn, 0, off0, acc,
                        rv_fld_cnt as int);
                }
                return Err(er);
            },
        };
        proof {
            lemma_read_step_arr(s, e, fs, 1, Elem::EVn, 0, off0, off as int, acc,
                Val::ArrVn(rv_gen_data.deep_view()), rv_fld_cnt as int);
            lemma_pres_step_arr(s, e, fs, 1, Elem::EVn, 0, off0, off as int, acc,
                Val::ArrVn(rv_gen_data.deep_view()), rv_fld_cnt as int, p0, pres as int);
            acc = acc.push(Val::ArrVn(rv_gen_data.deep_view()));
        }
        let rec = GDR {
            fld_cnt: U2(rv_fld_cnt),
            gen_data: rv_gen_data,
            present: pres,
        };
        proof {
            lemma_read_end(s, e, fs, off as int, acc);
            lemma_pres_end(s, e, fs, off as int, acc, pres as int);
            assert(rec.val_seq() =~= acc);
            lemma_sdecode_match(s, e, fs);
        }
        Ok(rec)
    }

    /// Appends the payload encoding of the record to a buffer.
    pub fn write(&self, out: &mut Vec<u8>, e: Endian)
        requires
            self.wf(),
        ensures
            final(out)@ == old(out)@ + self.enc(e),
    {
        let ghost vs = self.val_seq();
        let ghost kk = self.present as int;
        let keep = self.present;
        proof {
            assert(0 <= kk <= 2);
            lemma_write_begin(e, vs, old(out)@);
        }
        let ghost mid = out@;
        if keep > 0 {
            wr_u2(out, e, self.fld_cnt.0);
            proof {
                assert(vs[0] == Val::U2(self.fld_cnt.0));
                lemma_write_step(e, vs, 0, old(out)@, mid, out@);
            }
        }
        proof {
            assert(out@ == old(out)@ + enc_vals(e, vs.take(
                if kk > 0 {
                    1int
                } else {
                    kk
                },
            )));
        }
        let ghost mid = out@;
        if keep > 1 {
            proof {
                assert(val_matches_at(Self::fields(), vs, 1));
                assert forall|x: int| 0 <= x < self.gen_data@.len() implies #[trigger] vnv_wf(self.gen_data@[x]@) by {
                    assert(self.gen_data.deep_view()[x] == self.gen_data@[x]@);
                }
            }
            wr_arr_vn(out, e, &self.gen_data);
            proof {
                assert(vs[1] == Val::ArrVn(self.gen_data.deep_view()));
                lemma_write_step(e, vs, 1, old(out)@, mid, out@);
            }
        }
        proof {
            assert(out@ == old(out)@ + enc_vals(e, vs.take(
                if kk > 1 {
                    2int
                } else {
                    kk
                },
            )));
        }
        proof {
            assert(out@ == old(out)@ + enc_vals(e, vs.take(kk)));
        }
    }
}

/// DTR: the Datalog Text Record, with pair (50, 30).
#[derive(Clone, Debug, PartialEq, Eq)]
pub struct DTR {
    pub text_dat: Cn,
    /// How many leading fields stood on the wire when the record
    /// was decoded; `write` puts exactly these back.
    pub present: usize,
}

impl DTR {
    /// The field layout of the record: wire kind, default, and for
    /// an array the position of its count field.
    pub open spec fn fields() -> Seq<FieldDef> {
        seq![
            fd(FieldKind::KCn, d_cn(true)),
        ]
    }

    /// The field values of the record, in declaration order.
    pub open spec fn val_seq(self) -> Seq<Val> {
        seq![
            Val::Cn(self.text_dat.0@),
        ]
    }

    /// Well-formedness: every value fits its wire layout, arrays are
    /// as long as their count fields say or stand empty past the
    /// wire, and the on-the-wire count covers at most every field.
    pub open spec fn wf(self) -> bool {
        vals_match(Self::fields(), self.val_seq()) && self.present <= 1
    }

    /// Well-formedness is exactly conformance of the values to the
    /// layout, with the on-the-wire count in bounds.
    pub proof fn lemma_wf_is_match(self)
        ensures
            self.wf() == (vals_match(Self::fields(), self.val_seq()) && self.present
                <= Self::fields().len()),
    {
    }

    /// The payload bytes of the record under a byte order: the
    /// fields that stood on the wire, in declaration order; the
    /// absent tail stays off it.
    pub open spec fn enc(self, e: Endian) -> Seq<u8> {
        enc_vals(e, self.val_seq().take(self.present as int))
    }

    /// Every array that stood on the wire is as long as its count
    /// field says, so the record can be framed back onto it.
    pub open spec fn counts_ok(self) -> bool {
        counts_strict_upto(Self::fields(), self.val_seq(), self.present as int)
    }

    /// Every field past the on-the-wire count holds its declared
    /// default or is empty.
    pub open spec fn tail_absent(self) -> bool {
        forall|i: int|
            self.present <= i < Self::fields().len() ==> #[trigger] suppressible(
                Self::fields()[i],
                self.val_seq()[i],
            )
    }

    /// A record decoded off the wire is framed: its on-the-wire
    /// arrays match their counts and its absent fields hold their
    /// defaults.
    pub proof fn lemma_decoded_shape(self, s: Seq<u8>, e: Endian)
        requires
            sdecode(s, e, Self::fields()) == Some(self.val_seq()),
            self.present as int == spres(s, e, Self::fields()),
        ensures
            self.counts_ok(),
            self.tail_absent(),
    {
        lemma_sdecode_present(s, e, Self::fields());
    }

    /// Decodes a record payload: fields in declaration order, trailing
    /// absent fields at their defaults.
    pub fn read(bytes: &[u8], e: Endian) -> (r: Result<DTR, StdfError>)
        ensures
            match r {
                Ok(rec) => sdecode(bytes@, e, Self::fields()) == Some(rec.val_seq())
                    && rec.wf() && rec.present as int == spres(bytes@, e, Self::fields()),
                Err(_) => sdecode(bytes@, e, Self::fields()) is None,
            },
    {
        let ghost s = bytes@;
        let ghost fs = Self::fields();
        let mut off: usize = 0;
        let mut pres: usize = 0;
        let ghost mut acc = Seq::<Val>::empty();
        proof {
            lemma_read_begin(s, e, fs);
            lemma_pres_begin(s, e, fs);
        }
        let ghost off0 = off as int;
        let ghost p0 = pres as int;
        if off < bytes.len() {
            pres = 1;
        }
        let rv_text_dat = match rd_cn(bytes, &mut off, e, true) {
            Ok(v) => v,
            Err(er) => {
                proof {
                    lemma_read_step_none(s, e, fs, 0, fd(FieldKind::KCn, d_cn(true)), off0, acc);
                }
                return Err(er);
            },
        };
        proof {
            lemma_read_step(s, e, fs, 0, fd(FieldKind::KCn, d_cn(true)), off0, off as int, acc, Val::Cn(rv_text_dat@));
            lemma_pres_step(s, e, fs, 0, fd(FieldKind::KCn, d_cn(true)), off0, off as int, acc, Val::Cn(rv_text_dat@), p0,
                pres as int);
            acc = acc.push(Val::Cn(rv_text_dat@));
        }
        let rec = DTR {
            text_dat: Cn(rv_text_dat),
            present: pres,
        };
        proof {
            lemma_read_end(s, e, fs, off as int, acc);
            lemma_pres_end(s, e, fs, off as int, acc, pres as int);
            assert(rec.val_seq() =~= acc);
            lemma_sdecode_match(s, e, fs);
        }
        Ok(rec)
    }

    /// Appends the payload encoding of the record to a buffer.
    pub fn write(&self, out: &mut Vec<u8>, e: Endian)
        requires
            self.wf(),
        ensures
            final(out)@ == old(out)@ + self.enc(e),
    {
        let ghost vs = self.val_seq();
        let ghost kk = self.present as int;
        let keep = self.present;
        proof {
            assert(0 <= kk <= 1);
            lemma_write_begin(e, vs, old(out)@);
        }
        let ghost mid = out@;
        if keep > 0 {
            proof {
                assert(val_matches_at(Self::fields(), vs, 0));
            }
            wr_cn(out, self.text_dat.0.as_slice());
            proof {
                assert(vs[0] == Val::Cn(self.text_dat.0@));
                lemma_write_step(e, vs, 0, old(out)@, mid, out@);
            }
        }
        proof {
            assert(out@ == old(out)@ + enc_vals(e, vs.take(
                if kk > 0 {
                    1int
                } else {
                    kk
                },
            )));
        }
        proof {
            assert(out@ == old(out)@ + enc_vals(e, vs.take(kk)));
        }
    }
}

} // verus!
