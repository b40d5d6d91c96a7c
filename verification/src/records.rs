//! The record stream: the four-byte header, byte-order detection, the
//! closed sum of the record variants, and the dispatch that reads and
//! writes whole records.

use vstd::prelude::*;

use crate::fields::wr_bytes;
use crate::rec_gen::{BPS, DTR, EPS, GDR};
use crate::rec_lot::{ATR, FAR, HBR, MIR, MRR, PCR, SBR};
use crate::rec_part::{PIR, PRR};
use crate::rec_pin::{PGR, PLR, PMR, RDR, SDR};
use crate::rec_test::{FTR, MPR, PTR, TSR};
use crate::rec_wafer::{WCR, WIR, WRR};
use crate::types::{Endian, StdfError, U1, U2};
use crate::wire::{
    comb16, enc16, lemma_comb16_enc, lemma_enc16_comb, lemma_roundtrip, lemma_roundtrip_trim,
    sdecode, spres, Val,
};

verus! {

/// The four-byte header in front of every record: a 16-bit payload length,
/// then the type and subtype selectors that pick the variant.
#[derive(Clone, Copy, Debug, PartialEq, Eq, Structural)]
pub struct Header {
    pub rec_len: U2,
    pub rec_typ: U1,
    pub rec_sub: U1,
}

impl Header {
    /// The four wire bytes of the header.
    pub open spec fn enc(self, e: Endian) -> Seq<u8> {
        enc16(e, self.rec_len.0) + seq![self.rec_typ.0, self.rec_sub.0]
    }

    /// What reading a header at `off` yields, if four bytes are there.
    pub open spec fn spec_read(s: Seq<u8>, e: Endian, off: int) -> Option<(Header, int)> {
        if 0 <= off && off + 4 <= s.len() {
            Some(
                (
                    Header {
                        rec_len: U2(comb16(e, s[off], s[off + 1])),
                        rec_typ: U1(s[off + 2]),
                        rec_sub: U1(s[off + 3]),
                    },
                    off + 4,
                ),
            )
        } else {
            None
        }
    }

    /// Reads a header and advances past it; fewer than four bytes left is
    /// a clean failure that moves nothing.
    pub fn try_read(bytes: &[u8], off: &mut usize, e: Endian) -> (r: Result<Header, StdfError>)
        requires
            *old(off) <= bytes@.len(),
        ensures
            *final(off) <= bytes@.len(),
            match r {
                Ok(h) => Self::spec_read(bytes@, e, *old(off) as int) == Some(
                    (h, *final(off) as int),
                ) && *final(off) == *old(off) + 4,
                Err(_) => Self::spec_read(bytes@, e, *old(off) as int) is None && *final(off)
                    == *old(off),
            },
    {
        if bytes.len() - *off < 4 {
            return Err(StdfError::Truncated);
        }
        let b0 = bytes[*off];
        let b1 = bytes[*off + 1];
        let rec_len = match e {
            Endian::Little => (b0 as u16) | (b1 as u16) << 8,
            Endian::Big => (b1 as u16) | (b0 as u16) << 8,
        };
        let h = Header {
            rec_len: U2(rec_len),
            rec_typ: U1(bytes[*off + 2]),
            rec_sub: U1(bytes[*off + 3]),
        };
        *off = *off + 4;
        Ok(h)
    }

    /// Appends the four header bytes.
    pub fn try_write(&self, out: &mut Vec<u8>, e: Endian)
        ensures
            final(out)@ == old(out)@ + self.enc(e),
    {
        match e {
            Endian::Little => {
                out.push((self.rec_len.0 & 0xff) as u8);
                out.push(((self.rec_len.0 >> 8) & 0xff) as u8);
            },
            Endian::Big => {
                out.push(((self.rec_len.0 >> 8) & 0xff) as u8);
                out.push((self.rec_len.0 & 0xff) as u8);
            },
        }
        out.push(self.rec_typ.0);
        out.push(self.rec_sub.0);
        proof {
            assert(out@ =~= old(out)@ + self.enc(e));
        }
    }

    /// What byte order the first four bytes of a file name, if any: the
    /// first record must be a FAR, whose payload length is two under
    /// exactly one reading of its length bytes.
    pub open spec fn spec_detect(s: Seq<u8>) -> Option<Endian> {
        if s.len() < 4 {
            None
        } else if s[2] != 0 || s[3] != 10 {
            None
        } else if comb16(Endian::Little, s[0], s[1]) == 2 {
            Some(Endian::Little)
        } else if comb16(Endian::Big, s[0], s[1]) == 2 {
            Some(Endian::Big)
        } else {
            None
        }
    }

    /// Decides the byte order of a whole file from its first record's
    /// header.  Anything but a FAR header of length two is not a
    /// version-4 file.
    pub fn detect_endian(bytes: &[u8]) -> (r: Result<Endian, StdfError>)
        ensures
            match r {
                Ok(en) => Self::spec_detect(bytes@) == Some(en),
                Err(er) => Self::spec_detect(bytes@) is None && er == StdfError::NotStdf,
            },
    {
        if bytes.len() < 4 {
            return Err(StdfError::NotStdf);
        }
        if bytes[2] != 0 || bytes[3] != 10 {
            return Err(StdfError::NotStdf);
        }
        let le = (bytes[0] as u16) | (bytes[1] as u16) << 8;
        if le == 2 {
            Ok(Endian::Little)
        } else if le == 512 {
            proof {
                let b0 = bytes@[0];
                let b1 = bytes@[1];
                assert(((b0 as u16) | (b1 as u16) << 8) == 512 ==> ((b1 as u16) | (b0 as u16)
                    << 8) == 2) by (bit_vector);
            }
            Ok(Endian::Big)
        } else {
            proof {
                let b0 = bytes@[0];
                let b1 = bytes@[1];
                assert(((b0 as u16) | (b1 as u16) << 8) != 512 ==> ((b1 as u16) | (b0 as u16)
                    << 8) != 2) by (bit_vector);
            }
            Err(StdfError::NotStdf)
        }
    }
}

/// What byte order a whole file uses, if any.  A file shorter than six
/// bytes (a header plus the two FAR payload bytes) is not a version-4
/// file; otherwise the first record's header decides, as
/// [`Header::spec_detect`] says.
pub open spec fn spec_detect_endian(s: Seq<u8>) -> Option<Endian> {
    if s.len() < 6 {
        None
    } else {
        Header::spec_detect(s)
    }
}

/// Decides the byte order of a file held in a buffer.  A buffer too short
/// to hold a FAR, or one that does not begin with one, is reported as not
/// being a version-4 file; no other error can come out.
pub fn detect_endian(bytes: &[u8]) -> (r: Result<Endian, StdfError>)
    ensures
        match r {
            Ok(en) => spec_detect_endian(bytes@) == Some(en),
            Err(er) => spec_detect_endian(bytes@) is None && er == StdfError::NotStdf,
        },
{
    if bytes.len() < 6 {
        return Err(StdfError::NotStdf);
    }
    Header::detect_endian(bytes)
}

/// The byte order a file is given depends on its first six bytes alone.
pub proof fn lemma_detect_endian_prefix(s1: Seq<u8>, s2: Seq<u8>)
    requires
        s1.len() >= 6,
        s2.len() >= 6,
        s1.subrange(0, 6) == s2.subrange(0, 6),
    ensures
        spec_detect_endian(s1) == spec_detect_endian(s2),
{
    assert forall|i: int| 0 <= i < 6 implies s1[i] == s2[i] by {
        assert(s1.subrange(0, 6)[i] == s1[i]);
        assert(s2.subrange(0, 6)[i] == s2[i]);
        assert(s1.subrange(0, 6)[i] == s2.subrange(0, 6)[i]);
    }
}

/// A record whose pair no variant claims, or whose payload its variant
/// cannot decode, kept as the raw bytes it came with.
#[derive(Clone, Debug, PartialEq, Eq)]
pub struct Raw {
    pub rec_typ: U1,
    pub rec_sub: U1,
    pub contents: Vec<u8>,
}

/// The closed sum of the record variants, with two fallbacks: a pair no
/// variant claims decodes to `Unknown`, a claimed pair whose payload
/// cannot be decoded becomes `Invalid`; both carry the raw payload.
#[derive(Clone, Debug, PartialEq, Eq)]
pub enum V4 {
    FAR(FAR),
    ATR(ATR),
    MIR(MIR),
    MRR(MRR),
    PCR(PCR),
    HBR(HBR),
    SBR(SBR),
    PMR(PMR),
    PGR(PGR),
    PLR(PLR),
    RDR(RDR),
    SDR(SDR),
    WIR(WIR),
    WRR(WRR),
    WCR(WCR),
    PIR(PIR),
    PRR(PRR),
    TSR(TSR),
    PTR(PTR),
    MPR(MPR),
    FTR(FTR),
    BPS(BPS),
    EPS(EPS),
    GDR(GDR),
    DTR(DTR),
    Unknown(Raw),
    Invalid(Raw),
}

/// Whether a (type, subtype) pair selects a record variant.
pub open spec fn spec_supported(typ: u8, sub: u8) -> bool {
    (typ == 0 && sub == 10) || (typ == 0 && sub == 20) || (typ == 1 && sub == 10) || (typ == 1 && sub == 20) || (typ == 1 && sub == 30) || (typ == 1 && sub == 40) || (typ == 1 && sub == 50) || (typ == 1 && sub == 60) || (typ == 1 && sub == 62) || (typ == 1 && sub == 63) || (typ == 1 && sub == 70) || (typ == 1 && sub == 80) || (typ == 2 && sub == 10) || (typ == 2 && sub == 20) || (typ == 2 && sub == 30) || (typ == 5 && sub == 10) || (typ == 5 && sub == 20) || (typ == 10 && sub == 30) || (typ == 15 && sub == 10) || (typ == 15 && sub == 15) || (typ == 15 && sub == 20) || (typ == 20 && sub == 10) || (typ == 20 && sub == 20) || (typ == 50 && sub == 10) || (typ == 50 && sub == 30)
}

/// The descriptor of the variant a pair selects; an unclaimed pair has
/// no fields.
pub open spec fn spec_fields_of(typ: u8, sub: u8) -> Seq<crate::wire::FieldDef> {
    if typ == 0 && sub == 10 {
        FAR::fields()
    } else if typ == 0 && sub == 20 {
        ATR::fields()
    } else if typ == 1 && sub == 10 {
        MIR::fields()
    } else if typ == 1 && sub == 20 {
        MRR::fields()
    } else if typ == 1 && sub == 30 {
        PCR::fields()
    } else if typ == 1 && sub == 40 {
        HBR::fields()
    } else if typ == 1 && sub == 50 {
        SBR::fields()
    } else if typ == 1 && sub == 60 {
        PMR::fields()
    } else if typ == 1 && sub == 62 {
        PGR::fields()
    } else if typ == 1 && sub == 63 {
        PLR::fields()
    } else if typ == 1 && sub == 70 {
        RDR::fields()
    } else if typ == 1 && sub == 80 {
        SDR::fields()
    } else if typ == 2 && sub == 10 {
        WIR::fields()
    } else if typ == 2 && sub == 20 {
        WRR::fields()
    } else if typ == 2 && sub == 30 {
        WCR::fields()
    } else if typ == 5 && sub == 10 {
        PIR::fields()
    } else if typ == 5 && sub == 20 {
        PRR::fields()
    } else if typ == 10 && sub == 30 {
        TSR::fields()
    } else if typ == 15 && sub == 10 {
        PTR::fields()
    } else if typ == 15 && sub == 15 {
        MPR::fields()
    } else if typ == 15 && sub == 20 {
        FTR::fields()
    } else if typ == 20 && sub == 10 {
        BPS::fields()
    } else if typ == 20 && sub == 20 {
        EPS::fields()
    } else if typ == 50 && sub == 10 {
        GDR::fields()
    } else if typ == 50 && sub == 30 {
        DTR::fields()
    } else {
        Seq::empty()
    }
}

/// How a decoded record relates to the header pair and payload it came
/// from: a variant's pair must match, its values must be exactly what
/// the payload decodes to, and the fallbacks must carry the payload raw.
pub open spec fn rec_matches(rec: V4, typ: u8, sub: u8, pl: Seq<u8>, e: Endian) -> bool {
    match rec {
        V4::FAR(x) => typ == 0 && sub == 10 && sdecode(pl, e, FAR::fields()) == Some(
            x.val_seq(),
        ) && x.wf() && x.present as int == spres(pl, e, FAR::fields()),
        V4::ATR(x) => typ == 0 && sub == 20 && sdecode(pl, e, ATR::fields()) == Some(
            x.val_seq(),
        ) && x.wf() && x.present as int == spres(pl, e, ATR::fields()),
        V4::MIR(x) => typ == 1 && sub == 10 && sdecode(pl, e, MIR::fields()) == Some(
            x.val_seq(),
        ) && x.wf() && x.present as int == spres(pl, e, MIR::fields()),
        V4::MRR(x) => typ == 1 && sub == 20 && sdecode(pl, e, MRR::fields()) == Some(
            x.val_seq(),
        ) && x.wf() && x.present as int == spres(pl, e, MRR::fields()),
        V4::PCR(x) => typ == 1 && sub == 30 && sdecode(pl, e, PCR::fields()) == Some(
            x.val_seq(),
        ) && x.wf() && x.present as int == spres(pl, e, PCR::fields()),
        V4::HBR(x) => typ == 1 && sub == 40 && sdecode(pl, e, HBR::fields()) == Some(
            x.val_seq(),
        ) && x.wf() && x.present as int == spres(pl, e, HBR::fields()),
        V4::SBR(x) => typ == 1 && sub == 50 && sdecode(pl, e, SBR::fields()) == Some(
            x.val_seq(),
        ) && x.wf() && x.present as int == spres(pl, e, SBR::fields()),
        V4::PMR(x) => typ == 1 && sub == 60 && sdecode(pl, e, PMR::fields()) == Some(
            x.val_seq(),
        ) && x.wf() && x.present as int == spres(pl, e, PMR::fields()),
        V4::PGR(x) => typ == 1 && sub == 62 && sdecode(pl, e, PGR::fields()) == Some(
            x.val_seq(),
        ) && x.wf() && x.present as int == spres(pl, e, PGR::fields()),
        V4::PLR(x) => typ == 1 && sub == 63 && sdecode(pl, e, PLR::fields()) == Some(
            x.val_seq(),
        ) && x.wf() && x.present as int == spres(pl, e, PLR::fields()),
        V4::RDR(x) => typ == 1 && sub == 70 && sdecode(pl, e, RDR::fields()) == Some(
            x.val_seq(),
        ) && x.wf() && x.present as int == spres(pl, e, RDR::fields()),
        V4::SDR(x) => typ == 1 && sub == 80 && sdecode(pl, e, SDR::fields()) == Some(
            x.val_seq(),
        ) && x.wf() && x.present as int == spres(pl, e, SDR::fields()),
        V4::WIR(x) => typ == 2 && sub == 10 && sdecode(pl, e, WIR::fields()) == Some(
            x.val_seq(),
        ) && x.wf() && x.present as int == spres(pl, e, WIR::fields()),
        V4::WRR(x) => typ == 2 && sub == 20 && sdecode(pl, e, WRR::fields()) == Some(
            x.val_seq(),
        ) && x.wf() && x.present as int == spres(pl, e, WRR::fields()),
        V4::WCR(x) => typ == 2 && sub == 30 && sdecode(pl, e, WCR::fields()) == Some(
            x.val_seq(),
        ) && x.wf() && x.present as int == spres(pl, e, WCR::fields()),
        V4::PIR(x) => typ == 5 && sub == 10 && sdecode(pl, e, PIR::fields()) == Some(
            x.val_seq(),
        ) && x.wf() && x.present as int == spres(pl, e, PIR::fields()),
        V4::PRR(x) => typ == 5 && sub == 20 && sdecode(pl, e, PRR::fields()) == Some(
            x.val_seq(),
        ) && x.wf() && x.present as int == spres(pl, e, PRR::fields()),
        V4::TSR(x) => typ == 10 && sub == 30 && sdecode(pl, e, TSR::fields()) == Some(
            x.val_seq(),
        ) && x.wf() && x.present as int == spres(pl, e, TSR::fields()),
        V4::PTR(x) => typ == 15 && sub == 10 && sdecode(pl, e, PTR::fields()) == Some(
            x.val_seq(),
        ) && x.wf() && x.present as int == spres(pl, e, PTR::fields()),
        V4::MPR(x) => typ == 15 && sub == 15 && sdecode(pl, e, MPR::fields()) == Some(
            x.val_seq(),
        ) && x.wf() && x.present as int == spres(pl, e, MPR::fields()),
        V4::FTR(x) => typ == 15 && sub == 20 && sdecode(pl, e, FTR::fields()) == Some(
            x.val_seq(),
        ) && x.wf() && x.present as int == spres(pl, e, FTR::fields()),
        V4::BPS(x) => typ == 20 && sub == 10 && sdecode(pl, e, BPS::fields()) == Some(
            x.val_seq(),
        ) && x.wf() && x.present as int == spres(pl, e, BPS::fields()),
        V4::EPS(x) => typ == 20 && sub == 20 && sdecode(pl, e, EPS::fields()) == Some(
            x.val_seq(),
        ) && x.wf(),
        V4::GDR(x) => typ == 50 && sub == 10 && sdecode(pl, e, GDR::fields()) == Some(
            x.val_seq(),
        ) && x.wf() && x.present as int == spres(pl, e, GDR::fields()),
        V4::DTR(x) => typ == 50 && sub == 30 && sdecode(pl, e, DTR::fields()) == Some(
            x.val_seq(),
        ) && x.wf() && x.present as int == spres(pl, e, DTR::fields()),
        V4::Unknown(raw) => !spec_supported(typ, sub) && raw.rec_typ.0 == typ && raw.rec_sub.0
            == sub && raw.contents@ == pl,
        V4::Invalid(raw) => spec_supported(typ, sub) && sdecode(pl, e, spec_fields_of(typ, sub))
            is None && raw.rec_typ.0 == typ && raw.rec_sub.0 == sub && raw.contents@ == pl,
    }
}

impl V4 {
    /// The (type, subtype) pair of the variant.
    pub open spec fn spec_typ_sub(self) -> (u8, u8) {
        match self {
            V4::FAR(_) => (0u8, 10u8),
            V4::ATR(_) => (0u8, 20u8),
            V4::MIR(_) => (1u8, 10u8),
            V4::MRR(_) => (1u8, 20u8),
            V4::PCR(_) => (1u8, 30u8),
            V4::HBR(_) => (1u8, 40u8),
            V4::SBR(_) => (1u8, 50u8),
            V4::PMR(_) => (1u8, 60u8),
            V4::PGR(_) => (1u8, 62u8),
            V4::PLR(_) => (1u8, 63u8),
            V4::RDR(_) => (1u8, 70u8),
            V4::SDR(_) => (1u8, 80u8),
            V4::WIR(_) => (2u8, 10u8),
            V4::WRR(_) => (2u8, 20u8),
            V4::WCR(_) => (2u8, 30u8),
            V4::PIR(_) => (5u8, 10u8),
            V4::PRR(_) => (5u8, 20u8),
            V4::TSR(_) => (10u8, 30u8),
            V4::PTR(_) => (15u8, 10u8),
            V4::MPR(_) => (15u8, 15u8),
            V4::FTR(_) => (15u8, 20u8),
            V4::BPS(_) => (20u8, 10u8),
            V4::EPS(_) => (20u8, 20u8),
            V4::GDR(_) => (50u8, 10u8),
            V4::DTR(_) => (50u8, 30u8),
            V4::Unknown(raw) => (raw.rec_typ.0, raw.rec_sub.0),
            V4::Invalid(raw) => (raw.rec_typ.0, raw.rec_sub.0),
        }
    }

    /// Well-formedness of the variant's values; the fallbacks carry
    /// arbitrary raw bytes.
    pub open spec fn wf(self) -> bool {
        match self {
            V4::FAR(x) => x.wf(),
            V4::ATR(x) => x.wf(),
            V4::MIR(x) => x.wf(),
            V4::MRR(x) => x.wf(),
            V4::PCR(x) => x.wf(),
            V4::HBR(x) => x.wf(),
            V4::SBR(x) => x.wf(),
            V4::PMR(x) => x.wf(),
            V4::PGR(x) => x.wf(),
            V4::PLR(x) => x.wf(),
            V4::RDR(x) => x.wf(),
            V4::SDR(x) => x.wf(),
            V4::WIR(x) => x.wf(),
            V4::WRR(x) => x.wf(),
            V4::WCR(x) => x.wf(),
            V4::PIR(x) => x.wf(),
            V4::PRR(x) => x.wf(),
            V4::TSR(x) => x.wf(),
            V4::PTR(x) => x.wf(),
            V4::MPR(x) => x.wf(),
            V4::FTR(x) => x.wf(),
            V4::BPS(x) => x.wf(),
            V4::EPS(x) => x.wf(),
            V4::GDR(x) => x.wf(),
            V4::DTR(x) => x.wf(),
            V4::Unknown(_) => true,
            V4::Invalid(_) => true,
        }
    }

    /// The payload bytes the variant encodes to; the fallbacks hold
    /// theirs as they came.
    pub open spec fn payload_enc(self, e: Endian) -> Seq<u8> {
        match self {
            V4::FAR(x) => x.enc(e),
            V4::ATR(x) => x.enc(e),
            V4::MIR(x) => x.enc(e),
            V4::MRR(x) => x.enc(e),
            V4::PCR(x) => x.enc(e),
            V4::HBR(x) => x.enc(e),
            V4::SBR(x) => x.enc(e),
            V4::PMR(x) => x.enc(e),
            V4::PGR(x) => x.enc(e),
            V4::PLR(x) => x.enc(e),
            V4::RDR(x) => x.enc(e),
            V4::SDR(x) => x.enc(e),
            V4::WIR(x) => x.enc(e),
            V4::WRR(x) => x.enc(e),
            V4::WCR(x) => x.enc(e),
            V4::PIR(x) => x.enc(e),
            V4::PRR(x) => x.enc(e),
            V4::TSR(x) => x.enc(e),
            V4::PTR(x) => x.enc(e),
            V4::MPR(x) => x.enc(e),
            V4::FTR(x) => x.enc(e),
            V4::BPS(x) => x.enc(e),
            V4::EPS(x) => x.enc(e),
            V4::GDR(x) => x.enc(e),
            V4::DTR(x) => x.enc(e),
            V4::Unknown(raw) => raw.contents@,
            V4::Invalid(raw) => raw.contents@,
        }
    }

    /// The whole wire form: header, then payload.
    pub open spec fn spec_enc(self, e: Endian) -> Seq<u8> {
        Header {
            rec_len: U2(self.payload_enc(e).len() as u16),
            rec_typ: U1(self.spec_typ_sub().0),
            rec_sub: U1(self.spec_typ_sub().1),
        }.enc(e) + self.payload_enc(e)
    }

    /// Whether the record can be put on the wire: the fallbacks cannot,
    /// and a payload longer than its length field can count cannot.
    pub open spec fn spec_encodable(self, e: Endian) -> bool {
        !(self is Unknown) && !(self is Invalid) && self.payload_enc(e).len() <= 65535
    }

    /// The (type, subtype) pair of this record.
    pub fn rec_typ_sub(&self) -> (r: (u8, u8))
        ensures
            r == self.spec_typ_sub(),
    {
        match self {
            V4::FAR(_) => (0, 10),
            V4::ATR(_) => (0, 20),
            V4::MIR(_) => (1, 10),
            V4::MRR(_) => (1, 20),
            V4::PCR(_) => (1, 30),
            V4::HBR(_) => (1, 40),
            V4::SBR(_) => (1, 50),
            V4::PMR(_) => (1, 60),
            V4::PGR(_) => (1, 62),
            V4::PLR(_) => (1, 63),
            V4::RDR(_) => (1, 70),
            V4::SDR(_) => (1, 80),
            V4::WIR(_) => (2, 10),
            V4::WRR(_) => (2, 20),
            V4::WCR(_) => (2, 30),
            V4::PIR(_) => (5, 10),
            V4::PRR(_) => (5, 20),
            V4::TSR(_) => (10, 30),
            V4::PTR(_) => (15, 10),
            V4::MPR(_) => (15, 15),
            V4::FTR(_) => (15, 20),
            V4::BPS(_) => (20, 10),
            V4::EPS(_) => (20, 20),
            V4::GDR(_) => (50, 10),
            V4::DTR(_) => (50, 30),
            V4::Unknown(raw) => (raw.rec_typ.0, raw.rec_sub.0),
            V4::Invalid(raw) => (raw.rec_typ.0, raw.rec_sub.0),
        }
    }

    /// The variant's three-letter name, as the catalogue spells it; the
    /// fallbacks answer with a placeholder.
    pub fn name(&self) -> (r: String)
        ensures
            r@ == self.spec_name(),
    {
        match self {
            V4::FAR(_) => "FAR".to_owned(),
            V4::ATR(_) => "ATR".to_owned(),
            V4::MIR(_) => "MIR".to_owned(),
            V4::MRR(_) => "MRR".to_owned(),
            V4::PCR(_) => "PCR".to_owned(),
            V4::HBR(_) => "HBR".to_owned(),
            V4::SBR(_) => "SBR".to_owned(),
            V4::PMR(_) => "PMR".to_owned(),
            V4::PGR(_) => "PGR".to_owned(),
            V4::PLR(_) => "PLR".to_owned(),
            V4::RDR(_) => "RDR".to_owned(),
            V4::SDR(_) => "SDR".to_owned(),
            V4::WIR(_) => "WIR".to_owned(),
            V4::WRR(_) => "WRR".to_owned(),
            V4::WCR(_) => "WCR".to_owned(),
            V4::PIR(_) => "PIR".to_owned(),
            V4::PRR(_) => "PRR".to_owned(),
            V4::TSR(_) => "TSR".to_owned(),
            V4::PTR(_) => "PTR".to_owned(),
            V4::MPR(_) => "MPR".to_owned(),
            V4::FTR(_) => "FTR".to_owned(),
            V4::BPS(_) => "BPS".to_owned(),
            V4::EPS(_) => "EPS".to_owned(),
            V4::GDR(_) => "GDR".to_owned(),
            V4::DTR(_) => "DTR".to_owned(),
            V4::Unknown(_) => "???".to_owned(),
            V4::Invalid(_) => "???".to_owned(),
        }
    }

    /// The name the `name` method answers with.
    pub open spec fn spec_name(self) -> Seq<char> {
        match self {
            V4::FAR(_) => "FAR"@,
            V4::ATR(_) => "ATR"@,
            V4::MIR(_) => "MIR"@,
            V4::MRR(_) => "MRR"@,
            V4::PCR(_) => "PCR"@,
            V4::HBR(_) => "HBR"@,
            V4::SBR(_) => "SBR"@,
            V4::PMR(_) => "PMR"@,
            V4::PGR(_) => "PGR"@,
            V4::PLR(_) => "PLR"@,
            V4::RDR(_) => "RDR"@,
            V4::SDR(_) => "SDR"@,
            V4::WIR(_) => "WIR"@,
            V4::WRR(_) => "WRR"@,
            V4::WCR(_) => "WCR"@,
            V4::PIR(_) => "PIR"@,
            V4::PRR(_) => "PRR"@,
            V4::TSR(_) => "TSR"@,
            V4::PTR(_) => "PTR"@,
            V4::MPR(_) => "MPR"@,
            V4::FTR(_) => "FTR"@,
            V4::BPS(_) => "BPS"@,
            V4::EPS(_) => "EPS"@,
            V4::GDR(_) => "GDR"@,
            V4::DTR(_) => "DTR"@,
            V4::Unknown(_) => "???"@,
            V4::Invalid(_) => "???"@,
        }
    }

    /// Reads one whole record at the cursor: its header, then its
    /// payload, dispatched to the variant its pair selects.  A header or
    /// payload that the buffer cannot hold is a clean failure that moves
    /// nothing; a payload its variant cannot decode yields `Invalid`, an
    /// unclaimed pair yields `Unknown`.
    #[verifier::rlimit(100)]
    #[verifier::spinoff_prover]
    pub fn try_read(bytes: &[u8], off: &mut usize, e: Endian) -> (r: Result<V4, StdfError>)
        requires
            *old(off) <= bytes@.len(),
        ensures
            *final(off) <= bytes@.len(),
            match r {
                Ok(rec) => ({
                    &&& Header::spec_read(bytes@, e, *old(off) as int) is Some
                    &&& spec_framed(rec)
                    &&& {
                        let h = Header::spec_read(bytes@, e, *old(off) as int)->Some_0.0;
                        &&& *old(off) + 4 + h.rec_len.0 <= bytes@.len()
                        &&& *final(off) == *old(off) + 4 + h.rec_len.0
                        &&& rec_matches(
                            rec,
                            h.rec_typ.0,
                            h.rec_sub.0,
                            bytes@.subrange(*old(off) + 4, *final(off) as int),
                            e,
                        )
                    }
                }),
                Err(_) => (Header::spec_read(bytes@, e, *old(off) as int) is None || *old(off) + 4
                    + Header::spec_read(bytes@, e, *old(off) as int)->Some_0.0.rec_len.0
                    > bytes@.len()) && *final(off) == *old(off),
            },
    {
        let start: usize = *off;
        let mut o: usize = start;
        let h = match Header::try_read(bytes, &mut o, e) {
            Ok(h) => h,
            Err(er) => {
                return Err(er);
            },
        };
        let len = h.rec_len.0 as usize;
        if bytes.len() - o < len {
            return Err(StdfError::Truncated);
        }
        let pl = vstd::slice::slice_subrange(bytes, o, o + len);
        let typ = h.rec_typ.0;
        let sub = h.rec_sub.0;
        let rec = match (typ, sub) {
            (0u8, 10u8) => match FAR::read(pl, e) {
                Ok(x) => {
                    proof {
                        x.lemma_decoded_shape(pl@, e);
                    }
                    V4::FAR(x)
                },
                Err(_) => V4::Invalid(
                    Raw {
                        rec_typ: U1(typ),
                        rec_sub: U1(sub),
                        contents: vstd::slice::slice_to_vec(pl),
                    },
                ),
            },
            (0u8, 20u8) => match ATR::read(pl, e) {
                Ok(x) => {
                    proof {
                        x.lemma_decoded_shape(pl@, e);
                    }
                    V4::ATR(x)
                },
                Err(_) => V4::Invalid(
                    Raw {
                        rec_typ: U1(typ),
                        rec_sub: U1(sub),
                        contents: vstd::slice::slice_to_vec(pl),
                    },
                ),
            },
            (1u8, 10u8) => match MIR::read(pl, e) {
                Ok(x) => {
                    proof {
                        x.lemma_decoded_shape(pl@, e);
                    }
                    V4::MIR(x)
                },
                Err(_) => V4::Invalid(
                    Raw {
                        rec_typ: U1(typ),
                        rec_sub: U1(sub),
                        contents: vstd::slice::slice_to_vec(pl),
                    },
                ),
            },
            (1u8, 20u8) => match MRR::read(pl, e) {
                Ok(x) => {
                    proof {
                        x.lemma_decoded_shape(pl@, e);
                    }
                    V4::MRR(x)
                },
                Err(_) => V4::Invalid(
                    Raw {
                        rec_typ: U1(typ),
                        rec_sub: U1(sub),
                        contents: vstd::slice::slice_to_vec(pl),
                    },
                ),
            },
            (1u8, 30u8) => match PCR::read(pl, e) {
                Ok(x) => {
                    proof {
                        x.lemma_decoded_shape(pl@, e);
                    }
                    V4::PCR(x)
                },
                Err(_) => V4::Invalid(
                    Raw {
                        rec_typ: U1(typ),
                        rec_sub: U1(sub),
                        contents: vstd::slice::slice_to_vec(pl),
                    },
                ),
            },
            (1u8, 40u8) => match HBR::read(pl, e) {
                Ok(x) => {
                    proof {
                        x.lemma_decoded_shape(pl@, e);
                    }
                    V4::HBR(x)
                },
                Err(_) => V4::Invalid(
                    Raw {
                        rec_typ: U1(typ),
                        rec_sub: U1(sub),
                        contents: vstd::slice::slice_to_vec(pl),
                    },
                ),
            },
            (1u8, 50u8) => match SBR::read(pl, e) {
                Ok(x) => {
                    proof {
                        x.lemma_decoded_shape(pl@, e);
                    }
                    V4::SBR(x)
                },
                Err(_) => V4::Invalid(
                    Raw {
                        rec_typ: U1(typ),
                        rec_sub: U1(sub),
                        contents: vstd::slice::slice_to_vec(pl),
                    },
                ),
            },
            (1u8, 60u8) => match PMR::read(pl, e) {
                Ok(x) => {
                    proof {
                        x.lemma_decoded_shape(pl@, e);
                    }
                    V4::PMR(x)
                },
                Err(_) => V4::Invalid(
                    Raw {
                        rec_typ: U1(typ),
                        rec_sub: U1(sub),
                        contents: vstd::slice::slice_to_vec(pl),
                    },
                ),
            },
            (1u8, 62u8) => match PGR::read(pl, e) {
                Ok(x) => {
                    proof {
                        x.lemma_decoded_shape(pl@, e);
                    }
                    V4::PGR(x)
                },
                Err(_) => V4::Invalid(
                    Raw {
                        rec_typ: U1(typ),
                        rec_sub: U1(sub),
                        contents: vstd::slice::slice_to_vec(pl),
                    },
                ),
            },
            (1u8, 63u8) => match PLR::read(pl, e) {
                Ok(x) => {
                    proof {
                        x.lemma_decoded_shape(pl@, e);
                    }
                    V4::PLR(x)
                },
                Err(_) => V4::Invalid(
                    Raw {
                        rec_typ: U1(typ),
                        rec_sub: U1(sub),
                        contents: vstd::slice::slice_to_vec(pl),
                    },
                ),
            },
            (1u8, 70u8) => match RDR::read(pl, e) {
                Ok(x) => {
                    proof {
                        x.lemma_decoded_shape(pl@, e);
                    }
                    V4::RDR(x)
                },
                Err(_) => V4::Invalid(
                    Raw {
                        rec_typ: U1(typ),
                        rec_sub: U1(sub),
                        contents: vstd::slice::slice_to_vec(pl),
                    },
                ),
            },
            (1u8, 80u8) => match SDR::read(pl, e) {
                Ok(x) => {
                    proof {
                        x.lemma_decoded_shape(pl@, e);
                    }
                    V4::SDR(x)
                },
                Err(_) => V4::Invalid(
                    Raw {
                        rec_typ: U1(typ),
                        rec_sub: U1(sub),
                        contents: vstd::slice::slice_to_vec(pl),
                    },
                ),
            },
            (2u8, 10u8) => match WIR::read(pl, e) {
                Ok(x) => {
                    proof {
                        x.lemma_decoded_shape(pl@, e);
                    }
                    V4::WIR(x)
                },
                Err(_) => V4::Invalid(
                    Raw {
                        rec_typ: U1(typ),
                        rec_sub: U1(sub),
                        contents: vstd::slice::slice_to_vec(pl),
                    },
                ),
            },
            (2u8, 20u8) => match WRR::read(pl, e) {
                Ok(x) => {
                    proof {
                        x.lemma_decoded_shape(pl@, e);
                    }
                    V4::WRR(x)
                },
                Err(_) => V4::Invalid(
                    Raw {
                        rec_typ: U1(typ),
                        rec_sub: U1(sub),
                        contents: vstd::slice::slice_to_vec(pl),
                    },
                ),
            },
            (2u8, 30u8) => match WCR::read(pl, e) {
                Ok(x) => {
                    proof {
                        x.lemma_decoded_shape(pl@, e);
                    }
                    V4::WCR(x)
                },
                Err(_) => V4::Invalid(
                    Raw {
                        rec_typ: U1(typ),
                        rec_sub: U1(sub),
                        contents: vstd::slice::slice_to_vec(pl),
                    },
                ),
            },
            (5u8, 10u8) => match PIR::read(pl, e) {
                Ok(x) => {
                    proof {
                        x.lemma_decoded_shape(pl@, e);
                    }
                    V4::PIR(x)
                },
                Err(_) => V4::Invalid(
                    Raw {
                        rec_typ: U1(typ),
                        rec_sub: U1(sub),
                        contents: vstd::slice::slice_to_vec(pl),
                    },
                ),
            },
            (5u8, 20u8) => match PRR::read(pl, e) {
                Ok(x) => {
                    proof {
                        x.lemma_decoded_shape(pl@, e);
                    }
                    V4::PRR(x)
                },
                Err(_) => V4::Invalid(
                    Raw {
                        rec_typ: U1(typ),
                        rec_sub: U1(sub),
                        contents: vstd::slice::slice_to_vec(pl),
                    },
                ),
            },
            (10u8, 30u8) => match TSR::read(pl, e) {
                Ok(x) => {
                    proof {
                        x.lemma_decoded_shape(pl@, e);
                    }
                    V4::TSR(x)
                },
                Err(_) => V4::Invalid(
                    Raw {
                        rec_typ: U1(typ),
                        rec_sub: U1(sub),
                        contents: vstd::slice::slice_to_vec(pl),
                    },
                ),
            },
            (15u8, 10u8) => match PTR::read(pl, e) {
                Ok(x) => {
                    proof {
                        x.lemma_decoded_shape(pl@, e);
                    }
                    V4::PTR(x)
                },
                Err(_) => V4::Invalid(
                    Raw {
                        rec_typ: U1(typ),
                        rec_sub: U1(sub),
                        contents: vstd::slice::slice_to_vec(pl),
                    },
                ),
            },
            (15u8, 15u8) => match MPR::read(pl, e) {
                Ok(x) => {
                    proof {
                        x.lemma_decoded_shape(pl@, e);
                    }
                    V4::MPR(x)
                },
                Err(_) => V4::Invalid(
                    Raw {
                        rec_typ: U1(typ),
                        rec_sub: U1(sub),
                        contents: vstd::slice::slice_to_vec(pl),
                    },
                ),
            },
            (15u8, 20u8) => match FTR::read(pl, e) {
                Ok(x) => {
                    proof {
                        x.lemma_decoded_shape(pl@, e);
                    }
                    V4::FTR(x)
                },
                Err(_) => V4::Invalid(
                    Raw {
                        rec_typ: U1(typ),
                        rec_sub: U1(sub),
                        contents: vstd::slice::slice_to_vec(pl),
                    },
                ),
            },
            (20u8, 10u8) => match BPS::read(pl, e) {
                Ok(x) => {
                    proof {
                        x.lemma_decoded_shape(pl@, e);
                    }
                    V4::BPS(x)
                },
                Err(_) => V4::Invalid(
                    Raw {
                        rec_typ: U1(typ),
                        rec_sub: U1(sub),
                        contents: vstd::slice::slice_to_vec(pl),
                    },
                ),
            },
            (20u8, 20u8) => match EPS::read(pl, e) {
                Ok(x) => V4::EPS(x),
                Err(_) => V4::Invalid(
                    Raw {
                        rec_typ: U1(typ),
                        rec_sub: U1(sub),
                        contents: vstd::slice::slice_to_vec(pl),
                    },
                ),
            },
            (50u8, 10u8) => match GDR::read(pl, e) {
                Ok(x) => {
                    proof {
                        x.lemma_decoded_shape(pl@, e);
                    }
                    V4::GDR(x)
                },
                Err(_) => V4::Invalid(
                    Raw {
                        rec_typ: U1(typ),
                        rec_sub: U1(sub),
                        contents: vstd::slice::slice_to_vec(pl),
                    },
                ),
            },
            (50u8, 30u8) => match DTR::read(pl, e) {
                Ok(x) => {
                    proof {
                        x.lemma_decoded_shape(pl@, e);
                    }
                    V4::DTR(x)
                },
                Err(_) => V4::Invalid(
                    Raw {
                        rec_typ: U1(typ),
                        rec_sub: U1(sub),
                        contents: vstd::slice::slice_to_vec(pl),
                    },
                ),
            },
            _ => V4::Unknown(
                Raw { rec_typ: U1(typ), rec_sub: U1(sub), contents: vstd::slice::slice_to_vec(pl) },
            ),
        };
        *off = o + len;
        Ok(rec)
    }

    /// Builds the payload bytes for part of the catalogue; the other
    /// variants are passed over.
    #[verifier::rlimit(100)]
    #[verifier::spinoff_prover]
    fn build_payload_0(&self, e: Endian) -> (r: Result<Vec<u8>, StdfError>)
        requires
            self.wf(),
        ensures
            match r {
                Ok(pl) => !(*self is Unknown) && !(*self is Invalid) && pl@
                    == self.payload_enc(e),
                Err(_) => !(*self is FAR) && !(*self is ATR) && !(*self is MIR) && !(*self is MRR) && !(*self is PCR) && !(*self is HBR) && !(*self is SBR),
            },
    {
        let mut pl: Vec<u8> = Vec::new();
        match self {
            V4::FAR(x) => {
                x.write(&mut pl, e);
                proof {
                    assert(pl@ == self.payload_enc(e));
                }
            },
            V4::ATR(x) => {
                x.write(&mut pl, e);
                proof {
                    assert(pl@ == self.payload_enc(e));
                }
            },
            V4::MIR(x) => {
                x.write(&mut pl, e);
                proof {
                    assert(pl@ == self.payload_enc(e));
                }
            },
            V4::MRR(x) => {
                x.write(&mut pl, e);
                proof {
                    assert(pl@ == self.payload_enc(e));
                }
            },
            V4::PCR(x) => {
                x.write(&mut pl, e);
                proof {
                    assert(pl@ == self.payload_enc(e));
                }
            },
            V4::HBR(x) => {
                x.write(&mut pl, e);
                proof {
                    assert(pl@ == self.payload_enc(e));
                }
            },
            V4::SBR(x) => {
                x.write(&mut pl, e);
                proof {
                    assert(pl@ == self.payload_enc(e));
                }
            },
            _ => {
                return Err(StdfError::Unencodable);
            },
        }
        Ok(pl)
    }

    /// Builds the payload bytes for part of the catalogue; the other
    /// variants are passed over.
    #[verifier::rlimit(100)]
    #[verifier::spinoff_prover]
    fn build_payload_1(&self, e: Endian) -> (r: Result<Vec<u8>, StdfError>)
        requires
            self.wf(),
        ensures
            match r {
                Ok(pl) => !(*self is Unknown) && !(*self is Invalid) && pl@
                    == self.payload_enc(e),
                Err(_) => !(*self is PMR) && !(*self is PGR) && !(*self is PLR) && !(*self is RDR) && !(*self is SDR) && !(*self is WIR),
            },
    {
        let mut pl: Vec<u8> = Vec::new();
        match self {
            V4::PMR(x) => {
                x.write(&mut pl, e);
                proof {
                    assert(pl@ == self.payload_enc(e));
                }
            },
            V4::PGR(x) => {
                x.write(&mut pl, e);
                proof {
                    assert(pl@ == self.payload_enc(e));
                }
            },
            V4::PLR(x) => {
                x.write(&mut pl, e);
                proof {
                    assert(pl@ == self.payload_enc(e));
                }
            },
            V4::RDR(x) => {
                x.write(&mut pl, e);
                proof {
                    assert(pl@ == self.payload_enc(e));
                }
            },
            V4::SDR(x) => {
                x.write(&mut pl, e);
                proof {
                    assert(pl@ == self.payload_enc(e));
                }
            },
            V4::WIR(x) => {
                x.write(&mut pl, e);
                proof {
                    assert(pl@ == self.payload_enc(e));
                }
            },
            _ => {
                return Err(StdfError::Unencodable);
            },
        }
        Ok(pl)
    }

    /// Builds the payload bytes for part of the catalogue; the other
    /// variants are passed over.
    #[verifier::rlimit(100)]
    #[verifier::spinoff_prover]
    fn build_payload_2(&self, e: Endian) -> (r: Result<Vec<u8>, StdfError>)
        requires
            self.wf(),
        ensures
            match r {
                Ok(pl) => !(*self is Unknown) && !(*self is Invalid) && pl@
                    == self.payload_enc(e),
                Err(_) => !(*self is WRR) && !(*self is WCR) && !(*self is PIR) && !(*self is PRR) && !(*self is TSR) && !(*self is PTR),
            },
    {
        let mut pl: Vec<u8> = Vec::new();
        match self {
            V4::WRR(x) => {
                x.write(&mut pl, e);
                proof {
                    assert(pl@ == self.payload_enc(e));
                }
            },
            V4::WCR(x) => {
                x.write(&mut pl, e);
                proof {
                    assert(pl@ == self.payload_enc(e));
                }
            },
            V4::PIR(x) => {
                x.write(&mut pl, e);
                proof {
                    assert(pl@ == self.payload_enc(e));
                }
            },
            V4::PRR(x) => {
                x.write(&mut pl, e);
                proof {
                    assert(pl@ == self.payload_enc(e));
                }
            },
            V4::TSR(x) => {
                x.write(&mut pl, e);
                proof {
                    assert(pl@ == self.payload_enc(e));
                }
            },
            V4::PTR(x) => {
                x.write(&mut pl, e);
                proof {
                    assert(pl@ == self.payload_enc(e));
                }
            },
            _ => {
                return Err(StdfError::Unencodable);
            },
        }
        Ok(pl)
    }

    /// Builds the payload bytes for part of the catalogue; the other
    /// variants are passed over.
    #[verifier::rlimit(100)]
    #[verifier::spinoff_prover]
    fn build_payload_3(&self, e: Endian) -> (r: Result<Vec<u8>, StdfError>)
        requires
            self.wf(),
        ensures
            match r {
                Ok(pl) => !(*self is Unknown) && !(*self is Invalid) && pl@
                    == self.payload_enc(e),
                Err(_) => !(*self is MPR) && !(*self is FTR) && !(*self is BPS) && !(*self is EPS) && !(*self is GDR) && !(*self is DTR),
            },
    {
        let mut pl: Vec<u8> = Vec::new();
        match self {
            V4::MPR(x) => {
                x.write(&mut pl, e);
                proof {
                    assert(pl@ == self.payload_enc(e));
                }
            },
            V4::FTR(x) => {
                x.write(&mut pl, e);
                proof {
                    assert(pl@ == self.payload_enc(e));
                }
            },
            V4::BPS(x) => {
                x.write(&mut pl, e);
                proof {
                    assert(pl@ == self.payload_enc(e));
                }
            },
            V4::EPS(x) => {
                x.write(&mut pl, e);
                proof {
                    assert(pl@ == self.payload_enc(e));
                }
            },
            V4::GDR(x) => {
                x.write(&mut pl, e);
                proof {
                    assert(pl@ == self.payload_enc(e));
                }
            },
            V4::DTR(x) => {
                x.write(&mut pl, e);
                proof {
                    assert(pl@ == self.payload_enc(e));
                }
            },
            _ => {
                return Err(StdfError::Unencodable);
            },
        }
        Ok(pl)
    }

    /// Builds the payload bytes of the variant; the fallbacks are
    /// refused.
    fn build_payload(&self, e: Endian) -> (r: Result<Vec<u8>, StdfError>)
        requires
            self.wf(),
        ensures
            match r {
                Ok(pl) => !(*self is Unknown) && !(*self is Invalid) && pl@ == self.payload_enc(
                    e,
                ),
                Err(_) => *self is Unknown || *self is Invalid,
            },
    {
        match self.build_payload_0(e) {
            Ok(pl) => Ok(pl),
            Err(_) => match self.build_payload_1(e) {
                Ok(pl) => Ok(pl),
                Err(_) => match self.build_payload_2(e) {
                    Ok(pl) => Ok(pl),
                    Err(_) => match self.build_payload_3(e) {
                        Ok(pl) => Ok(pl),
                        Err(_) => Err(StdfError::Unencodable),
                    },
                },
            },
        }
    }

    /// Writes one whole record at the end of a buffer: its header with
    /// the payload length it really has, then the payload.  The fallback
    /// variants, and a payload too long for the length field, are refused
    /// with the buffer untouched.
    pub fn try_write(&self, out: &mut Vec<u8>, e: Endian) -> (r: Result<(), StdfError>)
        requires
            self.wf(),
        ensures
            match r {
                Ok(_) => self.spec_encodable(e) && final(out)@ == old(out)@ + self.spec_enc(e),
                Err(_) => !self.spec_encodable(e) && final(out)@ == old(out)@,
            },
    {
        let pl = match self.build_payload(e) {
            Ok(pl) => pl,
            Err(er) => {
                return Err(er);
            },
        };
        if pl.len() > 65535 {
            return Err(StdfError::Unencodable);
        }
        let ts = self.rec_typ_sub();
        let h = Header { rec_len: U2(pl.len() as u16), rec_typ: U1(ts.0), rec_sub: U1(ts.1) };
        h.try_write(out, e);
        wr_bytes(out, pl.as_slice());
        proof {
            assert(out@ =~= old(out)@ + self.spec_enc(e));
        }
        Ok(())
    }
}

/// Whether a record is framed: every array that stands on its wire form
/// is as long as its count field says, and every field past the
/// on-the-wire count holds its default or is empty.  Every record that
/// comes off the wire is framed.
pub open spec fn spec_framed(rec: V4) -> bool {
    match rec {
        V4::FAR(x) => x.counts_ok() && x.tail_absent(),
        V4::ATR(x) => x.counts_ok() && x.tail_absent(),
        V4::MIR(x) => x.counts_ok() && x.tail_absent(),
        V4::MRR(x) => x.counts_ok() && x.tail_absent(),
        V4::PCR(x) => x.counts_ok() && x.tail_absent(),
        V4::HBR(x) => x.counts_ok() && x.tail_absent(),
        V4::SBR(x) => x.counts_ok() && x.tail_absent(),
        V4::PMR(x) => x.counts_ok() && x.tail_absent(),
        V4::PGR(x) => x.counts_ok() && x.tail_absent(),
        V4::PLR(x) => x.counts_ok() && x.tail_absent(),
        V4::RDR(x) => x.counts_ok() && x.tail_absent(),
        V4::SDR(x) => x.counts_ok() && x.tail_absent(),
        V4::WIR(x) => x.counts_ok() && x.tail_absent(),
        V4::WRR(x) => x.counts_ok() && x.tail_absent(),
        V4::WCR(x) => x.counts_ok() && x.tail_absent(),
        V4::PIR(x) => x.counts_ok() && x.tail_absent(),
        V4::PRR(x) => x.counts_ok() && x.tail_absent(),
        V4::TSR(x) => x.counts_ok() && x.tail_absent(),
        V4::PTR(x) => x.counts_ok() && x.tail_absent(),
        V4::MPR(x) => x.counts_ok() && x.tail_absent(),
        V4::FTR(x) => x.counts_ok() && x.tail_absent(),
        V4::BPS(x) => x.counts_ok() && x.tail_absent(),
        V4::EPS(x) => x.counts_ok() && x.tail_absent(),
        V4::GDR(x) => x.counts_ok() && x.tail_absent(),
        V4::DTR(x) => x.counts_ok() && x.tail_absent(),
        V4::Unknown(_) => true,
        V4::Invalid(_) => true,
    }
}

/// One part of the record round trip, covering part of the catalogue.
#[verifier::rlimit(100)]
#[verifier::spinoff_prover]
proof fn lemma_round_trip_0(rec: V4, rec2: V4, e: Endian)
    requires
        rec is FAR || rec is ATR || rec is MIR || rec is MRR || rec is PCR || rec is HBR || rec is SBR,
        rec.wf(),
        spec_framed(rec),
        rec.spec_encodable(e),
        rec_matches(rec2, rec.spec_typ_sub().0, rec.spec_typ_sub().1, rec.payload_enc(e), e),
    ensures
        rec2.wf(),
        spec_framed(rec2),
        rec2.spec_encodable(e),
        rec2.spec_typ_sub() == rec.spec_typ_sub(),
        rec2.payload_enc(e) == rec.payload_enc(e),
        rec2.spec_enc(e) == rec.spec_enc(e),
{
    match rec {
        V4::FAR(x) => {
            x.lemma_wf_is_match();
            lemma_roundtrip_trim(e, FAR::fields(), x.val_seq(), x.present as int);
            match rec2 {
                V4::FAR(x2) => {
                    x2.lemma_wf_is_match();
                    x2.lemma_decoded_shape(rec.payload_enc(e), e);
                    assert(x2.val_seq().take(x2.present as int) == x.val_seq().take(
                        x2.present as int,
                    ));
                },
                _ => {},
            }
        },
        V4::ATR(x) => {
            x.lemma_wf_is_match();
            lemma_roundtrip_trim(e, ATR::fields(), x.val_seq(), x.present as int);
            match rec2 {
                V4::ATR(x2) => {
                    x2.lemma_wf_is_match();
                    x2.lemma_decoded_shape(rec.payload_enc(e), e);
                    assert(x2.val_seq().take(x2.present as int) == x.val_seq().take(
                        x2.present as int,
                    ));
                },
                _ => {},
            }
        },
        V4::MIR(x) => {
            x.lemma_wf_is_match();
            lemma_roundtrip_trim(e, MIR::fields(), x.val_seq(), x.present as int);
            match rec2 {
                V4::MIR(x2) => {
                    x2.lemma_wf_is_match();
                    x2.lemma_decoded_shape(rec.payload_enc(e), e);
                    assert(x2.val_seq().take(x2.present as int) == x.val_seq().take(
                        x2.present as int,
                    ));
                },
                _ => {},
            }
        },
        V4::MRR(x) => {
            x.lemma_wf_is_match();
            lemma_roundtrip_trim(e, MRR::fields(), x.val_seq(), x.present as int);
            match rec2 {
                V4::MRR(x2) => {
                    x2.lemma_wf_is_match();
                    x2.lemma_decoded_shape(rec.payload_enc(e), e);
                    assert(x2.val_seq().take(x2.present as int) == x.val_seq().take(
                        x2.present as int,
                    ));
                },
                _ => {},
            }
        },
        V4::PCR(x) => {
            x.lemma_wf_is_match();
            lemma_roundtrip_trim(e, PCR::fields(), x.val_seq(), x.present as int);
            match rec2 {
                V4::PCR(x2) => {
                    x2.lemma_wf_is_match();
                    x2.lemma_decoded_shape(rec.payload_enc(e), e);
                    assert(x2.val_seq().take(x2.present as int) == x.val_seq().take(
                        x2.present as int,
                    ));
                },
                _ => {},
            }
        },
        V4::HBR(x) => {
            x.lemma_wf_is_match();
            lemma_roundtrip_trim(e, HBR::fields(), x.val_seq(), x.present as int);
            match rec2 {
                V4::HBR(x2) => {
                    x2.lemma_wf_is_match();
                    x2.lemma_decoded_shape(rec.payload_enc(e), e);
                    assert(x2.val_seq().take(x2.present as int) == x.val_seq().take(
                        x2.present as int,
                    ));
                },
                _ => {},
            }
        },
        V4::SBR(x) => {
            x.lemma_wf_is_match();
            lemma_roundtrip_trim(e, SBR::fields(), x.val_seq(), x.present as int);
            match rec2 {
                V4::SBR(x2) => {
                    x2.lemma_wf_is_match();
                    x2.lemma_decoded_shape(rec.payload_enc(e), e);
                    assert(x2.val_seq().take(x2.present as int) == x.val_seq().take(
                        x2.present as int,
                    ));
                },
                _ => {},
            }
        },
        _ => {},
    }
}

/// One part of the record round trip, covering part of the catalogue.
#[verifier::rlimit(100)]
#[verifier::spinoff_prover]
proof fn lemma_round_trip_1(rec: V4, rec2: V4, e: Endian)
    requires
        rec is PMR || rec is PGR || rec is PLR || rec is RDR || rec is SDR || rec is WIR,
        rec.wf(),
        spec_framed(rec),
        rec.spec_encodable(e),
        rec_matches(rec2, rec.spec_typ_sub().0, rec.spec_typ_sub().1, rec.payload_enc(e), e),
    ensures
        rec2.wf(),
        spec_framed(rec2),
        rec2.spec_encodable(e),
        rec2.spec_typ_sub() == rec.spec_typ_sub(),
        rec2.payload_enc(e) == rec.payload_enc(e),
        rec2.spec_enc(e) == rec.spec_enc(e),
{
    match rec {
        V4::PMR(x) => {
            x.lemma_wf_is_match();
            lemma_roundtrip_trim(e, PMR::fields(), x.val_seq(), x.present as int);
            match rec2 {
                V4::PMR(x2) => {
                    x2.lemma_wf_is_match();
                    x2.lemma_decoded_shape(rec.payload_enc(e), e);
                    assert(x2.val_seq().take(x2.present as int) == x.val_seq().take(
                        x2.present as int,
                    ));
                },
                _ => {},
            }
        },
        V4::PGR(x) => {
            x.lemma_wf_is_match();
            lemma_roundtrip_trim(e, PGR::fields(), x.val_seq(), x.present as int);
            match rec2 {
                V4::PGR(x2) => {
                    x2.lemma_wf_is_match();
                    x2.lemma_decoded_shape(rec.payload_enc(e), e);
                    assert(x2.val_seq().take(x2.present as int) == x.val_seq().take(
                        x2.present as int,
                    ));
                },
                _ => {},
            }
        },
        V4::PLR(x) => {
            x.lemma_wf_is_match();
            lemma_roundtrip_trim(e, PLR::fields(), x.val_seq(), x.present as int);
            match rec2 {
                V4::PLR(x2) => {
                    x2.lemma_wf_is_match();
                    x2.lemma_decoded_shape(rec.payload_enc(e), e);
                    assert(x2.val_seq().take(x2.present as int) == x.val_seq().take(
                        x2.present as int,
                    ));
                },
                _ => {},
            }
        },
        V4::RDR(x) => {
            x.lemma_wf_is_match();
            lemma_roundtrip_trim(e, RDR::fields(), x.val_seq(), x.present as int);
            match rec2 {
                V4::RDR(x2) => {
                    x2.lemma_wf_is_match();
                    x2.lemma_decoded_shape(rec.payload_enc(e), e);
                    assert(x2.val_seq().take(x2.present as int) == x.val_seq().take(
                        x2.present as int,
                    ));
                },
                _ => {},
            }
        },
        V4::SDR(x) => {
            x.lemma_wf_is_match();
            lemma_roundtrip_trim(e, SDR::fields(), x.val_seq(), x.present as int);
            match rec2 {
                V4::SDR(x2) => {
                    x2.lemma_wf_is_match();
                    x2.lemma_decoded_shape(rec.payload_enc(e), e);
                    assert(x2.val_seq().take(x2.present as int) == x.val_seq().take(
                        x2.present as int,
                    ));
                },
                _ => {},
            }
        },
        V4::WIR(x) => {
            x.lemma_wf_is_match();
            lemma_roundtrip_trim(e, WIR::fields(), x.val_seq(), x.present as int);
            match rec2 {
                V4::WIR(x2) => {
                    x2.lemma_wf_is_match();
                    x2.lemma_decoded_shape(rec.payload_enc(e), e);
                    assert(x2.val_seq().take(x2.present as int) == x.val_seq().take(
                        x2.present as int,
                    ));
                },
                _ => {},
            }
        },
        _ => {},
    }
}

/// One part of the record round trip, covering part of the catalogue.
#[verifier::rlimit(100)]
#[verifier::spinoff_prover]
proof fn lemma_round_trip_2(rec: V4, rec2: V4, e: Endian)
    requires
        rec is WRR || rec is WCR || rec is PIR || rec is PRR || rec is TSR || rec is PTR,
        rec.wf(),
        spec_framed(rec),
        rec.spec_encodable(e),
        rec_matches(rec2, rec.spec_typ_sub().0, rec.spec_typ_sub().1, rec.payload_enc(e), e),
    ensures
        rec2.wf(),
        spec_framed(rec2),
        rec2.spec_encodable(e),
        rec2.spec_typ_sub() == rec.spec_typ_sub(),
        rec2.payload_enc(e) == rec.payload_enc(e),
        rec2.spec_enc(e) == rec.spec_enc(e),
{
    match rec {
        V4::WRR(x) => {
            x.lemma_wf_is_match();
            lemma_roundtrip_trim(e, WRR::fields(), x.val_seq(), x.present as int);
            match rec2 {
                V4::WRR(x2) => {
                    x2.lemma_wf_is_match();
                    x2.lemma_decoded_shape(rec.payload_enc(e), e);
                    assert(x2.val_seq().take(x2.present as int) == x.val_seq().take(
                        x2.present as int,
                    ));
                },
                _ => {},
            }
        },
        V4::WCR(x) => {
            x.lemma_wf_is_match();
            lemma_roundtrip_trim(e, WCR::fields(), x.val_seq(), x.present as int);
            match rec2 {
                V4::WCR(x2) => {
                    x2.lemma_wf_is_match();
                    x2.lemma_decoded_shape(rec.payload_enc(e), e);
                    assert(x2.val_seq().take(x2.present as int) == x.val_seq().take(
                        x2.present as int,
                    ));
                },
                _ => {},
            }
        },
        V4::PIR(x) => {
            x.lemma_wf_is_match();
            lemma_roundtrip_trim(e, PIR::fields(), x.val_seq(), x.present as int);
            match rec2 {
                V4::PIR(x2) => {
                    x2.lemma_wf_is_match();
                    x2.lemma_decoded_shape(rec.payload_enc(e), e);
                    assert(x2.val_seq().take(x2.present as int) == x.val_seq().take(
                        x2.present as int,
                    ));
                },
                _ => {},
            }
        },
        V4::PRR(x) => {
            x.lemma_wf_is_match();
            lemma_roundtrip_trim(e, PRR::fields(), x.val_seq(), x.present as int);
            match rec2 {
                V4::PRR(x2) => {
                    x2.lemma_wf_is_match();
                    x2.lemma_decoded_shape(rec.payload_enc(e), e);
                    assert(x2.val_seq().take(x2.present as int) == x.val_seq().take(
                        x2.present as int,
                    ));
                },
                _ => {},
            }
        },
        V4::TSR(x) => {
            x.lemma_wf_is_match();
            lemma_roundtrip_trim(e, TSR::fields(), x.val_seq(), x.present as int);
            match rec2 {
                V4::TSR(x2) => {
                    x2.lemma_wf_is_match();
                    x2.lemma_decoded_shape(rec.payload_enc(e), e);
                    assert(x2.val_seq().take(x2.present as int) == x.val_seq().take(
                        x2.present as int,
                    ));
                },
                _ => {},
            }
        },
        V4::PTR(x) => {
            x.lemma_wf_is_match();
            lemma_roundtrip_trim(e, PTR::fields(), x.val_seq(), x.present as int);
            match rec2 {
                V4::PTR(x2) => {
                    x2.lemma_wf_is_match();
                    x2.lemma_decoded_shape(rec.payload_enc(e), e);
                    assert(x2.val_seq().take(x2.present as int) == x.val_seq().take(
                        x2.present as int,
                    ));
                },
                _ => {},
            }
        },
        _ => {},
    }
}

/// One part of the record round trip, covering part of the catalogue.
#[verifier::rlimit(100)]
#[verifier::spinoff_prover]
proof fn lemma_round_trip_3(rec: V4, rec2: V4, e: Endian)
    requires
        rec is MPR || rec is FTR || rec is BPS || rec is EPS || rec is GDR || rec is DTR,
        rec.wf(),
        spec_framed(rec),
        rec.spec_encodable(e),
        rec_matches(rec2, rec.spec_typ_sub().0, rec.spec_typ_sub().1, rec.payload_enc(e), e),
    ensures
        rec2.wf(),
        spec_framed(rec2),
        rec2.spec_encodable(e),
        rec2.spec_typ_sub() == rec.spec_typ_sub(),
        rec2.payload_enc(e) == rec.payload_enc(e),
        rec2.spec_enc(e) == rec.spec_enc(e),
{
    match rec {
        V4::MPR(x) => {
            x.lemma_wf_is_match();
            lemma_roundtrip_trim(e, MPR::fields(), x.val_seq(), x.present as int);
            match rec2 {
                V4::MPR(x2) => {
                    x2.lemma_wf_is_match();
                    x2.lemma_decoded_shape(rec.payload_enc(e), e);
                    assert(x2.val_seq().take(x2.present as int) == x.val_seq().take(
                        x2.present as int,
                    ));
                },
                _ => {},
            }
        },
        V4::FTR(x) => {
            x.lemma_wf_is_match();
            lemma_roundtrip_trim(e, FTR::fields(), x.val_seq(), x.present as int);
            match rec2 {
                V4::FTR(x2) => {
                    x2.lemma_wf_is_match();
                    x2.lemma_decoded_shape(rec.payload_enc(e), e);
                    assert(x2.val_seq().take(x2.present as int) == x.val_seq().take(
                        x2.present as int,
                    ));
                },
                _ => {},
            }
        },
        V4::BPS(x) => {
            x.lemma_wf_is_match();
            lemma_roundtrip_trim(e, BPS::fields(), x.val_seq(), x.present as int);
            match rec2 {
                V4::BPS(x2) => {
                    x2.lemma_wf_is_match();
                    x2.lemma_decoded_shape(rec.payload_enc(e), e);
                    assert(x2.val_seq().take(x2.present as int) == x.val_seq().take(
                        x2.present as int,
                    ));
                },
                _ => {},
            }
        },
        V4::EPS(x) => {
            x.lemma_wf_is_match();
            x.lemma_empty_round_trip(e);
            match rec2 {
                V4::EPS(x2) => {
                    x2.lemma_wf_is_match();
                },
                _ => {},
            }
        },
        V4::GDR(x) => {
            x.lemma_wf_is_match();
            lemma_roundtrip_trim(e, GDR::fields(), x.val_seq(), x.present as int);
            match rec2 {
                V4::GDR(x2) => {
                    x2.lemma_wf_is_match();
                    x2.lemma_decoded_shape(rec.payload_enc(e), e);
                    assert(x2.val_seq().take(x2.present as int) == x.val_seq().take(
                        x2.present as int,
                    ));
                },
                _ => {},
            }
        },
        V4::DTR(x) => {
            x.lemma_wf_is_match();
            lemma_roundtrip_trim(e, DTR::fields(), x.val_seq(), x.present as int);
            match rec2 {
                V4::DTR(x2) => {
                    x2.lemma_wf_is_match();
                    x2.lemma_decoded_shape(rec.payload_enc(e), e);
                    assert(x2.val_seq().take(x2.present as int) == x.val_seq().take(
                        x2.present as int,
                    ));
                },
                _ => {},
            }
        },
        _ => {},
    }
}

/// The record round trip: any decode of the bytes a well-formed, framed
/// record encodes to carries the same values, and so re-encodes to the
/// very same bytes.  With the header round trip this is the codec's
/// central law: for every well-formed record byte sequence, encoding its
/// decode reproduces it byte for byte.  Every record read off the wire
/// is framed, so the law covers everything the decoder yields; one with
/// extra trailing padding inside its declared length reproduces its own
/// shorter, padding-free form.
pub proof fn lemma_record_round_trip(rec: V4, rec2: V4, e: Endian)
    requires
        rec.wf(),
        spec_framed(rec),
        rec.spec_encodable(e),
        rec_matches(rec2, rec.spec_typ_sub().0, rec.spec_typ_sub().1, rec.payload_enc(e), e),
    ensures
        rec2.wf(),
        spec_framed(rec2),
        rec2.spec_encodable(e),
        rec2.spec_typ_sub() == rec.spec_typ_sub(),
        rec2.payload_enc(e) == rec.payload_enc(e),
        rec2.spec_enc(e) == rec.spec_enc(e),
{
    match rec {
        V4::FAR(_) => {
            lemma_round_trip_0(rec, rec2, e);
        },
        V4::ATR(_) => {
            lemma_round_trip_0(rec, rec2, e);
        },
        V4::MIR(_) => {
            lemma_round_trip_0(rec, rec2, e);
        },
        V4::MRR(_) => {
            lemma_round_trip_0(rec, rec2, e);
        },
        V4::PCR(_) => {
            lemma_round_trip_0(rec, rec2, e);
        },
        V4::HBR(_) => {
            lemma_round_trip_0(rec, rec2, e);
        },
        V4::SBR(_) => {
            lemma_round_trip_0(rec, rec2, e);
        },
        V4::PMR(_) => {
            lemma_round_trip_1(rec, rec2, e);
        },
        V4::PGR(_) => {
            lemma_round_trip_1(rec, rec2, e);
        },
        V4::PLR(_) => {
            lemma_round_trip_1(rec, rec2, e);
        },
        V4::RDR(_) => {
            lemma_round_trip_1(rec, rec2, e);
        },
        V4::SDR(_) => {
            lemma_round_trip_1(rec, rec2, e);
        },
        V4::WIR(_) => {
            lemma_round_trip_1(rec, rec2, e);
        },
        V4::WRR(_) => {
            lemma_round_trip_2(rec, rec2, e);
        },
        V4::WCR(_) => {
            lemma_round_trip_2(rec, rec2, e);
        },
        V4::PIR(_) => {
            lemma_round_trip_2(rec, rec2, e);
        },
        V4::PRR(_) => {
            lemma_round_trip_2(rec, rec2, e);
        },
        V4::TSR(_) => {
            lemma_round_trip_2(rec, rec2, e);
        },
        V4::PTR(_) => {
            lemma_round_trip_2(rec, rec2, e);
        },
        V4::MPR(_) => {
            lemma_round_trip_3(rec, rec2, e);
        },
        V4::FTR(_) => {
            lemma_round_trip_3(rec, rec2, e);
        },
        V4::BPS(_) => {
            lemma_round_trip_3(rec, rec2, e);
        },
        V4::EPS(_) => {
            lemma_round_trip_3(rec, rec2, e);
        },
        V4::GDR(_) => {
            lemma_round_trip_3(rec, rec2, e);
        },
        V4::DTR(_) => {
            lemma_round_trip_3(rec, rec2, e);
        },
        V4::Unknown(_) => {},
        V4::Invalid(_) => {},
    }
}

/// The three-letter names of the record variants the catalogue claims,
/// in catalogue order.
pub fn is_supported_records() -> (r: Vec<String>)
    ensures
        r.deep_view() =~= seq![
            "FAR"@, "ATR"@, "MIR"@, "MRR"@, "PCR"@, "HBR"@, "SBR"@, "PMR"@, "PGR"@, "PLR"@, "RDR"@, "SDR"@, "WIR"@, "WRR"@, "WCR"@, "PIR"@, "PRR"@, "TSR"@, "PTR"@, "MPR"@, "FTR"@, "BPS"@, "EPS"@, "GDR"@, "DTR"@
        ],
{
    let mut v: Vec<String> = Vec::new();
    v.push("FAR".to_owned());
    v.push("ATR".to_owned());
    v.push("MIR".to_owned());
    v.push("MRR".to_owned());
    v.push("PCR".to_owned());
    v.push("HBR".to_owned());
    v.push("SBR".to_owned());
    v.push("PMR".to_owned());
    v.push("PGR".to_owned());
    v.push("PLR".to_owned());
    v.push("RDR".to_owned());
    v.push("SDR".to_owned());
    v.push("WIR".to_owned());
    v.push("WRR".to_owned());
    v.push("WCR".to_owned());
    v.push("PIR".to_owned());
    v.push("PRR".to_owned());
    v.push("TSR".to_owned());
    v.push("PTR".to_owned());
    v.push("MPR".to_owned());
    v.push("FTR".to_owned());
    v.push("BPS".to_owned());
    v.push("EPS".to_owned());
    v.push("GDR".to_owned());
    v.push("DTR".to_owned());
    proof {
        assert(v.deep_view() =~= seq![
            "FAR"@, "ATR"@, "MIR"@, "MRR"@, "PCR"@, "HBR"@, "SBR"@, "PMR"@, "PGR"@, "PLR"@, "RDR"@, "SDR"@, "WIR"@, "WRR"@, "WCR"@, "PIR"@, "PRR"@, "TSR"@, "PTR"@, "MPR"@, "FTR"@, "BPS"@, "EPS"@, "GDR"@, "DTR"@
        ]);
    }
    v
}

/// Whether a (type, subtype) pair selects a record variant.
pub fn is_supported_typ_sub(typ_sub: (u8, u8)) -> (r: bool)
    ensures
        r == spec_supported(typ_sub.0, typ_sub.1),
{
    match typ_sub {
        (0, 10) | (0, 20) | (1, 10) | (1, 20) | (1, 30) | (1, 40) | (1, 50) | (1, 60) | (1, 62) | (1, 63) | (1, 70) | (1, 80) | (2, 10) | (2, 20) | (2, 30) | (5, 10) | (5, 20) | (10, 30) | (15, 10) | (15, 15) | (15, 20) | (20, 10) | (20, 20) | (50, 10) | (50, 30) => true,
        _ => false,
    }
}

/// The name a (type, subtype) pair goes by; an unclaimed pair has the
/// placeholder name.
pub open spec fn spec_typ_sub_name(typ: u8, sub: u8) -> Seq<char> {
    if typ == 0 && sub == 10 {
        "FAR"@
    } else if typ == 0 && sub == 20 {
        "ATR"@
    } else if typ == 1 && sub == 10 {
        "MIR"@
    } else if typ == 1 && sub == 20 {
        "MRR"@
    } else if typ == 1 && sub == 30 {
        "PCR"@
    } else if typ == 1 && sub == 40 {
        "HBR"@
    } else if typ == 1 && sub == 50 {
        "SBR"@
    } else if typ == 1 && sub == 60 {
        "PMR"@
    } else if typ == 1 && sub == 62 {
        "PGR"@
    } else if typ == 1 && sub == 63 {
        "PLR"@
    } else if typ == 1 && sub == 70 {
        "RDR"@
    } else if typ == 1 && sub == 80 {
        "SDR"@
    } else if typ == 2 && sub == 10 {
        "WIR"@
    } else if typ == 2 && sub == 20 {
        "WRR"@
    } else if typ == 2 && sub == 30 {
        "WCR"@
    } else if typ == 5 && sub == 10 {
        "PIR"@
    } else if typ == 5 && sub == 20 {
        "PRR"@
    } else if typ == 10 && sub == 30 {
        "TSR"@
    } else if typ == 15 && sub == 10 {
        "PTR"@
    } else if typ == 15 && sub == 15 {
        "MPR"@
    } else if typ == 15 && sub == 20 {
        "FTR"@
    } else if typ == 20 && sub == 10 {
        "BPS"@
    } else if typ == 20 && sub == 20 {
        "EPS"@
    } else if typ == 50 && sub == 10 {
        "GDR"@
    } else if typ == 50 && sub == 30 {
        "DTR"@
    } else {
        "???"@
    }
}

/// Gives the name of a record (type, subtype) pair, or the placeholder
/// for a pair the catalogue does not claim.
pub fn typ_sub_to_name(typ: u8, sub: u8) -> (r: String)
    ensures
        r@ == spec_typ_sub_name(typ, sub),
{
    match (typ, sub) {
        (0u8, 10u8) => "FAR".to_owned(),
        (0u8, 20u8) => "ATR".to_owned(),
        (1u8, 10u8) => "MIR".to_owned(),
        (1u8, 20u8) => "MRR".to_owned(),
        (1u8, 30u8) => "PCR".to_owned(),
        (1u8, 40u8) => "HBR".to_owned(),
        (1u8, 50u8) => "SBR".to_owned(),
        (1u8, 60u8) => "PMR".to_owned(),
        (1u8, 62u8) => "PGR".to_owned(),
        (1u8, 63u8) => "PLR".to_owned(),
        (1u8, 70u8) => "RDR".to_owned(),
        (1u8, 80u8) => "SDR".to_owned(),
        (2u8, 10u8) => "WIR".to_owned(),
        (2u8, 20u8) => "WRR".to_owned(),
        (2u8, 30u8) => "WCR".to_owned(),
        (5u8, 10u8) => "PIR".to_owned(),
        (5u8, 20u8) => "PRR".to_owned(),
        (10u8, 30u8) => "TSR".to_owned(),
        (15u8, 10u8) => "PTR".to_owned(),
        (15u8, 15u8) => "MPR".to_owned(),
        (15u8, 20u8) => "FTR".to_owned(),
        (20u8, 10u8) => "BPS".to_owned(),
        (20u8, 20u8) => "EPS".to_owned(),
        (50u8, 10u8) => "GDR".to_owned(),
        (50u8, 30u8) => "DTR".to_owned(),
        _ => "???".to_owned(),
    }
}

/// The (type, subtype) pairs the catalogue claims, in catalogue order.
pub open spec fn catalogue_pairs() -> Seq<(u8, u8)> {
    seq![
        (0u8, 10u8), (0u8, 20u8), (1u8, 10u8), (1u8, 20u8), (1u8, 30u8), (1u8, 40u8), (1u8, 50u8), (1u8, 60u8), (1u8, 62u8), (1u8, 63u8), (1u8, 70u8), (1u8, 80u8), (2u8, 10u8), (2u8, 20u8), (2u8, 30u8), (5u8, 10u8), (5u8, 20u8), (10u8, 30u8), (15u8, 10u8), (15u8, 15u8), (15u8, 20u8), (20u8, 10u8), (20u8, 20u8), (50u8, 10u8), (50u8, 30u8)
    ]
}

/// The catalogue pairs as a vector, for walking them at run time.
pub fn catalogue_pairs_vec() -> (r: Vec<(u8, u8)>)
    ensures
        r@ == catalogue_pairs(),
{
    let mut v: Vec<(u8, u8)> = Vec::new();
    v.push((0, 10));
    v.push((0, 20));
    v.push((1, 10));
    v.push((1, 20));
    v.push((1, 30));
    v.push((1, 40));
    v.push((1, 50));
    v.push((1, 60));
    v.push((1, 62));
    v.push((1, 63));
    v.push((1, 70));
    v.push((1, 80));
    v.push((2, 10));
    v.push((2, 20));
    v.push((2, 30));
    v.push((5, 10));
    v.push((5, 20));
    v.push((10, 30));
    v.push((15, 10));
    v.push((15, 15));
    v.push((15, 20));
    v.push((20, 10));
    v.push((20, 20));
    v.push((50, 10));
    v.push((50, 30));
    proof {
        assert(v@ =~= catalogue_pairs());
    }
    v
}

/// What every record variant can say about itself: whether it carries
/// per-test results, and its three-letter name.
pub trait IsTestRecord {
    /// Whether the record carries per-test results.
    fn is_test_record(&self) -> bool;

    /// The record's three-letter name.
    fn get_name_as_string(&self) -> String;
}

/// A view of a record in the pipe-separated text form that test-data
/// post-processors take.  The codec gives the trait a name; renderers
/// outside it implement it for their own mirrored types.
pub trait Atdf {
    /// The record as one pipe-separated line.
    fn to_atdf(&self) -> String;
}

impl IsTestRecord for FAR {
    fn is_test_record(&self) -> bool {
        false
    }

    fn get_name_as_string(&self) -> String {
        "FAR".to_owned()
    }
}

impl IsTestRecord for ATR {
    fn is_test_record(&self) -> bool {
        false
    }

    fn get_name_as_string(&self) -> String {
        "ATR".to_owned()
    }
}

impl IsTestRecord for MIR {
    fn is_test_record(&self) -> bool {
        false
    }

    fn get_name_as_string(&self) -> String {
        "MIR".to_owned()
    }
}

impl IsTestRecord for MRR {
    fn is_test_record(&self) -> bool {
        false
    }

    fn get_name_as_string(&self) -> String {
        "MRR".to_owned()
    }
}

impl IsTestRecord for PCR {
    fn is_test_record(&self) -> bool {
        false
    }

    fn get_name_as_string(&self) -> String {
        "PCR".to_owned()
    }
}

impl IsTestRecord for HBR {
    fn is_test_record(&self) -> bool {
        false
    }

    fn get_name_as_string(&self) -> String {
        "HBR".to_owned()
    }
}

impl IsTestRecord for SBR {
    fn is_test_record(&self) -> bool {
        false
    }

    fn get_name_as_string(&self) -> String {
        "SBR".to_owned()
    }
}

impl IsTestRecord for PMR {
    fn is_test_record(&self) -> bool {
        false
    }

    fn get_name_as_string(&self) -> String {
        "PMR".to_owned()
    }
}

impl IsTestRecord for PGR {
    fn is_test_record(&self) -> bool {
        false
    }

    fn get_name_as_string(&self) -> String {
        "PGR".to_owned()
    }
}

impl IsTestRecord for PLR {
    fn is_test_record(&self) -> bool {
        false
    }

    fn get_name_as_string(&self) -> String {
        "PLR".to_owned()
    }
}

impl IsTestRecord for RDR {
    fn is_test_record(&self) -> bool {
        false
    }

    fn get_name_as_string(&self) -> String {
        "RDR".to_owned()
    }
}

impl IsTestRecord for SDR {
    fn is_test_record(&self) -> bool {
        false
    }

    fn get_name_as_string(&self) -> String {
        "SDR".to_owned()
    }
}

impl IsTestRecord for WIR {
    fn is_test_record(&self) -> bool {
        false
    }

    fn get_name_as_string(&self) -> String {
        "WIR".to_owned()
    }
}

impl IsTestRecord for WRR {
    fn is_test_record(&self) -> bool {
        false
    }

    fn get_name_as_string(&self) -> String {
        "WRR".to_owned()
    }
}

impl IsTestRecord for WCR {
    fn is_test_record(&self) -> bool {
        false
    }

    fn get_name_as_string(&self) -> String {
        "WCR".to_owned()
    }
}

impl IsTestRecord for PIR {
    fn is_test_record(&self) -> bool {
        false
    }

    fn get_name_as_string(&self) -> String {
        "PIR".to_owned()
    }
}

impl IsTestRecord for PRR {
    fn is_test_record(&self) -> bool {
        false
    }

    fn get_name_as_string(&self) -> String {
        "PRR".to_owned()
    }
}

impl IsTestRecord for TSR {
    fn is_test_record(&self) -> bool {
        false
    }

    fn get_name_as_string(&self) -> String {
        "TSR".to_owned()
    }
}

impl IsTestRecord for PTR {
    fn is_test_record(&self) -> bool {
        true
    }

    fn get_name_as_string(&self) -> String {
        "PTR".to_owned()
    }
}

impl IsTestRecord for MPR {
    fn is_test_record(&self) -> bool {
        true
    }

    fn get_name_as_string(&self) -> String {
        "MPR".to_owned()
    }
}

impl IsTestRecord for FTR {
    fn is_test_record(&self) -> bool {
        true
    }

    fn get_name_as_string(&self) -> String {
        "FTR".to_owned()
    }
}

impl IsTestRecord for BPS {
    fn is_test_record(&self) -> bool {
        false
    }

    fn get_name_as_string(&self) -> String {
        "BPS".to_owned()
    }
}

impl IsTestRecord for EPS {
    fn is_test_record(&self) -> bool {
        false
    }

    fn get_name_as_string(&self) -> String {
        "EPS".to_owned()
    }
}

impl IsTestRecord for GDR {
    fn is_test_record(&self) -> bool {
        false
    }

    fn get_name_as_string(&self) -> String {
        "GDR".to_owned()
    }
}

impl IsTestRecord for DTR {
    fn is_test_record(&self) -> bool {
        false
    }

    fn get_name_as_string(&self) -> String {
        "DTR".to_owned()
    }
}

/// The pair a record name stands for; an unknown name yields (0, 0).
pub open spec fn spec_name_typ_sub(name: Seq<char>) -> (u8, u8) {
    if name == "FAR"@ {
        (0u8, 10u8)
    } else if name == "ATR"@ {
        (0u8, 20u8)
    } else if name == "MIR"@ {
        (1u8, 10u8)
    } else if name == "MRR"@ {
        (1u8, 20u8)
    } else if name == "PCR"@ {
        (1u8, 30u8)
    } else if name == "HBR"@ {
        (1u8, 40u8)
    } else if name == "SBR"@ {
        (1u8, 50u8)
    } else if name == "PMR"@ {
        (1u8, 60u8)
    } else if name == "PGR"@ {
        (1u8, 62u8)
    } else if name == "PLR"@ {
        (1u8, 63u8)
    } else if name == "RDR"@ {
        (1u8, 70u8)
    } else if name == "SDR"@ {
        (1u8, 80u8)
    } else if name == "WIR"@ {
        (2u8, 10u8)
    } else if name == "WRR"@ {
        (2u8, 20u8)
    } else if name == "WCR"@ {
        (2u8, 30u8)
    } else if name == "PIR"@ {
        (5u8, 10u8)
    } else if name == "PRR"@ {
        (5u8, 20u8)
    } else if name == "TSR"@ {
        (10u8, 30u8)
    } else if name == "PTR"@ {
        (15u8, 10u8)
    } else if name == "MPR"@ {
        (15u8, 15u8)
    } else if name == "FTR"@ {
        (15u8, 20u8)
    } else if name == "BPS"@ {
        (20u8, 10u8)
    } else if name == "EPS"@ {
        (20u8, 20u8)
    } else if name == "GDR"@ {
        (50u8, 10u8)
    } else if name == "DTR"@ {
        (50u8, 30u8)
    } else {
        (0u8, 0u8)
    }
}

/// Gives the (type, subtype) pair of a record name, or (0, 0) for a name
/// the catalogue does not claim.
#[verifier::rlimit(100)]
pub fn name_to_typ_sub(name: &str) -> (r: (u8, u8))
    ensures
        r == spec_name_typ_sub(name@),
{
    proof {
        reveal_strlit("FAR");
        reveal_strlit("ATR");
        reveal_strlit("MIR");
        reveal_strlit("MRR");
        reveal_strlit("PCR");
        reveal_strlit("HBR");
        reveal_strlit("SBR");
        reveal_strlit("PMR");
        reveal_strlit("PGR");
        reveal_strlit("PLR");
        reveal_strlit("RDR");
        reveal_strlit("SDR");
        reveal_strlit("WIR");
        reveal_strlit("WRR");
        reveal_strlit("WCR");
        reveal_strlit("PIR");
        reveal_strlit("PRR");
        reveal_strlit("TSR");
        reveal_strlit("PTR");
        reveal_strlit("MPR");
        reveal_strlit("FTR");
        reveal_strlit("BPS");
        reveal_strlit("EPS");
        reveal_strlit("GDR");
        reveal_strlit("DTR");
    }
    let n = name.unicode_len();
    if n != 3 {
        return (0, 0);
    }
    let c0 = name.get_char(0);
    let c1 = name.get_char(1);
    let c2 = name.get_char(2);
    proof {
        assert(name@ =~= seq![c0, c1, c2]);
    }
    if c0 == 'F' && c1 == 'A' && c2 == 'R' {
        proof {
            assert(name@ =~= "FAR"@);
        }
        (0, 10)
    } else if c0 == 'A' && c1 == 'T' && c2 == 'R' {
        proof {
            assert(name@ =~= "ATR"@);
        }
        (0, 20)
    } else if c0 == 'M' && c1 == 'I' && c2 == 'R' {
        proof {
            assert(name@ =~= "MIR"@);
        }
        (1, 10)
    } else if c0 == 'M' && c1 == 'R' && c2 == 'R' {
        proof {
            assert(name@ =~= "MRR"@);
        }
        (1, 20)
    } else if c0 == 'P' && c1 == 'C' && c2 == 'R' {
        proof {
            assert(name@ =~= "PCR"@);
        }
        (1, 30)
    } else if c0 == 'H' && c1 == 'B' && c2 == 'R' {
        proof {
            assert(name@ =~= "HBR"@);
        }
        (1, 40)
    } else if c0 == 'S' && c1 == 'B' && c2 == 'R' {
        proof {
            assert(name@ =~= "SBR"@);
        }
        (1, 50)
    } else if c0 == 'P' && c1 == 'M' && c2 == 'R' {
        proof {
            assert(name@ =~= "PMR"@);
        }
        (1, 60)
    } else if c0 == 'P' && c1 == 'G' && c2 == 'R' {
        proof {
            assert(name@ =~= "PGR"@);
        }
        (1, 62)
    } else if c0 == 'P' && c1 == 'L' && c2 == 'R' {
        proof {
            assert(name@ =~= "PLR"@);
        }
        (1, 63)
    } else if c0 == 'R' && c1 == 'D' && c2 == 'R' {
        proof {
            assert(name@ =~= "RDR"@);
        }
        (1, 70)
    } else if c0 == 'S' && c1 == 'D' && c2 == 'R' {
        proof {
            assert(name@ =~= "SDR"@);
        }
        (1, 80)
    } else if c0 == 'W' && c1 == 'I' && c2 == 'R' {
        proof {
            assert(name@ =~= "WIR"@);
        }
        (2, 10)
    } else if c0 == 'W' && c1 == 'R' && c2 == 'R' {
        proof {
            assert(name@ =~= "WRR"@);
        }
        (2, 20)
    } else if c0 == 'W' && c1 == 'C' && c2 == 'R' {
        proof {
            assert(name@ =~= "WCR"@);
        }
        (2, 30)
    } else if c0 == 'P' && c1 == 'I' && c2 == 'R' {
        proof {
            assert(name@ =~= "PIR"@);
        }
        (5, 10)
    } else if c0 == 'P' && c1 == 'R' && c2 == 'R' {
        proof {
            assert(name@ =~= "PRR"@);
        }
        (5, 20)
    } else if c0 == 'T' && c1 == 'S' && c2 == 'R' {
        proof {
            assert(name@ =~= "TSR"@);
        }
        (10, 30)
    } else if c0 == 'P' && c1 == 'T' && c2 == 'R' {
        proof {
            assert(name@ =~= "PTR"@);
        }
        (15, 10)
    } else if c0 == 'M' && c1 == 'P' && c2 == 'R' {
        proof {
            assert(name@ =~= "MPR"@);
        }
        (15, 15)
    } else if c0 == 'F' && c1 == 'T' && c2 == 'R' {
        proof {
            assert(name@ =~= "FTR"@);
        }
        (15, 20)
    } else if c0 == 'B' && c1 == 'P' && c2 == 'S' {
        proof {
            assert(name@ =~= "BPS"@);
        }
        (20, 10)
    } else if c0 == 'E' && c1 == 'P' && c2 == 'S' {
        proof {
            assert(name@ =~= "EPS"@);
        }
        (20, 20)
    } else if c0 == 'G' && c1 == 'D' && c2 == 'R' {
        proof {
            assert(name@ =~= "GDR"@);
        }
        (50, 10)
    } else if c0 == 'D' && c1 == 'T' && c2 == 'R' {
        proof {
            assert(name@ =~= "DTR"@);
        }
        (50, 30)
    } else {
        (0, 0)
    }
}

} // verus!
