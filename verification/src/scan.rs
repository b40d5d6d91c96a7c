//! The single-pass scan over a file buffer: framing, the random-access
//! index, and the tallies derived from it.
//!
//! The scan walks the headers only: each step reads four header bytes and
//! jumps the payload.  A header that the buffer cannot hold, or a payload
//! that would run past its end, ends the scan cleanly.

use vstd::prelude::*;

use crate::rec_part::{lemma_prr_part_flg_val, PRR};
use crate::records::{
    catalogue_pairs, catalogue_pairs_vec, detect_endian, is_supported_typ_sub, spec_detect_endian,
    spec_supported, spec_typ_sub_name, typ_sub_to_name, Header,
};
use crate::types::{Endian, StdfError};
use crate::wire::{g_u1, sdecode, Val};

verus! {

/// One scanned record: where it begins and which pair its header carries.
#[derive(Clone, Copy, Debug, PartialEq, Eq, Structural)]
pub struct ScanItem {
    pub pos: u64,
    pub rec_typ: u8,
    pub rec_sub: u8,
}

/// Where the record that begins at `off` ends, if the buffer holds all of
/// it: four header bytes plus the declared payload.
pub open spec fn spec_rec_end(s: Seq<u8>, e: Endian, off: int) -> Option<int> {
    match Header::spec_read(s, e, off) {
        Some((h, o)) => {
            if o + h.rec_len.0 <= s.len() {
                Some(o + h.rec_len.0)
            } else {
                None
            }
        },
        None => None,
    }
}

/// Every record of the buffer from `off` on: start position and header
/// pair, in file order.  A truncated tail record ends the scan cleanly.
pub open spec fn spec_scan(s: Seq<u8>, e: Endian, off: int) -> Seq<ScanItem>
    decreases s.len() - off,
{
    if 0 <= off <= s.len() {
        match spec_rec_end(s, e, off) {
            Some(end) => seq![
                ScanItem { pos: off as u64, rec_typ: s[off + 2], rec_sub: s[off + 3] },
            ] + spec_scan(s, e, end),
            None => seq![],
        }
    } else {
        seq![]
    }
}

/// The start offsets of the records of a pair, in file order.
pub open spec fn positions_of(sc: Seq<ScanItem>, typ: u8, sub: u8) -> Seq<u64>
    decreases sc.len(),
{
    if sc.len() == 0 {
        seq![]
    } else {
        let rest = positions_of(sc.skip(1), typ, sub);
        if sc[0].rec_typ == typ && sc[0].rec_sub == sub {
            seq![sc[0].pos] + rest
        } else {
            rest
        }
    }
}

/// Appending one scanned record appends its position to its own pair and
/// leaves every other pair alone.
pub proof fn lemma_positions_push(sc: Seq<ScanItem>, it: ScanItem, typ: u8, sub: u8)
    ensures
        positions_of(sc.push(it), typ, sub) == if it.rec_typ == typ && it.rec_sub == sub {
            positions_of(sc, typ, sub).push(it.pos)
        } else {
            positions_of(sc, typ, sub)
        },
    decreases sc.len(),
{
    let w = sc.push(it);
    if sc.len() == 0 {
        assert(w[0] == it);
        assert(w.skip(1) =~= Seq::<ScanItem>::empty());
        assert(positions_of(w.skip(1), typ, sub) == positions_of(
            Seq::<ScanItem>::empty(),
            typ,
            sub,
        ));
        assert(positions_of(Seq::<ScanItem>::empty(), typ, sub) == Seq::<u64>::empty());
        assert(positions_of(sc, typ, sub) == Seq::<u64>::empty());
        if it.rec_typ == typ && it.rec_sub == sub {
            assert(positions_of(w, typ, sub) == seq![it.pos] + Seq::<u64>::empty());
            assert(seq![it.pos] + Seq::<u64>::empty() =~= Seq::<u64>::empty().push(it.pos));
        } else {
            assert(positions_of(w, typ, sub) == Seq::<u64>::empty());
        }
    } else {
        assert(w[0] == sc[0]);
        assert(w.skip(1) =~= sc.skip(1).push(it));
        lemma_positions_push(sc.skip(1), it, typ, sub);
        if it.rec_typ == typ && it.rec_sub == sub {
            if sc[0].rec_typ == typ && sc[0].rec_sub == sub {
                assert(positions_of(w, typ, sub) == seq![sc[0].pos] + positions_of(
                    sc.skip(1),
                    typ,
                    sub,
                ).push(it.pos));
                assert(seq![sc[0].pos] + positions_of(sc.skip(1), typ, sub).push(it.pos) =~= (
                seq![sc[0].pos] + positions_of(sc.skip(1), typ, sub)).push(it.pos));
            } else {
                assert(positions_of(w, typ, sub) == positions_of(sc.skip(1), typ, sub).push(
                    it.pos,
                ));
            }
        }
    }
}

/// The random-access index: every record of the file in file order, ready
/// to be filtered by pair.
#[derive(Clone, Debug, PartialEq, Eq)]
pub struct Index {
    pub items: Vec<ScanItem>,
}

impl Index {
    /// The scanned records the index holds.
    pub open spec fn view_items(self) -> Seq<ScanItem> {
        self.items@
    }

    /// The start offsets of every record of the given pair, in file
    /// order.
    pub fn offsets_of(&self, typ: u8, sub: u8) -> (r: Vec<u64>)
        ensures
            r@ == positions_of(self.items@, typ, sub),
    {
        let mut r: Vec<u64> = Vec::new();
        let n = self.items.len();
        let mut i: usize = 0;
        while i < n
            invariant
                i <= n,
                n == self.items@.len(),
                r@ == positions_of(self.items@.take(i as int), typ, sub),
            decreases n - i,
        {
            let it = self.items[i];
            if it.rec_typ == typ && it.rec_sub == sub {
                r.push(it.pos);
            }
            i = i + 1;
            proof {
                assert(self.items@.take(i as int) =~= self.items@.take(i - 1).push(
                    self.items@[i - 1],
                ));
                lemma_positions_push(self.items@.take(i - 1), self.items@[i - 1], typ, sub);
            }
        }
        proof {
            assert(self.items@.take(n as int) =~= self.items@);
        }
        r
    }

    /// How many records of the given pair the file holds.
    pub fn count_of(&self, typ: u8, sub: u8) -> (r: u64)
        ensures
            r == positions_of(self.items@, typ, sub).len(),
    {
        let mut r: u64 = 0;
        let n = self.items.len();
        let mut i: usize = 0;
        while i < n
            invariant
                i <= n,
                n == self.items@.len(),
                r == positions_of(self.items@.take(i as int), typ, sub).len(),
                r <= i,
            decreases n - i,
        {
            let it = self.items[i];
            if it.rec_typ == typ && it.rec_sub == sub {
                r = r + 1;
            }
            i = i + 1;
            proof {
                assert(self.items@.take(i as int) =~= self.items@.take(i - 1).push(
                    self.items@[i - 1],
                ));
                lemma_positions_push(self.items@.take(i - 1), self.items@[i - 1], typ, sub);
            }
        }
        proof {
            assert(self.items@.take(n as int) =~= self.items@);
        }
        r
    }
}

/// Scans the whole buffer once and indexes every record by its start and
/// header pair.  The byte order comes from the first record; a buffer
/// that is not a version-4 file is refused.
pub fn build_index(bytes: &[u8]) -> (r: Result<Index, StdfError>)
    ensures
        match r {
            Ok(ix) => spec_detect_endian(bytes@) is Some && ix.items@ == spec_scan(
                bytes@,
                spec_detect_endian(bytes@)->Some_0,
                0,
            ),
            Err(er) => spec_detect_endian(bytes@) is None && er == StdfError::NotStdf,
        },
{
    let e = match detect_endian(bytes) {
        Ok(e) => e,
        Err(er) => {
            return Err(er);
        },
    };
    let mut items: Vec<ScanItem> = Vec::new();
    let mut off: usize = 0;
    let ghost s = bytes@;
    while off < bytes.len()
        invariant
            off <= bytes@.len(),
            s == bytes@,
            spec_scan(s, e, 0) == items@ + spec_scan(s, e, off as int),
        ensures
            spec_scan(s, e, off as int) == Seq::<ScanItem>::empty(),
            spec_scan(s, e, 0) == items@ + spec_scan(s, e, off as int),
        decreases bytes@.len() - off,
    {
        let ghost off0 = off as int;
        let mut o = off;
        let h = match Header::try_read(bytes, &mut o, e) {
            Ok(h) => h,
            Err(_) => {
                break ;
            },
        };
        let len = h.rec_len.0 as usize;
        if bytes.len() - o < len {
            proof {
                assert(spec_rec_end(s, e, off0) is None);
            }
            break ;
        }
        let it = ScanItem { pos: off as u64, rec_typ: h.rec_typ.0, rec_sub: h.rec_sub.0 };
        items.push(it);
        off = o + len;
        proof {
            assert(spec_rec_end(s, e, off0) == Some(off as int));
            assert(spec_scan(s, e, off0) == seq![it] + spec_scan(s, e, off as int));
            assert((items@.drop_last() + seq![it]) =~= items@);
            assert((items@.drop_last() + (seq![it] + spec_scan(s, e, off as int))) =~= (
            items@.drop_last() + seq![it]) + spec_scan(s, e, off as int));
        }
    }
    proof {
        assert(items@ + Seq::<ScanItem>::empty() =~= items@);
    }
    Ok(Index { items })
}

/// The number of records of a pair that a file buffer holds.
pub open spec fn spec_count(s: Seq<u8>, e: Endian, typ: u8, sub: u8) -> nat {
    positions_of(spec_scan(s, e, 0), typ, sub).len()
}

/// The number of scanned records whose pair the catalogue does not claim.
pub open spec fn unknown_count(sc: Seq<ScanItem>) -> int
    decreases sc.len(),
{
    if sc.len() == 0 {
        0
    } else {
        (if !spec_supported(sc[0].rec_typ, sc[0].rec_sub) {
            1int
        } else {
            0int
        }) + unknown_count(sc.skip(1))
    }
}

/// Appending one scanned record raises the unclaimed tally exactly when
/// its pair is unclaimed.
pub proof fn lemma_unknown_push(sc: Seq<ScanItem>, it: ScanItem)
    ensures
        unknown_count(sc.push(it)) == unknown_count(sc) + (if !spec_supported(
            it.rec_typ,
            it.rec_sub,
        ) {
            1int
        } else {
            0int
        }),
    decreases sc.len(),
{
    let w = sc.push(it);
    if sc.len() == 0 {
        assert(w[0] == it);
        assert(w.skip(1) =~= Seq::<ScanItem>::empty());
        assert(unknown_count(w.skip(1)) == unknown_count(Seq::<ScanItem>::empty()));
        assert(unknown_count(Seq::<ScanItem>::empty()) == 0);
        assert(unknown_count(sc) == 0);
    } else {
        assert(w[0] == sc[0]);
        assert(w.skip(1) =~= sc.skip(1).push(it));
        assert(unknown_count(w.skip(1)) == unknown_count(sc.skip(1).push(it)));
        lemma_unknown_push(sc.skip(1), it);
    }
}

/// The name-and-count entries of the recognised pairs a file holds, in
/// catalogue order; a pair without records has no entry.
pub open spec fn spec_count_list(s: Seq<u8>, e: Endian, ps: Seq<(u8, u8)>) -> Seq<
    (Seq<char>, u64),
>
    decreases ps.len(),
{
    if ps.len() == 0 {
        seq![]
    } else {
        let rest = spec_count_list(s, e, ps.skip(1));
        if spec_count(s, e, ps[0].0, ps[0].1) > 0 {
            seq![
                (
                    spec_typ_sub_name(ps[0].0, ps[0].1),
                    spec_count(s, e, ps[0].0, ps[0].1) as u64,
                ),
            ] + rest
        } else {
            rest
        }
    }
}

/// Appending one pair appends its entry exactly when the file holds a
/// record of it.
pub proof fn lemma_count_list_push(s: Seq<u8>, e: Endian, ps: Seq<(u8, u8)>, p: (u8, u8))
    ensures
        spec_count_list(s, e, ps.push(p)) == if spec_count(s, e, p.0, p.1) > 0 {
            spec_count_list(s, e, ps).push(
                (spec_typ_sub_name(p.0, p.1), spec_count(s, e, p.0, p.1) as u64),
            )
        } else {
            spec_count_list(s, e, ps)
        },
    decreases ps.len(),
{
    let w = ps.push(p);
    let entry = (spec_typ_sub_name(p.0, p.1), spec_count(s, e, p.0, p.1) as u64);
    if ps.len() == 0 {
        assert(w[0] == p);
        assert(w.skip(1) =~= Seq::<(u8, u8)>::empty());
        assert(spec_count_list(s, e, w.skip(1)) == spec_count_list(
            s,
            e,
            Seq::<(u8, u8)>::empty(),
        ));
        assert(spec_count_list(s, e, Seq::<(u8, u8)>::empty()) == Seq::<(Seq<char>, u64)>::empty());
        assert(spec_count_list(s, e, ps) == Seq::<(Seq<char>, u64)>::empty());
        if spec_count(s, e, p.0, p.1) > 0 {
            assert(spec_count_list(s, e, w) == seq![entry] + Seq::<(Seq<char>, u64)>::empty());
            assert(seq![entry] + Seq::<(Seq<char>, u64)>::empty() =~= Seq::<
                (Seq<char>, u64),
            >::empty().push(entry));
        } else {
            assert(spec_count_list(s, e, w) == Seq::<(Seq<char>, u64)>::empty());
        }
    } else {
        assert(w[0] == ps[0]);
        assert(w.skip(1) =~= ps.skip(1).push(p));
        lemma_count_list_push(s, e, ps.skip(1), p);
        let head = (spec_typ_sub_name(ps[0].0, ps[0].1), spec_count(s, e, ps[0].0, ps[0].1) as u64);
        if spec_count(s, e, p.0, p.1) > 0 {
            if spec_count(s, e, ps[0].0, ps[0].1) > 0 {
                assert(spec_count_list(s, e, w) == seq![head] + spec_count_list(
                    s,
                    e,
                    ps.skip(1),
                ).push(entry));
                assert(seq![head] + spec_count_list(s, e, ps.skip(1)).push(entry) =~= (seq![head]
                    + spec_count_list(s, e, ps.skip(1))).push(entry));
            } else {
                assert(spec_count_list(s, e, w) == spec_count_list(s, e, ps.skip(1)).push(entry));
            }
        }
    }
}

/// Every count entry of a file: the recognised names in catalogue order,
/// then one placeholder tally for the unrecognised records, if the file
/// holds any.
pub open spec fn spec_record_counts(s: Seq<u8>, e: Endian) -> Seq<(Seq<char>, u64)> {
    let known = spec_count_list(s, e, catalogue_pairs());
    let unk = unknown_count(spec_scan(s, e, 0));
    if unk > 0 {
        known + seq![("???"@, unk as u64)]
    } else {
        known
    }
}

/// Counts the records of the file by name: one entry for each recognised
/// pair the file holds, renamed by its catalogue name, in catalogue
/// order, then one placeholder tally for the unrecognised records, if
/// any.
pub fn count_records(bytes: &[u8]) -> (r: Result<Vec<(String, u64)>, StdfError>)
    ensures
        match r {
            Ok(counts) => spec_detect_endian(bytes@) is Some && counts.deep_view()
                == spec_record_counts(bytes@, spec_detect_endian(bytes@)->Some_0),
            Err(er) => spec_detect_endian(bytes@) is None && er == StdfError::NotStdf,
        },
{
    let ix = match build_index(bytes) {
        Ok(ix) => ix,
        Err(er) => {
            return Err(er);
        },
    };
    let ghost s = bytes@;
    let ghost e = spec_detect_endian(bytes@)->Some_0;
    let pairs = catalogue_pairs_vec();
    let mut counts: Vec<(String, u64)> = Vec::new();
    let n = pairs.len();
    let mut i: usize = 0;
    while i < n
        invariant
            i <= n,
            s == bytes@,
            spec_detect_endian(bytes@) is Some,
            e == spec_detect_endian(bytes@)->Some_0,
            n == catalogue_pairs().len(),
            pairs@ == catalogue_pairs(),
            ix.items@ == spec_scan(s, e, 0),
            counts.deep_view() == spec_count_list(s, e, catalogue_pairs().take(i as int)),
        decreases n - i,
    {
        let (t, u) = pairs[i];
        let c = ix.count_of(t, u);
        let ghost before = counts.deep_view();
        if c > 0 {
            counts.push((typ_sub_to_name(t, u), c));
        }
        i = i + 1;
        proof {
            assert(catalogue_pairs().take(i as int) =~= catalogue_pairs().take(i - 1).push(
                catalogue_pairs()[i - 1],
            ));
            lemma_count_list_push(s, e, catalogue_pairs().take(i - 1), catalogue_pairs()[i - 1]);
            if c > 0 {
                assert(counts.deep_view() =~= before.push(
                    (spec_typ_sub_name(t, u), spec_count(s, e, t, u) as u64),
                ));
            }
        }
    }
    proof {
        assert(catalogue_pairs().take(n as int) =~= catalogue_pairs());
    }
    let m = ix.items.len();
    let mut unk: u64 = 0;
    let mut j: usize = 0;
    while j < m
        invariant
            j <= m,
            m == ix.items@.len(),
            unk <= j,
            unk == unknown_count(ix.items@.take(j as int)),
        decreases m - j,
    {
        let it = ix.items[j];
        if !is_supported_typ_sub((it.rec_typ, it.rec_sub)) {
            unk = unk + 1;
        }
        j = j + 1;
        proof {
            assert(ix.items@.take(j as int) =~= ix.items@.take(j - 1).push(ix.items@[j - 1]));
            lemma_unknown_push(ix.items@.take(j - 1), ix.items@[j - 1]);
        }
    }
    proof {
        assert(ix.items@.take(m as int) =~= ix.items@);
    }
    if unk > 0 {
        let ghost before = counts.deep_view();
        counts.push(("???".to_owned(), unk));
        proof {
            assert(counts.deep_view() =~= before + seq![("???"@, unk)]);
        }
    }
    proof {
        assert(counts.deep_view() =~= spec_record_counts(s, e));
    }
    Ok(counts)
}

/// The number of parts the file holds: the part-opening and part-closing
/// records must agree, and there must be some of each.
pub fn count_parts(bytes: &[u8]) -> (r: Result<u64, StdfError>)
    ensures
        match r {
            Ok(c) => ({
                let e = spec_detect_endian(bytes@)->Some_0;
                &&& spec_detect_endian(bytes@) is Some
                &&& c == spec_count(bytes@, e, 5, 10)
                &&& c == spec_count(bytes@, e, 5, 20)
                &&& c > 0
            }),
            Err(er) => {
                if spec_detect_endian(bytes@) is None {
                    er == StdfError::NotStdf
                } else {
                    let e = spec_detect_endian(bytes@)->Some_0;
                    if spec_count(bytes@, e, 5, 10) == 0 || spec_count(bytes@, e, 5, 20) == 0 {
                        er == StdfError::MissingPartRecords
                    } else {
                        er == StdfError::Mismatch && spec_count(bytes@, e, 5, 10) != spec_count(
                            bytes@,
                            e,
                            5,
                            20,
                        )
                    }
                }
            },
        },
{
    let ix = match build_index(bytes) {
        Ok(ix) => ix,
        Err(er) => {
            return Err(er);
        },
    };
    let pir = ix.count_of(5, 10);
    let prr = ix.count_of(5, 20);
    if pir == 0 || prr == 0 {
        Err(StdfError::MissingPartRecords)
    } else if pir != prr {
        Err(StdfError::Mismatch)
    } else {
        Ok(pir)
    }
}

/// The start offset of the first master-results record, if the file holds
/// one.
pub fn mrr_offset(bytes: &[u8], e: Endian) -> (r: Option<u64>)
    ensures
        ({
            let ps = positions_of(spec_scan(bytes@, e, 0), 1, 20);
            match r {
                Some(p) => ps.len() > 0 && p == ps[0],
                None => ps.len() == 0,
            }
        }),
{
    let mut off: usize = 0;
    let ghost s = bytes@;
    loop
        invariant
            off <= bytes@.len(),
            s == bytes@,
            positions_of(spec_scan(s, e, 0), 1, 20) == positions_of(
                spec_scan(s, e, off as int),
                1,
                20,
            ),
        ensures
            ({
                let ps = positions_of(spec_scan(s, e, 0), 1, 20);
                match spec_rec_end(s, e, off as int) {
                    Some(_) => ps.len() > 0 && s[off + 2] == 1 && s[off + 3] == 20 && ps[0]
                        == off as u64,
                    None => ps.len() == 0,
                }
            }),
        decreases bytes@.len() - off,
    {
        let ghost off0 = off as int;
        let mut o = off;
        let h = match Header::try_read(bytes, &mut o, e) {
            Ok(h) => h,
            Err(_) => {
                return None;
            },
        };
        let len = h.rec_len.0 as usize;
        if bytes.len() - o < len {
            proof {
                assert(spec_rec_end(s, e, off0) is None);
            }
            return None;
        }
        proof {
            assert(spec_rec_end(s, e, off0) == Some((o + len) as int));
        }
        if h.rec_typ.0 == 1 && h.rec_sub.0 == 20 {
            proof {
                let sc = spec_scan(s, e, off0);
                assert(sc[0] == ScanItem { pos: off as u64, rec_typ: 1u8, rec_sub: 20u8 });
                assert(positions_of(sc, 1, 20)[0] == off as u64);
            }
            return Some(off as u64);
        }
        proof {
            let sc = spec_scan(s, e, off0);
            assert(sc.skip(1) =~= spec_scan(s, e, (o + len) as int));
            assert(positions_of(sc, 1, 20) == positions_of(spec_scan(s, e, (o + len) as int), 1, 20));
        }
        off = o + len;
    }
}

/// How one part went, read off the low bits of the part flag: bit four
/// set means the outcome is unknown, else bit three set means fail, else
/// pass.
pub open spec fn spec_part_outcome(flg: u8) -> (bool, bool) {
    if flg & 0x10 != 0 {
        (false, false)
    } else if flg & 0x08 != 0 {
        (false, true)
    } else {
        (true, false)
    }
}

/// The part flag of the part-results record at `pos`, if one decodes
/// there.
pub open spec fn spec_part_flag(s: Seq<u8>, e: Endian, pos: int) -> Option<u8> {
    match spec_rec_end(s, e, pos) {
        Some(end) => match sdecode(s.subrange(pos + 4, end), e, PRR::fields()) {
            Some(vs) => Some(g_u1(vs[2])),
            None => None,
        },
        None => None,
    }
}

/// The pass and fail tallies over the part-results records of a scan.  A
/// record whose outcome is unknown, or whose payload does not decode,
/// counts in neither.
pub open spec fn spec_yield(s: Seq<u8>, e: Endian, sc: Seq<ScanItem>) -> (int, int)
    decreases sc.len(),
{
    if sc.len() == 0 {
        (0, 0)
    } else {
        let rest = spec_yield(s, e, sc.skip(1));
        if sc[0].rec_typ == 5 && sc[0].rec_sub == 20 {
            match spec_part_flag(s, e, sc[0].pos as int) {
                Some(flg) => {
                    let oc = spec_part_outcome(flg);
                    (rest.0 + if oc.0 { 1int } else { 0int }, rest.1 + if oc.1 { 1int } else { 0int })
                },
                None => rest,
            }
        } else {
            rest
        }
    }
}

/// Appending one scanned record adds its outcome, if it is a decodable
/// part-results record.
pub proof fn lemma_yield_push(s: Seq<u8>, e: Endian, sc: Seq<ScanItem>, it: ScanItem)
    ensures
        spec_yield(s, e, sc.push(it)) == ({
            let base = spec_yield(s, e, sc);
            if it.rec_typ == 5 && it.rec_sub == 20 {
                match spec_part_flag(s, e, it.pos as int) {
                    Some(flg) => {
                        let oc = spec_part_outcome(flg);
                        (
                            base.0 + if oc.0 {
                                1int
                            } else {
                                0int
                            },
                            base.1 + if oc.1 {
                                1int
                            } else {
                                0int
                            },
                        )
                    },
                    None => base,
                }
            } else {
                base
            }
        }),
    decreases sc.len(),
{
    let w = sc.push(it);
    if sc.len() == 0 {
        assert(w[0] == it);
        assert(w.skip(1) =~= Seq::<ScanItem>::empty());
        assert(spec_yield(s, e, w.skip(1)) == spec_yield(s, e, Seq::<ScanItem>::empty()));
        assert(spec_yield(s, e, Seq::<ScanItem>::empty()) == (0int, 0int));
        assert(spec_yield(s, e, sc) == (0int, 0int));
    } else {
        assert(w[0] == sc[0]);
        assert(w.skip(1) =~= sc.skip(1).push(it));
        assert(spec_yield(s, e, w.skip(1)) == spec_yield(s, e, sc.skip(1).push(it)));
        lemma_yield_push(s, e, sc.skip(1), it);
    }
}

/// Tallies the parts of the file that passed and failed: every
/// part-results record is decoded and classified by its part flag; one
/// with the unknown bit set counts in neither tally.
pub fn part_yield(bytes: &[u8]) -> (r: Result<(u64, u64), StdfError>)
    ensures
        match r {
            Ok(t) => ({
                let e = spec_detect_endian(bytes@)->Some_0;
                &&& spec_detect_endian(bytes@) is Some
                &&& (t.0 as int, t.1 as int) == spec_yield(bytes@, e, spec_scan(bytes@, e, 0))
            }),
            Err(er) => spec_detect_endian(bytes@) is None && er == StdfError::NotStdf,
        },
{
    let e = match detect_endian(bytes) {
        Ok(e) => e,
        Err(er) => {
            return Err(er);
        },
    };
    let ix = match build_index(bytes) {
        Ok(ix) => ix,
        Err(_) => {
            return Err(StdfError::NotStdf);
        },
    };
    let ghost s = bytes@;
    let total = bytes.len();
    let mut pass: u64 = 0;
    let mut fail: u64 = 0;
    let n = ix.items.len();
    let mut i: usize = 0;
    while i < n
        invariant
            i <= n,
            n == ix.items@.len(),
            s == bytes@,
            total == bytes@.len(),
            ix.items@ == spec_scan(s, e, 0),
            pass <= i && fail <= i,
            (pass as int, fail as int) == spec_yield(s, e, ix.items@.take(i as int)),
        decreases n - i,
    {
        let it = ix.items[i];
        if it.rec_typ == 5 && it.rec_sub == 20 {
            proof {
                lemma_scan_bounds(s, e, 0);
                assert(spec_scan(s, e, 0)[i as int] == it);
                assert(spec_rec_end(s, e, it.pos as int) is Some);
                assert(it.pos + 4 <= s.len());
            }
            let pos = it.pos as usize;
            proof {
                assert(pos == it.pos);
            }
            let mut o = pos;
            let h = match Header::try_read(bytes, &mut o, e) {
                Ok(h) => h,
                Err(_) => {
                    proof {
                        assert(false);
                    }
                    return Err(StdfError::NotStdf);
                },
            };
            let len = h.rec_len.0 as usize;
            proof {
                assert(spec_rec_end(s, e, pos as int) is Some);
            }
            let pl = vstd::slice::slice_subrange(bytes, o, o + len);
            match PRR::read(pl, e) {
                Ok(x) => {
                    proof {
                        lemma_prr_part_flg_val(x);
                        assert(spec_part_flag(s, e, pos as int) == Some(x.part_flg.0));
                    }
                    let flg = x.part_flg.0;
                    if flg & 0x10 != 0 {
                    } else if flg & 0x08 != 0 {
                        fail = fail + 1;
                    } else {
                        pass = pass + 1;
                    }
                },
                Err(_) => {
                    proof {
                        assert(spec_part_flag(s, e, pos as int) is None);
                    }
                },
            }
        }
        i = i + 1;
        proof {
            assert(ix.items@.take(i as int) =~= ix.items@.take(i - 1).push(ix.items@[i - 1]));
            lemma_yield_push(s, e, ix.items@.take(i - 1), ix.items@[i - 1]);
        }
    }
    proof {
        assert(ix.items@.take(n as int) =~= ix.items@);
    }
    Ok((pass, fail))
}

/// Every scanned record's start is where the buffer says it is: the scan
/// entry at a position really begins a record there.
pub proof fn lemma_scan_bounds(s: Seq<u8>, e: Endian, off: int)
    requires
        0 <= off <= s.len(),
        s.len() <= u64::MAX,
    ensures
        forall|i: int|
            0 <= i < spec_scan(s, e, off).len() ==> {
                let it = #[trigger] spec_scan(s, e, off)[i];
                &&& spec_rec_end(s, e, it.pos as int) is Some
                &&& it.rec_typ == s[it.pos + 2]
                &&& it.rec_sub == s[it.pos + 3]
            },
    decreases s.len() - off,
{
    match spec_rec_end(s, e, off) {
        Some(end) => {
            lemma_scan_bounds(s, e, end);
            assert forall|i: int| 0 <= i < spec_scan(s, e, off).len() implies {
                let it = #[trigger] spec_scan(s, e, off)[i];
                &&& spec_rec_end(s, e, it.pos as int) is Some
                &&& it.rec_typ == s[it.pos + 2]
                &&& it.rec_sub == s[it.pos + 3]
            } by {
                if i == 0 {
                    assert(spec_scan(s, e, off)[0] == ScanItem {
                        pos: off as u64,
                        rec_typ: s[off + 2],
                        rec_sub: s[off + 3],
                    });
                } else {
                    assert(spec_scan(s, e, off)[i] == spec_scan(s, e, end)[i - 1]);
                }
            }
        },
        None => {},
    }
}

} // verus!
