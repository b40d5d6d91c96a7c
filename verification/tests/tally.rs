//! The scan, the index, the tallies, and the catalogue helpers, exercised
//! on small hand-built files.

use stdf::records::{
    is_supported_records, is_supported_typ_sub, name_to_typ_sub, typ_sub_to_name, V4,
};
use stdf::scan::{build_index, count_parts, count_records, mrr_offset, part_yield};
use stdf::text::{
    bin8_text, cn_text, dec_text, dec_text_i64, ms_text, pcr_text, prr_part_flg, prr_text,
    ptr_opt_flag, ptr_parm_flg, ptr_test_flg, to_hex_string, u4e_text,
};
use stdf::types::{B1, Cn, Endian, StdfError, U4E};

/// A big-endian file: FAR, two fully populated parts (one pass, one
/// fail), and an MRR.
fn small_file() -> Vec<u8> {
    let mut f: Vec<u8> = Vec::new();
    f.extend_from_slice(&[0x00, 0x02, 0, 10, 1, 4]); // FAR
    f.extend_from_slice(&[0x00, 0x02, 5, 10, 1, 1]); // PIR head 1 site 1
    // PRR: head, site, part_flg, num_test, hard_bin, soft_bin, x, y,
    // test_t, part_id, part_txt, part_fix
    f.extend_from_slice(&[0x00, 0x15, 5, 20]);
    f.extend_from_slice(&[1, 1, 0x00, 0, 2, 0, 1, 0, 1, 0, 0, 0, 0, 0, 0, 0, 0, 0, 0, 1, 0xee]);
    f.extend_from_slice(&[0x00, 0x02, 5, 10, 1, 2]); // PIR head 1 site 2
    f.extend_from_slice(&[0x00, 0x15, 5, 20]);
    f.extend_from_slice(&[1, 2, 0x08, 0, 2, 0, 2, 0, 2, 0, 0, 0, 0, 0, 0, 0, 0, 0, 0, 1, 0xee]);
    // MRR: finish_t, disp_cod, usr_desc, exc_desc
    f.extend_from_slice(&[0x00, 0x08, 1, 20, 0x60, 0x00, 0x00, 0x00, 0x20, 0x00, 0x01, 0x78]);
    f
}

#[test]
fn index_holds_every_record_in_file_order() {
    let f = small_file();
    let ix = build_index(&f).unwrap();
    assert_eq!(ix.items.len(), 6);
    assert_eq!(ix.offsets_of(5, 10), vec![6, 37]);
    assert_eq!(ix.offsets_of(5, 20), vec![12, 43]);
    assert_eq!(ix.offsets_of(0, 10), vec![0]);
    assert_eq!(ix.offsets_of(1, 20), vec![68]);
    assert_eq!(ix.count_of(5, 20), 2);
}

#[test]
fn index_counts_agree_with_record_counts() {
    let f = small_file();
    let ix = build_index(&f).unwrap();
    let counts = count_records(&f).unwrap();
    for (name, c) in counts.iter() {
        let (t, u) = name_to_typ_sub(name.as_str());
        assert_eq!(*c, ix.count_of(t, u));
    }
}

#[test]
fn part_count_needs_matching_pairs() {
    let f = small_file();
    assert_eq!(count_parts(&f), Ok(2));

    // an extra PIR makes the counts differ
    let mut g = small_file();
    g.extend_from_slice(&[0x00, 0x02, 5, 10, 1, 3]);
    assert_eq!(count_parts(&g), Err(StdfError::Mismatch));

    // a file with no part records at all
    let h: &[u8] = &[0x00, 0x02, 0, 10, 1, 4];
    assert_eq!(count_parts(h), Err(StdfError::MissingPartRecords));

    // not a file at all
    assert_eq!(count_parts(&[0u8, 2u8]), Err(StdfError::NotStdf));
}

#[test]
fn yield_classifies_by_the_part_flag() {
    let f = small_file();
    assert_eq!(part_yield(&f), Ok((1, 1)));

    // a part whose outcome is unknown counts in neither tally
    let mut g = small_file();
    g.extend_from_slice(&[0x00, 0x14, 5, 20]);
    g.extend_from_slice(&[1, 3, 0x10, 0, 1, 0, 3, 0, 3, 0, 0, 0, 0, 0, 0, 0, 0, 0, 0, 0]);
    assert_eq!(part_yield(&g), Ok((1, 1)));
}

#[test]
fn first_master_results_record_is_found() {
    let f = small_file();
    assert_eq!(mrr_offset(&f, Endian::Big), Some(68));
    let no_mrr: &[u8] = &[0x00, 0x02, 0, 10, 1, 4];
    assert_eq!(mrr_offset(no_mrr, Endian::Big), None);
}

#[test]
fn truncated_tail_record_ends_the_scan_cleanly() {
    let mut f = small_file();
    f.extend_from_slice(&[0x00, 0x40, 1, 30]); // header promising 64 bytes that are not there
    let ix = build_index(&f).unwrap();
    assert_eq!(ix.items.len(), 6);
}

#[test]
fn catalogue_names_and_pairs_agree() {
    let names = is_supported_records();
    assert_eq!(names.len(), 25);
    assert_eq!(names[0], "FAR");
    assert_eq!(names[24], "DTR");
    for name in names.iter() {
        let (t, u) = name_to_typ_sub(name.as_str());
        assert!(is_supported_typ_sub((t, u)));
        assert_eq!(&typ_sub_to_name(t, u), name);
    }
    assert_eq!(typ_sub_to_name(1, 10), "MIR");
    assert_eq!(typ_sub_to_name(99, 99), "???");
    assert_eq!(name_to_typ_sub("MIR"), (1, 10));
    assert_eq!(name_to_typ_sub("UNKNOWN"), (0, 0));
    assert!(!is_supported_typ_sub((3, 3)));
}

#[test]
fn unknown_records_are_kept_raw_and_refused_on_write() {
    let b: &[u8] = &[0x00, 0x03, 99, 99, 0xaa, 0xbb, 0xcc];
    let mut off = 0;
    let rec = V4::try_read(b, &mut off, Endian::Big).unwrap();
    match &rec {
        V4::Unknown(raw) => {
            assert_eq!(raw.rec_typ.0, 99);
            assert_eq!(raw.rec_sub.0, 99);
            assert_eq!(raw.contents, vec![0xaa, 0xbb, 0xcc]);
        }
        _ => panic!(),
    }
    assert_eq!(rec.name(), "???");
    assert_eq!(rec.rec_typ_sub(), (99, 99));
    let mut out: Vec<u8> = Vec::new();
    assert_eq!(rec.try_write(&mut out, Endian::Big), Err(StdfError::Unencodable));
    assert_eq!(out.len(), 0);
}

#[test]
fn undecodable_payload_becomes_invalid() {
    // a PRR whose payload ends inside a mandatory field
    let b: &[u8] = &[0x00, 0x03, 5, 20, 1, 1, 0x00];
    let mut off = 0;
    let rec = V4::try_read(b, &mut off, Endian::Big).unwrap();
    match &rec {
        V4::Invalid(raw) => {
            assert_eq!(raw.rec_typ.0, 5);
            assert_eq!(raw.rec_sub.0, 20);
            assert_eq!(raw.contents, vec![1, 1, 0x00]);
        }
        _ => panic!(),
    }
}

#[test]
fn whole_records_round_trip_through_the_stream() {
    let f = small_file();
    let mut off = 0;
    let mut out: Vec<u8> = Vec::new();
    while off < f.len() {
        let rec = V4::try_read(&f, &mut off, Endian::Big).unwrap();
        rec.try_write(&mut out, Endian::Big).unwrap();
    }
    assert_eq!(f, out);
}

#[test]
fn truncated_records_round_trip_too() {
    // a PRR cut after its mandatory fields, and an MRR cut after its
    // timestamp: both re-encode to exactly the bytes they came from
    let mut f: Vec<u8> = Vec::new();
    f.extend_from_slice(&[0x00, 0x02, 0, 10, 1, 4]); // FAR
    f.extend_from_slice(&[0x00, 0x07, 5, 20, 1, 1, 0x00, 0, 2, 0, 1]);
    f.extend_from_slice(&[0x00, 0x04, 1, 20, 0x60, 0x00, 0x00, 0x00]);
    let mut off = 0;
    let mut out: Vec<u8> = Vec::new();
    while off < f.len() {
        let rec = V4::try_read(&f, &mut off, Endian::Big).unwrap();
        rec.try_write(&mut out, Endian::Big).unwrap();
    }
    assert_eq!(f, out);
}

#[test]
fn unknown_records_get_one_placeholder_tally() {
    let mut f = small_file();
    f.extend_from_slice(&[0x00, 0x01, 99, 99, 0xaa]);
    f.extend_from_slice(&[0x00, 0x01, 98, 98, 0xbb]);
    let counts = count_records(&f).unwrap();
    let last = counts.last().unwrap();
    assert_eq!(last.0, "???");
    assert_eq!(last.1, 2);
    // and only pairs the file holds appear at all
    assert_eq!(counts.len(), 5);
    assert_eq!(counts[0].0, "FAR");
}

#[test]
fn part_flag_text() {
    assert_eq!(prr_part_flg(B1(0b0000_0000)), "→ PASS");
    assert_eq!(prr_part_flg(B1(0b0000_1000)), "→ FAIL");
    assert_eq!(prr_part_flg(B1(0b0001_0000)), "→ ?");
    assert_eq!(prr_part_flg(B1(0b0000_0100)), "→ PASS (Abnormal end of testing)");
}

#[test]
fn test_flag_text() {
    assert_eq!(ptr_test_flg(B1(0)), "() → PASS");
    assert_eq!(ptr_test_flg(B1(0x81)), "(Alarm, ) → FAIL");
    assert_eq!(ptr_test_flg(B1(0x40)), "() → ?");
    assert_eq!(ptr_parm_flg(B1(0)), "()");
    assert_eq!(ptr_parm_flg(B1(0x18)), "(RESULT > HI_LIMIT, RESULT < LO_LIMIT, )");
    assert_eq!(ptr_opt_flag(B1(0xc0)), "(no LO_LIMIT, no HI_LIMIT, )");
}

#[test]
fn hex_text() {
    assert_eq!(to_hex_string(&[0xde, 0xad, 0x01]), "DEAD01");
    assert_eq!(to_hex_string(&[]), "");
}

#[test]
fn numeric_text() {
    assert_eq!(dec_text(0), "0");
    assert_eq!(dec_text(65535), "65535");
    assert_eq!(dec_text(u64::MAX), "18446744073709551615");
    assert_eq!(dec_text_i64(-32768), "-32768");
    assert_eq!(dec_text_i64(42), "42");
    assert_eq!(bin8_text(0b1010_0101), "10100101");
    assert_eq!(ms_text(1234), "1.234 sec");
    assert_eq!(ms_text(30), "0.030 sec");
}

#[test]
fn timestamp_text_comes_from_the_calendar() {
    // the raw count alone cannot produce the calendar reading
    assert_eq!(
        u4e_text(U4E(0)),
        "0 → Thu, 01 Jan 1970 00:00:00 +0000"
    );
    assert_eq!(
        u4e_text(U4E(86400)),
        "86400 → Fri, 02 Jan 1970 00:00:00 +0000"
    );
}

#[test]
fn string_field_text_decodes_utf8() {
    assert_eq!(cn_text(&Cn(b"abc".to_vec())), "'abc'");
    assert_eq!(cn_text(&Cn(Vec::new())), "∕");
    // an ill-formed byte becomes the replacement character, so the text
    // is not the input handed back unchanged
    assert_eq!(cn_text(&Cn(vec![0xff])), "'\u{fffd}'");
}

#[test]
fn part_results_dump_text() {
    let b: &[u8] = &[
        0x00, 0x16, 5, 20, 1, 2, 0x08, 0, 2, 0, 7, 0xff, 0xff, 0x80, 0x00, 0, 3, 0, 0, 0x04,
        0xd2, 1, b'A', 0, 1, 0xee,
    ];
    let mut off = 0;
    let rec = V4::try_read(b, &mut off, Endian::Big).unwrap();
    let x = match rec {
        V4::PRR(x) => x,
        _ => panic!(),
    };
    let text = prr_text(&x);
    let expected = "PRR : Part Results Record\n\
         \u{20}  HEAD_NUM [U1] : 1\n\
         \u{20}  SITE_NUM [U1] : 2\n\
         \u{20}  PART_FLG [B1] : 00001000 → FAIL\n\
         \u{20}  NUM_TEST [U2] : 2\n\
         \u{20}  HARD_BIN [U2] : 7\n\
         \u{20}  SOFT_BIN [U2] : ∕\n\
         \u{20}  X_COORD  [I2] : ∕\n\
         \u{20}  Y_COORD  [I2] : 3\n\
         \u{20}  TEST_T   [U4] : 1234 → 1.234 sec\n\
         \u{20}  PART_ID  [Cn] : 'A'\n\
         \u{20}  PART_TXT [Cn] : ∕\n\
         \u{20}  PART_FIX [Bn] : EE\n";
    assert_eq!(text, expected);
}

#[test]
fn part_count_dump_text() {
    let b: &[u8] = &[
        0x00, 0x16, 1, 30, 255, 9, 0x00, 0x00, 0x01, 0x00, 0xff, 0xff, 0xff, 0xff, 0, 0, 0, 5,
        0xff, 0xff, 0xff, 0xff, 0, 0, 0, 2,
    ];
    let mut off = 0;
    let rec = V4::try_read(b, &mut off, Endian::Big).unwrap();
    let x = match rec {
        V4::PCR(x) => x,
        _ => panic!(),
    };
    let text = pcr_text(&x);
    let expected = "PCR : Part Count Record\n\
         \u{20}  HEAD_NUM [U1] : 255 → Summary\n\
         \u{20}  SITE_NUM [U1] : ∕\n\
         \u{20}  PART_CNT [U4] : 256\n\
         \u{20}  RTST_CNT [U4] : ∕\n\
         \u{20}  ABRT_CNT [U4] : 5\n\
         \u{20}  GOOD_CNT [U4] : ∕\n\
         \u{20}  FUNC_CNT [U4] : 2\n";
    assert_eq!(text, expected);
}

#[test]
fn vn_unknown_tag_is_bad_input() {
    // a GDR whose single generic value has an unclaimed tag
    let b: &[u8] = &[0x00, 0x04, 50, 10, 0x00, 0x01, 9, 0];
    let mut off = 0;
    let rec = V4::try_read(b, &mut off, Endian::Big).unwrap();
    assert!(matches!(rec, V4::Invalid(_)));
    // and at the field level the kind is bad input, not truncation
    let payload: &[u8] = &[9, 0];
    let mut o = 0;
    assert_eq!(
        stdf::fields::rd_vn(payload, &mut o, Endian::Big),
        Err(StdfError::BadInput)
    );
    let short: &[u8] = &[2, 0];
    o = 0;
    assert_eq!(
        stdf::fields::rd_vn(short, &mut o, Endian::Big),
        Err(StdfError::Truncated)
    );
}
