//! Deterministic text for the bit-flag fields, and hexadecimal text for
//! raw bytes: pure functions of the decoded values, used by dump tools.

use vstd::prelude::*;

use crate::rec_lot::PCR;
use crate::rec_part::PRR;
use crate::types::{B1, Cn, U4E};

verus! {

/// The verdict text of a part flag: the unknown bit wins, then the fail
/// bit, else the part passed; an abnormal end of testing is noted.
pub open spec fn spec_prr_part_flg(flg: u8) -> Seq<char> {
    let m0 = "→ "@;
    let m1 = if flg & 0x10 == 0x10 {
        m0 + "?"@
    } else if flg & 0x08 == 0x08 {
        m0 + "FAIL"@
    } else {
        m0 + "PASS"@
    };
    if flg & 0x04 == 0x04 {
        m1 + " (Abnormal end of testing)"@
    } else {
        m1
    }
}

/// Describes a part-results flag: pass, fail or unknown, with a note for
/// an abnormal end of testing.
pub fn prr_part_flg(part_flg: B1) -> (r: String)
    ensures
        r@ == spec_prr_part_flg(part_flg.0),
{
    let mut msg = String::new();
    msg.append("→ ");
    if part_flg.0 & 0x10 == 0x10 {
        msg.append("?");
    } else if part_flg.0 & 0x08 == 0x08 {
        msg.append("FAIL");
    } else {
        msg.append("PASS");
    }
    if part_flg.0 & 0x04 == 0x04 {
        msg.append(" (Abnormal end of testing)");
    }
    msg
}

/// The full text of a test flag: every condition bit that is set, noted
/// in order, then the verdict.
pub open spec fn spec_ptr_test_flg(flg: u8) -> Seq<char> {
    let m0 = "("@;
    let m1 = if flg & 0x01 == 0x01 {
        m0 + "Alarm, "@
    } else {
        m0
    };
    let m2 = if flg & 0x02 == 0x02 {
        m1 + "RESULT not valid, "@
    } else {
        m1
    };
    let m3 = if flg & 0x04 == 0x04 {
        m2 + "RESULT is unreliable, "@
    } else {
        m2
    };
    let m4 = if flg & 0x08 == 0x08 {
        m3 + "Timeout, "@
    } else {
        m3
    };
    let m5 = if flg & 0x10 == 0x10 {
        m4 + "Test not executed, "@
    } else {
        m4
    };
    let m6 = if flg & 0x20 == 0x20 {
        m5 + "Test aborted, "@
    } else {
        m5
    };
    let m7 = m6 + ") → "@;
    if flg & 0x40 == 0x40 {
        m7 + "?"@
    } else if flg & 0x80 == 0x80 {
        m7 + "FAIL"@
    } else {
        m7 + "PASS"@
    }
}

/// Describes a parametric-test flag: every condition bit that is set,
/// then pass, fail or unknown.
pub fn ptr_test_flg(test_flg: B1) -> (r: String)
    ensures
        r@ == spec_ptr_test_flg(test_flg.0),
{
    let flg = test_flg.0;
    let mut msg = String::new();
    msg.append("(");
    if flg & 0x01 == 0x01 {
        msg.append("Alarm, ");
    }
    if flg & 0x02 == 0x02 {
        msg.append("RESULT not valid, ");
    }
    if flg & 0x04 == 0x04 {
        msg.append("RESULT is unreliable, ");
    }
    if flg & 0x08 == 0x08 {
        msg.append("Timeout, ");
    }
    if flg & 0x10 == 0x10 {
        msg.append("Test not executed, ");
    }
    if flg & 0x20 == 0x20 {
        msg.append("Test aborted, ");
    }
    msg.append(") → ");
    if flg & 0x40 == 0x40 {
        msg.append("?");
    } else if flg & 0x80 == 0x80 {
        msg.append("FAIL");
    } else {
        msg.append("PASS");
    }
    msg
}

/// The note list of a parameter flag: every measurement condition bit
/// that is set, noted in order.
pub open spec fn spec_ptr_parm_flg(flg: u8) -> Seq<char> {
    let m0 = "("@;
    let m1 = if flg & 0x01 == 0x01 {
        m0 + "Scale error, "@
    } else {
        m0
    };
    let m2 = if flg & 0x02 == 0x02 {
        m1 + "Drift error, "@
    } else {
        m1
    };
    let m3 = if flg & 0x04 == 0x04 {
        m2 + "Oscillation detected, "@
    } else {
        m2
    };
    let m4 = if flg & 0x08 == 0x08 {
        m3 + "RESULT > HI_LIMIT, "@
    } else {
        m3
    };
    let m5 = if flg & 0x10 == 0x10 {
        m4 + "RESULT < LO_LIMIT, "@
    } else {
        m4
    };
    m5 + ")"@
}

/// Describes a parameter flag: every measurement condition bit that is
/// set.
pub fn ptr_parm_flg(parm_flg: B1) -> (r: String)
    ensures
        r@ == spec_ptr_parm_flg(parm_flg.0),
{
    let flg = parm_flg.0;
    let mut msg = String::new();
    msg.append("(");
    if flg & 0x01 == 0x01 {
        msg.append("Scale error, ");
    }
    if flg & 0x02 == 0x02 {
        msg.append("Drift error, ");
    }
    if flg & 0x04 == 0x04 {
        msg.append("Oscillation detected, ");
    }
    if flg & 0x08 == 0x08 {
        msg.append("RESULT > HI_LIMIT, ");
    }
    if flg & 0x10 == 0x10 {
        msg.append("RESULT < LO_LIMIT, ");
    }
    msg.append(")");
    msg
}

/// The note list of an optional-data flag: every invalid-or-missing
/// limit bit that is set, noted in order.
pub open spec fn spec_ptr_opt_flag(flg: u8) -> Seq<char> {
    let m0 = "("@;
    let m1 = if flg & 0x01 == 0x01 {
        m0 + "RES_SCAL is invalid, "@
    } else {
        m0
    };
    let m2 = if flg & 0x04 == 0x04 {
        m1 + "No low spec limit, "@
    } else {
        m1
    };
    let m3 = if flg & 0x08 == 0x08 {
        m2 + "No high spec limit, "@
    } else {
        m2
    };
    let m4 = if flg & 0x10 == 0x10 {
        m3 + "LO_LIMIT and LLM_SCAL are invalid, "@
    } else {
        m3
    };
    let m5 = if flg & 0x20 == 0x20 {
        m4 + "HI_LIMIT and HLM_SCAL are invalid, "@
    } else {
        m4
    };
    let m6 = if flg & 0x40 == 0x40 {
        m5 + "no LO_LIMIT, "@
    } else {
        m5
    };
    let m7 = if flg & 0x80 == 0x80 {
        m6 + "no HI_LIMIT, "@
    } else {
        m6
    };
    m7 + ")"@
}

/// Describes an optional-data flag: every invalid-or-missing-limit bit
/// that is set.
pub fn ptr_opt_flag(opt_flag: B1) -> (r: String)
    ensures
        r@ == spec_ptr_opt_flag(opt_flag.0),
{
    let flg = opt_flag.0;
    let mut msg = String::new();
    msg.append("(");
    if flg & 0x01 == 0x01 {
        msg.append("RES_SCAL is invalid, ");
    }
    if flg & 0x04 == 0x04 {
        msg.append("No low spec limit, ");
    }
    if flg & 0x08 == 0x08 {
        msg.append("No high spec limit, ");
    }
    if flg & 0x10 == 0x10 {
        msg.append("LO_LIMIT and LLM_SCAL are invalid, ");
    }
    if flg & 0x20 == 0x20 {
        msg.append("HI_LIMIT and HLM_SCAL are invalid, ");
    }
    if flg & 0x40 == 0x40 {
        msg.append("no LO_LIMIT, ");
    }
    if flg & 0x80 == 0x80 {
        msg.append("no HI_LIMIT, ");
    }
    msg.append(")");
    msg
}

/// The upper-case hexadecimal digit of a value below sixteen.
pub open spec fn spec_hex_digit(n: u8) -> Seq<char> {
    if n == 0 {
        "0"@
    } else if n == 1 {
        "1"@
    } else if n == 2 {
        "2"@
    } else if n == 3 {
        "3"@
    } else if n == 4 {
        "4"@
    } else if n == 5 {
        "5"@
    } else if n == 6 {
        "6"@
    } else if n == 7 {
        "7"@
    } else if n == 8 {
        "8"@
    } else if n == 9 {
        "9"@
    } else if n == 10 {
        "A"@
    } else if n == 11 {
        "B"@
    } else if n == 12 {
        "C"@
    } else if n == 13 {
        "D"@
    } else if n == 14 {
        "E"@
    } else {
        "F"@
    }
}

/// The hexadecimal text of a byte sequence, two upper-case digits per
/// byte.
pub open spec fn spec_hex(b: Seq<u8>) -> Seq<char>
    decreases b.len(),
{
    if b.len() == 0 {
        Seq::<char>::empty()
    } else {
        spec_hex_digit(b[0] / 16) + spec_hex_digit(b[0] % 16) + spec_hex(b.skip(1))
    }
}

/// One upper-case hexadecimal digit.
fn hex_digit(n: u8) -> (r: &'static str)
    requires
        n < 16,
    ensures
        r@ == spec_hex_digit(n),
{
    match n {
        0 => "0",
        1 => "1",
        2 => "2",
        3 => "3",
        4 => "4",
        5 => "5",
        6 => "6",
        7 => "7",
        8 => "8",
        9 => "9",
        10 => "A",
        11 => "B",
        12 => "C",
        13 => "D",
        14 => "E",
        _ => "F",
    }
}

/// Appending one byte appends its two digits.
proof fn lemma_hex_push(b: Seq<u8>, x: u8)
    ensures
        spec_hex(b.push(x)) == spec_hex(b) + (spec_hex_digit(x / 16) + spec_hex_digit(x % 16)),
    decreases b.len(),
{
    let w = b.push(x);
    if b.len() == 0 {
        assert(w[0] == x);
        assert(w.skip(1) =~= Seq::<u8>::empty());
        assert(spec_hex(w.skip(1)) == spec_hex(Seq::<u8>::empty()));
        assert(spec_hex(Seq::<u8>::empty()) == Seq::<char>::empty());
        assert(spec_hex(b) == Seq::<char>::empty());
        assert(spec_hex_digit(x / 16) + spec_hex_digit(x % 16) + Seq::<char>::empty()
            =~= Seq::<char>::empty() + (spec_hex_digit(x / 16) + spec_hex_digit(x % 16)));
    } else {
        assert(w[0] == b[0]);
        assert(w.skip(1) =~= b.skip(1).push(x));
        lemma_hex_push(b.skip(1), x);
        assert(spec_hex_digit(b[0] / 16) + spec_hex_digit(b[0] % 16) + (spec_hex(b.skip(1)) + (
        spec_hex_digit(x / 16) + spec_hex_digit(x % 16))) =~= (spec_hex_digit(b[0] / 16)
            + spec_hex_digit(b[0] % 16) + spec_hex(b.skip(1))) + (spec_hex_digit(x / 16)
            + spec_hex_digit(x % 16)));
    }
}

/// The hexadecimal text of a byte slice, two upper-case digits per byte.
pub fn to_hex_string(bytes: &[u8]) -> (r: String)
    ensures
        r@ == spec_hex(bytes@),
{
    let mut out = String::new();
    let n = bytes.len();
    let mut i: usize = 0;
    while i < n
        invariant
            i <= n,
            n == bytes@.len(),
            out@ == spec_hex(bytes@.take(i as int)),
        decreases n - i,
    {
        let b = bytes[i];
        out.append(hex_digit(b / 16));
        out.append(hex_digit(b % 16));
        i = i + 1;
        proof {
            assert(bytes@.take(i as int) =~= bytes@.take(i - 1).push(bytes@[i - 1]));
            lemma_hex_push(bytes@.take(i - 1), bytes@[i - 1]);
            assert(out@ =~= spec_hex(bytes@.take(i as int)));
        }
    }
    proof {
        assert(bytes@.take(n as int) =~= bytes@);
    }
    out
}

} // verus!

verus! {

/// One decimal digit.
pub open spec fn spec_dec_digit(n: u8) -> Seq<char> {
    if n == 0 {
        "0"@
    } else if n == 1 {
        "1"@
    } else if n == 2 {
        "2"@
    } else if n == 3 {
        "3"@
    } else if n == 4 {
        "4"@
    } else if n == 5 {
        "5"@
    } else if n == 6 {
        "6"@
    } else if n == 7 {
        "7"@
    } else if n == 8 {
        "8"@
    } else {
        "9"@
    }
}

/// The decimal text of a number, most significant digit first, no sign
/// and no padding.
pub open spec fn spec_dec(n: nat) -> Seq<char>
    decreases n,
{
    if n < 10 {
        spec_dec_digit(n as u8)
    } else {
        spec_dec(n / 10) + spec_dec_digit((n % 10) as u8)
    }
}

/// One decimal digit.
fn dec_digit(n: u8) -> (r: &'static str)
    requires
        n < 10,
    ensures
        r@ == spec_dec_digit(n),
{
    match n {
        0 => "0",
        1 => "1",
        2 => "2",
        3 => "3",
        4 => "4",
        5 => "5",
        6 => "6",
        7 => "7",
        8 => "8",
        _ => "9",
    }
}

/// The decimal text of an unsigned value.
pub fn dec_text(v: u64) -> (r: String)
    ensures
        r@ == spec_dec(v as nat),
    decreases v,
{
    if v < 10 {
        dec_digit(v as u8).to_owned()
    } else {
        let mut s = dec_text(v / 10);
        s.append(dec_digit((v % 10) as u8));
        s
    }
}

/// The decimal text of a signed value: a minus sign for a negative one,
/// then the digits of its magnitude.
pub open spec fn spec_dec_i64(v: i64) -> Seq<char> {
    if v < 0 {
        "-"@ + spec_dec((-(v as int)) as nat)
    } else {
        spec_dec(v as nat)
    }
}

/// The decimal text of a signed value.
pub fn dec_text_i64(v: i64) -> (r: String)
    ensures
        r@ == spec_dec_i64(v),
{
    if v < 0 {
        let mut s = "-".to_owned();
        let mag: u64 = if v == i64::MIN {
            0x8000_0000_0000_0000u64
        } else {
            (-v) as u64
        };
        s.append(dec_text(mag).as_str());
        s
    } else {
        dec_text(v as u64)
    }
}

/// The eight binary digits of a byte, highest bit first.
pub open spec fn spec_bin8(v: u8) -> Seq<char> {
    let m0 = if v & 0x80 != 0 {
        "1"@
    } else {
        "0"@
    };
    let m1 = m0 + (if v & 0x40 != 0 {
        "1"@
    } else {
        "0"@
    });
    let m2 = m1 + (if v & 0x20 != 0 {
        "1"@
    } else {
        "0"@
    });
    let m3 = m2 + (if v & 0x10 != 0 {
        "1"@
    } else {
        "0"@
    });
    let m4 = m3 + (if v & 0x08 != 0 {
        "1"@
    } else {
        "0"@
    });
    let m5 = m4 + (if v & 0x04 != 0 {
        "1"@
    } else {
        "0"@
    });
    let m6 = m5 + (if v & 0x02 != 0 {
        "1"@
    } else {
        "0"@
    });
    m6 + (if v & 0x01 != 0 {
        "1"@
    } else {
        "0"@
    })
}

/// The eight binary digits of a byte, highest bit first.
pub fn bin8_text(v: u8) -> (r: String)
    ensures
        r@ == spec_bin8(v),
{
    let mut s = String::new();
    if v & 0x80 != 0 {
        s.append("1");
    } else {
        s.append("0");
    }
    if v & 0x40 != 0 {
        s.append("1");
    } else {
        s.append("0");
    }
    if v & 0x20 != 0 {
        s.append("1");
    } else {
        s.append("0");
    }
    if v & 0x10 != 0 {
        s.append("1");
    } else {
        s.append("0");
    }
    if v & 0x08 != 0 {
        s.append("1");
    } else {
        s.append("0");
    }
    if v & 0x04 != 0 {
        s.append("1");
    } else {
        s.append("0");
    }
    if v & 0x02 != 0 {
        s.append("1");
    } else {
        s.append("0");
    }
    if v & 0x01 != 0 {
        s.append("1");
    } else {
        s.append("0");
    }
    proof {
        assert(Seq::<char>::empty() + (if v & 0x80 != 0 {
            "1"@
        } else {
            "0"@
        }) =~= (if v & 0x80 != 0 {
            "1"@
        } else {
            "0"@
        }));
    }
    s
}

/// A test time in milliseconds as seconds with three decimals.
pub open spec fn spec_ms(t: u32) -> Seq<char> {
    spec_dec((t / 1000) as nat) + "."@ + spec_dec_digit(((t / 100) % 10) as u8) + spec_dec_digit(
        ((t / 10) % 10) as u8,
    ) + spec_dec_digit((t % 10) as u8) + " sec"@
}

/// A test time in milliseconds as seconds with three decimals.
pub fn ms_text(t: u32) -> (r: String)
    ensures
        r@ == spec_ms(t),
{
    let mut s = dec_text((t / 1000) as u64);
    s.append(".");
    s.append(dec_digit(((t / 100) % 10) as u8));
    s.append(dec_digit(((t / 10) % 10) as u8));
    s.append(dec_digit((t % 10) as u8));
    s.append(" sec");
    s
}

} // verus!

verus! {

/// The text that lossy UTF-8 decoding gives a byte sequence: a pure
/// function of the bytes alone.
pub uninterp spec fn utf8_lossy_of(b: Seq<u8>) -> Seq<char>;

/// Relies on String::from_utf8_lossy: well-formed UTF-8 passes through
/// and ill-formed sequences become replacement characters, a function of
/// the bytes alone; no bytes give no text.
#[verifier::external_body]
pub fn utf8_lossy_text(b: &[u8]) -> (r: String)
    ensures
        r@ == utf8_lossy_of(b@),
        b@.len() == 0 ==> r@.len() == 0,
{
    String::from_utf8_lossy(b).into_owned()
}

/// The RFC 2822 text of a Unix timestamp, rendered for UTC: a pure
/// function of the timestamp alone.
pub uninterp spec fn rfc2822_of(ts: u32) -> Seq<char>;

/// Relies on time's OffsetDateTime::from_unix_timestamp and its RFC 2822
/// formatting: a pure function of the timestamp.  Every 32-bit timestamp
/// lands between 1970 and 2106, where both calls are documented to
/// succeed, so neither unwrap can fail.
#[verifier::external_body]
pub fn rfc2822_text(ts: u32) -> (r: String)
    ensures
        r@ == rfc2822_of(ts),
{
    let dt = time::OffsetDateTime::from_unix_timestamp(ts as i64).unwrap();
    dt.format(&time::format_description::well_known::Rfc2822).unwrap()
}

/// The dump text of a timestamp field: the raw count, then its RFC 2822
/// reading.
pub open spec fn spec_u4e_text(ts: u32) -> Seq<char> {
    spec_dec(ts as nat) + " → "@ + rfc2822_of(ts)
}

/// Renders a timestamp field: the raw count, then its RFC 2822 reading.
pub fn u4e_text(v: U4E) -> (r: String)
    ensures
        r@ == spec_u4e_text(v.0),
{
    let mut s = dec_text(v.0 as u64);
    s.append(" → ");
    s.append(rfc2822_text(v.0).as_str());
    s
}

/// A length-prefixed text field, quoted; an empty one is a placeholder.
pub open spec fn spec_cn_text(b: Seq<u8>) -> Seq<char> {
    if utf8_lossy_of(b).len() == 0 {
        "∕"@
    } else {
        "'"@ + utf8_lossy_of(b) + "'"@
    }
}

/// Renders a length-prefixed text field, quoted; an empty one becomes a
/// placeholder glyph.
pub fn cn_text(v: &Cn) -> (r: String)
    ensures
        r@ == spec_cn_text(v.0@),
{
    let t = utf8_lossy_text(v.0.as_slice());
    if t.as_str().is_empty() {
        "∕".to_owned()
    } else {
        let mut s = "'".to_owned();
        s.append(t.as_str());
        s.append("'");
        s
    }
}

} // verus!

verus! {

/// The dump text of a part-results record: one line per field, sentinel
/// values (an unset soft bin, coordinates at the signed minimum, a zero
/// test time, empty strings) as a placeholder, and the part flag in
/// binary with its verdict.
pub open spec fn spec_prr_text(rec: PRR) -> Seq<char> {
    let m0 = "PRR : Part Results Record\n"@;
    let m1 = m0 + "   HEAD_NUM [U1] : "@ + spec_dec(rec.head_num.0 as nat) + "\n"@;
    let m2 = m1 + "   SITE_NUM [U1] : "@ + spec_dec(rec.site_num.0 as nat) + "\n"@;
    let m3 = m2 + "   PART_FLG [B1] : "@ + spec_bin8(rec.part_flg.0) + " "@ + spec_prr_part_flg(
        rec.part_flg.0,
    ) + "\n"@;
    let m4 = m3 + "   NUM_TEST [U2] : "@ + spec_dec(rec.num_test.0 as nat) + "\n"@;
    let m5 = m4 + "   HARD_BIN [U2] : "@ + spec_dec(rec.hard_bin.0 as nat) + "\n"@;
    let m6 = m5 + "   SOFT_BIN [U2] : "@ + (if rec.soft_bin.0 == 0xffff {
        "∕"@
    } else {
        spec_dec(rec.soft_bin.0 as nat)
    }) + "\n"@;
    let m7 = m6 + "   X_COORD  [I2] : "@ + (if rec.x_coord.0 == -32768i16 {
        "∕"@
    } else {
        spec_dec_i64(rec.x_coord.0 as i64)
    }) + "\n"@;
    let m8 = m7 + "   Y_COORD  [I2] : "@ + (if rec.y_coord.0 == -32768i16 {
        "∕"@
    } else {
        spec_dec_i64(rec.y_coord.0 as i64)
    }) + "\n"@;
    let m9 = m8 + "   TEST_T   [U4] : "@ + (if rec.test_t.0 == 0 {
        "∕"@
    } else {
        spec_dec(rec.test_t.0 as nat) + " → "@ + spec_ms(rec.test_t.0)
    }) + "\n"@;
    let m10 = m9 + "   PART_ID  [Cn] : "@ + spec_cn_text(rec.part_id.0@) + "\n"@;
    let m11 = m10 + "   PART_TXT [Cn] : "@ + spec_cn_text(rec.part_txt.0@) + "\n"@;
    m11 + "   PART_FIX [Bn] : "@ + (if rec.part_fix.0@.len() == 0 {
        "∕"@
    } else {
        spec_hex(rec.part_fix.0@)
    }) + "\n"@
}

/// Renders a part-results record for a dump.
#[verifier::rlimit(100)]
#[verifier::spinoff_prover]
pub fn prr_text(rec: &PRR) -> (r: String)
    ensures
        r@ == spec_prr_text(*rec),
{
    let mut s = "PRR : Part Results Record\n".to_owned();
    s.append("   HEAD_NUM [U1] : ");
    s.append(dec_text(rec.head_num.0 as u64).as_str());
    s.append("\n");
    s.append("   SITE_NUM [U1] : ");
    s.append(dec_text(rec.site_num.0 as u64).as_str());
    s.append("\n");
    s.append("   PART_FLG [B1] : ");
    s.append(bin8_text(rec.part_flg.0).as_str());
    s.append(" ");
    s.append(prr_part_flg(rec.part_flg).as_str());
    s.append("\n");
    s.append("   NUM_TEST [U2] : ");
    s.append(dec_text(rec.num_test.0 as u64).as_str());
    s.append("\n");
    s.append("   HARD_BIN [U2] : ");
    s.append(dec_text(rec.hard_bin.0 as u64).as_str());
    s.append("\n");
    s.append("   SOFT_BIN [U2] : ");
    if rec.soft_bin.0 == 0xffff {
        s.append("∕");
    } else {
        s.append(dec_text(rec.soft_bin.0 as u64).as_str());
    }
    s.append("\n");
    s.append("   X_COORD  [I2] : ");
    if rec.x_coord.0 == i16::MIN {
        s.append("∕");
    } else {
        s.append(dec_text_i64(rec.x_coord.0 as i64).as_str());
    }
    s.append("\n");
    s.append("   Y_COORD  [I2] : ");
    if rec.y_coord.0 == i16::MIN {
        s.append("∕");
    } else {
        s.append(dec_text_i64(rec.y_coord.0 as i64).as_str());
    }
    s.append("\n");
    s.append("   TEST_T   [U4] : ");
    if rec.test_t.0 == 0 {
        s.append("∕");
    } else {
        s.append(dec_text(rec.test_t.0 as u64).as_str());
        s.append(" → ");
        s.append(ms_text(rec.test_t.0).as_str());
    }
    s.append("\n");
    s.append("   PART_ID  [Cn] : ");
    s.append(cn_text(&rec.part_id).as_str());
    s.append("\n");
    s.append("   PART_TXT [Cn] : ");
    s.append(cn_text(&rec.part_txt).as_str());
    s.append("\n");
    s.append("   PART_FIX [Bn] : ");
    if rec.part_fix.0.len() == 0 {
        s.append("∕");
    } else {
        s.append(to_hex_string(rec.part_fix.0.as_slice()).as_str());
    }
    s.append("\n");
    s
}

/// A count field whose all-ones value means "not counted".
pub open spec fn spec_opt_u4_text(v: u32) -> Seq<char> {
    if v == 0xffff_ffff {
        "∕"@
    } else {
        spec_dec(v as nat)
    }
}

/// The dump text of a part-count record: one line per field, the head
/// number 255 marked as the summary row, and uncounted tallies as a
/// placeholder.
pub open spec fn spec_pcr_text(rec: PCR) -> Seq<char> {
    let m0 = "PCR : Part Count Record\n"@;
    let m1 = m0 + "   HEAD_NUM [U1] : "@ + (if rec.head_num.0 == 255 {
        spec_dec(rec.head_num.0 as nat) + " → Summary"@
    } else {
        spec_dec(rec.head_num.0 as nat)
    }) + "\n"@;
    let m2 = m1 + "   SITE_NUM [U1] : "@ + (if rec.head_num.0 == 255 {
        "∕"@
    } else {
        spec_dec(rec.site_num.0 as nat)
    }) + "\n"@;
    let m3 = m2 + "   PART_CNT [U4] : "@ + spec_dec(rec.part_cnt.0 as nat) + "\n"@;
    let m4 = m3 + "   RTST_CNT [U4] : "@ + spec_opt_u4_text(rec.rtst_cnt.0) + "\n"@;
    let m5 = m4 + "   ABRT_CNT [U4] : "@ + spec_opt_u4_text(rec.abrt_cnt.0) + "\n"@;
    let m6 = m5 + "   GOOD_CNT [U4] : "@ + spec_opt_u4_text(rec.good_cnt.0) + "\n"@;
    m6 + "   FUNC_CNT [U4] : "@ + spec_opt_u4_text(rec.func_cnt.0) + "\n"@
}

/// A count field whose all-ones value means "not counted".
fn opt_u4_text(v: u32) -> (r: String)
    ensures
        r@ == spec_opt_u4_text(v),
{
    if v == 0xffff_ffff {
        "∕".to_owned()
    } else {
        dec_text(v as u64)
    }
}

/// Renders a part-count record for a dump.
#[verifier::rlimit(100)]
#[verifier::spinoff_prover]
pub fn pcr_text(rec: &PCR) -> (r: String)
    ensures
        r@ == spec_pcr_text(*rec),
{
    let mut s = "PCR : Part Count Record\n".to_owned();
    s.append("   HEAD_NUM [U1] : ");
    s.append(dec_text(rec.head_num.0 as u64).as_str());
    if rec.head_num.0 == 255 {
        s.append(" → Summary");
    }
    s.append("\n");
    s.append("   SITE_NUM [U1] : ");
    if rec.head_num.0 == 255 {
        s.append("∕");
    } else {
        s.append(dec_text(rec.site_num.0 as u64).as_str());
    }
    s.append("\n");
    s.append("   PART_CNT [U4] : ");
    s.append(dec_text(rec.part_cnt.0 as u64).as_str());
    s.append("\n");
    s.append("   RTST_CNT [U4] : ");
    s.append(opt_u4_text(rec.rtst_cnt.0).as_str());
    s.append("\n");
    s.append("   ABRT_CNT [U4] : ");
    s.append(opt_u4_text(rec.abrt_cnt.0).as_str());
    s.append("\n");
    s.append("   GOOD_CNT [U4] : ");
    s.append(opt_u4_text(rec.good_cnt.0).as_str());
    s.append("\n");
    s.append("   FUNC_CNT [U4] : ");
    s.append(opt_u4_text(rec.func_cnt.0).as_str());
    s.append("\n");
    s
}

} // verus!
