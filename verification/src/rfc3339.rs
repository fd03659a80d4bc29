//! RFC 3339 text form of a timestamp, `YYYY-MM-DDTHH:MM:SSZ`, as bytes.
//!
//! Only the canonical UTC form with a `Z` suffix and no sub-second part is
//! produced or accepted: the watermark checkpoint is written exclusively by
//! this library, so the parser owes success exactly on the encoder's output.

use vstd::prelude::*;
use crate::civil::{
    Civil, TS_MAX, days_in_month, epoch_secs, from_civil, lemma_civil_of_correct,
    lemma_civil_unique, month_days, spec_civil_of, to_civil, valid_civil,
};
use crate::digits::{
    dch, four_digits, is_digit_b, lemma_four_digits_range, lemma_four_digits_value,
    lemma_two_digits_range, lemma_two_digits_value, two_digits,
};

verus! {

/// Byte values of the fixed punctuation: `-`, `T`, `:`, `Z`.
pub const DASH: u8 = 45;

pub const UPPER_T: u8 = 84;

pub const COLON: u8 = 58;

pub const UPPER_Z: u8 = 90;

/// The canonical text of a civil date-time.
pub open spec fn spec_rfc3339_civil(c: Civil) -> Seq<u8> {
    four_digits(c.year as int) + seq![DASH] + two_digits(c.month as int) + seq![DASH]
        + two_digits(c.day as int) + seq![UPPER_T] + two_digits(c.hour as int) + seq![COLON]
        + two_digits(c.minute as int) + seq![COLON] + two_digits(c.second as int) + seq![UPPER_Z]
}

/// The canonical text of a supported timestamp.
pub open spec fn spec_rfc3339(ts: int) -> Seq<u8> {
    spec_rfc3339_civil(spec_civil_of(ts))
}

/// The canonical text written out position by position.
pub proof fn lemma_rfc3339_literal(c: Civil)
    ensures
        spec_rfc3339_civil(c) =~= seq![
            dch(c.year as int / 1000),
            dch((c.year as int / 100) % 10),
            dch((c.year as int / 10) % 10),
            dch(c.year as int % 10),
            DASH,
            dch(c.month as int / 10),
            dch(c.month as int % 10),
            DASH,
            dch(c.day as int / 10),
            dch(c.day as int % 10),
            UPPER_T,
            dch(c.hour as int / 10),
            dch(c.hour as int % 10),
            COLON,
            dch(c.minute as int / 10),
            dch(c.minute as int % 10),
            COLON,
            dch(c.second as int / 10),
            dch(c.second as int % 10),
            UPPER_Z,
        ],
{
}

/// Format a supported timestamp in the canonical RFC 3339 form.
#[verifier::rlimit(60)]
pub fn format_rfc3339(ts: i64) -> (r: Vec<u8>)
    requires
        0 <= ts < TS_MAX,
    ensures
        r@ == spec_rfc3339(ts as int),
        r@.len() == 20,
{
    let c = to_civil(ts);
    let mut r: Vec<u8> = Vec::new();
    r.push((48 + (c.year / 1000)) as u8);
    r.push((48 + (c.year / 100) % 10) as u8);
    r.push((48 + (c.year / 10) % 10) as u8);
    r.push((48 + c.year % 10) as u8);
    r.push(DASH);
    r.push((48 + c.month / 10) as u8);
    r.push((48 + c.month % 10) as u8);
    r.push(DASH);
    r.push((48 + c.day / 10) as u8);
    r.push((48 + c.day % 10) as u8);
    r.push(UPPER_T);
    r.push((48 + c.hour / 10) as u8);
    r.push((48 + c.hour % 10) as u8);
    r.push(COLON);
    r.push((48 + c.minute / 10) as u8);
    r.push((48 + c.minute % 10) as u8);
    r.push(COLON);
    r.push((48 + c.second / 10) as u8);
    r.push((48 + c.second % 10) as u8);
    r.push(UPPER_Z);
    proof {
        lemma_rfc3339_literal(c);
        assert(r@ =~= spec_rfc3339_civil(c));
    }
    r
}

/// Parse the canonical RFC 3339 form. Returns the timestamp exactly when
/// the input is the canonical text of some supported timestamp.
#[verifier::rlimit(100)]
pub fn parse_rfc3339(v: &Vec<u8>) -> (r: Option<i64>)
    ensures
        match r {
            Some(ts) => 0 <= ts < TS_MAX && v@ == spec_rfc3339(ts as int),
            None => forall|ts: int| 0 <= ts < TS_MAX ==> v@ != spec_rfc3339(ts),
        },
{
    proof {
        assert forall|ts: int| 0 <= ts < TS_MAX implies spec_rfc3339(ts).len() == 20 by {
            lemma_rfc3339_literal(spec_civil_of(ts));
        }
    }
    if v.len() != 20 {
        return None;
    }
    let shape_ok = is_dig(v[0]) && is_dig(v[1]) && is_dig(v[2]) && is_dig(v[3]) && v[4] == DASH
        && is_dig(v[5]) && is_dig(v[6]) && v[7] == DASH && is_dig(v[8]) && is_dig(v[9]) && v[10]
        == UPPER_T && is_dig(v[11]) && is_dig(v[12]) && v[13] == COLON && is_dig(v[14]) && is_dig(
        v[15],
    ) && v[16] == COLON && is_dig(v[17]) && is_dig(v[18]) && v[19] == UPPER_Z;
    proof {
        assert forall|ts: int| 0 <= ts < TS_MAX && v@ == spec_rfc3339(ts) implies ({
            let c = spec_civil_of(ts);
            &&& valid_civil(c)
            &&& epoch_secs(c) == ts
            &&& v@[0] == dch(c.year as int / 1000)
            &&& v@[1] == dch((c.year as int / 100) % 10)
            &&& v@[2] == dch((c.year as int / 10) % 10)
            &&& v@[3] == dch(c.year as int % 10)
            &&& v@[5] == dch(c.month as int / 10)
            &&& v@[6] == dch(c.month as int % 10)
            &&& v@[8] == dch(c.day as int / 10)
            &&& v@[9] == dch(c.day as int % 10)
            &&& v@[11] == dch(c.hour as int / 10)
            &&& v@[12] == dch(c.hour as int % 10)
            &&& v@[14] == dch(c.minute as int / 10)
            &&& v@[15] == dch(c.minute as int % 10)
            &&& v@[17] == dch(c.second as int / 10)
            &&& v@[18] == dch(c.second as int % 10)
            &&& v@[4] == DASH && v@[7] == DASH && v@[10] == UPPER_T && v@[13] == COLON && v@[16]
                == COLON && v@[19] == UPPER_Z
        }) by {
            lemma_civil_of_correct(ts);
            lemma_rfc3339_literal(spec_civil_of(ts));
        }
    }
    if !shape_ok {
        proof {
            assert forall|ts: int| 0 <= ts < TS_MAX implies v@ != spec_rfc3339(ts) by {
                if v@ == spec_rfc3339(ts) {
                    let c = spec_civil_of(ts);
                    lemma_civil_of_correct(ts);
                    lemma_four_digits_range(c.year as int);
                    lemma_two_digits_range(c.month as int);
                    lemma_two_digits_range(c.day as int);
                    lemma_two_digits_range(c.hour as int);
                    lemma_two_digits_range(c.minute as int);
                    lemma_two_digits_range(c.second as int);
                }
            }
        }
        return None;
    }
    let y: i64 = 1000 * ((v[0] - 48) as i64) + 100 * ((v[1] - 48) as i64) + 10 * ((v[2]
        - 48) as i64) + (v[3] - 48) as i64;
    let mo: i64 = 10 * ((v[5] - 48) as i64) + (v[6] - 48) as i64;
    let d: i64 = 10 * ((v[8] - 48) as i64) + (v[9] - 48) as i64;
    let h: i64 = 10 * ((v[11] - 48) as i64) + (v[12] - 48) as i64;
    let mi: i64 = 10 * ((v[14] - 48) as i64) + (v[15] - 48) as i64;
    let s: i64 = 10 * ((v[17] - 48) as i64) + (v[18] - 48) as i64;
    proof {
        assert forall|ts: int| 0 <= ts < TS_MAX && v@ == spec_rfc3339(ts) implies ({
            let c = spec_civil_of(ts);
            y == c.year && mo == c.month && d == c.day && h == c.hour && mi == c.minute && s
                == c.second
        }) by {
            let c = spec_civil_of(ts);
            lemma_civil_of_correct(ts);
            lemma_four_digits_range(c.year as int);
            lemma_two_digits_range(c.month as int);
            lemma_two_digits_range(c.day as int);
            lemma_two_digits_range(c.hour as int);
            lemma_two_digits_range(c.minute as int);
            lemma_two_digits_range(c.second as int);
        }
    }
    let fields_ok = 1970 <= y && y <= 9999 && 1 <= mo && mo <= 12 && 0 <= h && h <= 23 && 0 <= mi
        && mi <= 59 && 0 <= s && s <= 59;
    if !fields_ok {
        return None;
    }
    if !(1 <= d && d <= month_days(y, mo)) {
        return None;
    }
    let c = Civil { year: y, month: mo, day: d, hour: h, minute: mi, second: s };
    let ts = from_civil(&c);
    proof {
        lemma_civil_of_correct(ts as int);
        lemma_civil_unique(c, spec_civil_of(ts as int));
        lemma_four_digits_value(
            (v@[0] - 48) as int,
            (v@[1] - 48) as int,
            (v@[2] - 48) as int,
            (v@[3] - 48) as int,
        );
        lemma_two_digits_value((v@[5] - 48) as int, (v@[6] - 48) as int);
        lemma_two_digits_value((v@[8] - 48) as int, (v@[9] - 48) as int);
        lemma_two_digits_value((v@[11] - 48) as int, (v@[12] - 48) as int);
        lemma_two_digits_value((v@[14] - 48) as int, (v@[15] - 48) as int);
        lemma_two_digits_value((v@[17] - 48) as int, (v@[18] - 48) as int);
        lemma_rfc3339_literal(c);
        assert(v@ =~= spec_rfc3339_civil(c));
    }
    Some(ts)
}

/// The canonical text determines the timestamp.
#[verifier::rlimit(100)]
#[verifier::spinoff_prover]
pub proof fn lemma_rfc3339_injective(t1: int, t2: int)
    requires
        0 <= t1 < TS_MAX,
        0 <= t2 < TS_MAX,
        spec_rfc3339(t1) == spec_rfc3339(t2),
    ensures
        t1 == t2,
{
    let c1 = spec_civil_of(t1);
    let c2 = spec_civil_of(t2);
    lemma_civil_of_correct(t1);
    lemma_civil_of_correct(t2);
    let s = spec_rfc3339(t1);
    assert forall|i: int| 0 <= i < 20 implies spec_rfc3339_civil(c1)[i] == spec_rfc3339_civil(
        c2,
    )[i] by {
        lemma_rfc3339_literal(c1);
        lemma_rfc3339_literal(c2);
    }
    assert(c1.year == c2.year) by {
        lemma_rfc3339_literal(c1);
        lemma_rfc3339_literal(c2);
        lemma_four_digits_range(c1.year as int);
        lemma_four_digits_range(c2.year as int);
        assert(dch(c1.year as int / 1000) == dch(c2.year as int / 1000));
        assert(dch((c1.year as int / 100) % 10) == dch((c2.year as int / 100) % 10));
        assert(dch((c1.year as int / 10) % 10) == dch((c2.year as int / 10) % 10));
        assert(dch(c1.year as int % 10) == dch(c2.year as int % 10));
    };
    assert(c1.month == c2.month) by {
        lemma_rfc3339_literal(c1);
        lemma_rfc3339_literal(c2);
        lemma_two_digits_range(c1.month as int);
        lemma_two_digits_range(c2.month as int);
        assert(dch(c1.month as int / 10) == dch(c2.month as int / 10));
        assert(dch(c1.month as int % 10) == dch(c2.month as int % 10));
    };
    assert(c1.day == c2.day) by {
        lemma_rfc3339_literal(c1);
        lemma_rfc3339_literal(c2);
        lemma_two_digits_range(c1.day as int);
        lemma_two_digits_range(c2.day as int);
        assert(dch(c1.day as int / 10) == dch(c2.day as int / 10));
        assert(dch(c1.day as int % 10) == dch(c2.day as int % 10));
    };
    assert(c1.hour == c2.hour) by {
        lemma_rfc3339_literal(c1);
        lemma_rfc3339_literal(c2);
        lemma_two_digits_range(c1.hour as int);
        lemma_two_digits_range(c2.hour as int);
        assert(dch(c1.hour as int / 10) == dch(c2.hour as int / 10));
        assert(dch(c1.hour as int % 10) == dch(c2.hour as int % 10));
    };
    assert(c1.minute == c2.minute) by {
        lemma_rfc3339_literal(c1);
        lemma_rfc3339_literal(c2);
        lemma_two_digits_range(c1.minute as int);
        lemma_two_digits_range(c2.minute as int);
        assert(dch(c1.minute as int / 10) == dch(c2.minute as int / 10));
        assert(dch(c1.minute as int % 10) == dch(c2.minute as int % 10));
    };
    assert(c1.second == c2.second) by {
        lemma_rfc3339_literal(c1);
        lemma_rfc3339_literal(c2);
        lemma_two_digits_range(c1.second as int);
        lemma_two_digits_range(c2.second as int);
        assert(dch(c1.second as int / 10) == dch(c2.second as int / 10));
        assert(dch(c1.second as int % 10) == dch(c2.second as int % 10));
    };
    assert(c1 == c2);
}

fn is_dig(b: u8) -> (r: bool)
    ensures
        r == is_digit_b(b),
{
    48 <= b && b <= 57
}

} // verus!
