//! Calendar dates from Unix time, and the IMF-fixdate form HTTP uses
//! (`Sun, 06 Nov 1994 08:49:37 GMT`).
use vstd::prelude::*;
use crate::decode::lossy_string;
use crate::num::{decimal, decimal_bytes, lemma_ascii_valid_utf8};
use crate::bytes::extend_bytes;
use vstd::utf8::{decode_utf8_encode_utf8, encode_utf8};

verus! {

/// A moment in UTC, to the second.
#[derive(Clone, Copy, PartialEq, Eq, Structural, Debug)]
pub struct UTCDateTime {
    pub year: u64,
    /// 1 to 12.
    pub month: u64,
    /// 1 to 31.
    pub day: u64,
    pub hour: u64,
    pub minute: u64,
    pub second: u64,
    /// 0 for Sunday to 6 for Saturday.
    pub weekday: u64,
}

/// Year, month and day of the proleptic Gregorian calendar for a count of
/// days since 1970-01-01 (days are shifted to start years in March, so that
/// the leap day comes last).
pub open spec fn civil_from_days(days: int) -> (int, int, int) {
    let z = days + 719468;
    let era = z / 146097;
    let doe = z - era * 146097;
    let yoe = (doe - doe / 1460 + doe / 36524 - doe / 146096) / 365;
    let doy = doe - (365 * yoe + yoe / 4 - yoe / 100);
    let mp = (5 * doy + 2) / 153;
    let d = doy - (153 * mp + 2) / 5 + 1;
    let m = if mp < 10 {
        mp + 3
    } else {
        mp - 9
    };
    let y = yoe + era * 400 + if m <= 2 {
        1int
    } else {
        0
    };
    (y, m, d)
}

/// The moment `secs` seconds after 1970-01-01T00:00:00Z, a Thursday.
pub open spec fn utc_of(secs: nat) -> UTCDateTime {
    let days = secs / 86400;
    let rem = secs % 86400;
    let c = civil_from_days(days as int);
    UTCDateTime {
        year: c.0 as u64,
        month: c.1 as u64,
        day: c.2 as u64,
        hour: (rem / 3600) as u64,
        minute: (rem % 3600 / 60) as u64,
        second: (rem % 60) as u64,
        weekday: ((days + 4) % 7) as u64,
    }
}

impl UTCDateTime {
    pub fn from_unix_seconds(secs: u64) -> (r: UTCDateTime)
        ensures
            r == utc_of(secs as nat),
            in_range(r),
    {
        let days = secs / 86400;
        let rem = secs % 86400;
        let z = days + 719468;
        let era = z / 146097;
        assert(era * 146097 <= z) by (nonlinear_arith)
            requires
                era == z / 146097,
        ;
        let doe = z - era * 146097;
        assert(doe < 146097) by (nonlinear_arith)
            requires
                era == z / 146097,
                doe == z - era * 146097,
        ;
        let yoe = (doe - doe / 1460 + doe / 36524 - doe / 146096) / 365;
        assert(yoe <= 400);
        let doy = doe - (365 * yoe + yoe / 4 - yoe / 100);
        assert(365 * yoe + yoe / 4 - yoe / 100 <= doe) by (nonlinear_arith)
            requires
                yoe == (doe - doe / 1460 + doe / 36524 - doe / 146096) / 365,
                doe < 146097,
        ;
        assert(doy < 366) by (nonlinear_arith)
            requires
                yoe == (doe - doe / 1460 + doe / 36524 - doe / 146096) / 365,
                doy == doe - (365 * yoe + yoe / 4 - yoe / 100),
                doe < 146097,
        ;
        let mp = (5 * doy + 2) / 153;
        assert(mp <= 11);
        assert(doy - (153 * mp + 2) / 5 <= 30 && (153 * mp + 2) / 5 <= doy) by (nonlinear_arith)
            requires
                mp == (5 * doy + 2) / 153,
                doy < 366,
        ;
        let d = doy - (153 * mp + 2) / 5 + 1;
        let m = if mp < 10 {
            mp + 3
        } else {
            mp - 9
        };
        let y = yoe + era * 400 + if m <= 2 {
            1
        } else {
            0
        };
        UTCDateTime {
            year: y,
            month: m,
            day: d,
            hour: rem / 3600,
            minute: rem % 3600 / 60,
            second: rem % 60,
            weekday: (days + 4) % 7,
        }
    }
}

/// The English abbreviation of a weekday, 0 being Sunday.
pub open spec fn day_name(d: u64) -> Seq<u8> {
    if d == 0 {
        seq![83u8, 117, 110]
    } else if d == 1 {
        seq![77u8, 111, 110]
    } else if d == 2 {
        seq![84u8, 117, 101]
    } else if d == 3 {
        seq![87u8, 101, 100]
    } else if d == 4 {
        seq![84u8, 104, 117]
    } else if d == 5 {
        seq![70u8, 114, 105]
    } else {
        seq![83u8, 97, 116]
    }
}

/// The English abbreviation of a month, 1 being January.
pub open spec fn month_name(m: u64) -> Seq<u8> {
    if m == 1 {
        seq![74u8, 97, 110]
    } else if m == 2 {
        seq![70u8, 101, 98]
    } else if m == 3 {
        seq![77u8, 97, 114]
    } else if m == 4 {
        seq![65u8, 112, 114]
    } else if m == 5 {
        seq![77u8, 97, 121]
    } else if m == 6 {
        seq![74u8, 117, 110]
    } else if m == 7 {
        seq![74u8, 117, 108]
    } else if m == 8 {
        seq![65u8, 117, 103]
    } else if m == 9 {
        seq![83u8, 101, 112]
    } else if m == 10 {
        seq![79u8, 99, 116]
    } else if m == 11 {
        seq![78u8, 111, 118]
    } else {
        seq![68u8, 101, 99]
    }
}

/// Two decimal digits.
pub open spec fn two_digits(n: u64) -> Seq<u8> {
    seq![(48 + n / 10) as u8, (48 + n % 10) as u8]
}

/// `Sun, 06 Nov 1994 08:49:37 GMT`.
pub open spec fn imf_fixdate_bytes(t: UTCDateTime) -> Seq<u8> {
    day_name(t.weekday) + seq![44u8, 32] + two_digits(t.day) + seq![32u8] + month_name(t.month) + seq![
        32u8,
    ] + decimal(t.year as nat) + seq![32u8] + two_digits(t.hour) + seq![58u8] + two_digits(t.minute)
        + seq![58u8] + two_digits(t.second) + seq![32u8, 71, 77, 84]
}

/// Fields in their ranges, as every moment from Unix time has them.
pub open spec fn in_range(t: UTCDateTime) -> bool {
    1 <= t.month <= 12 && 1 <= t.day <= 31 && t.hour < 24 && t.minute < 60 && t.second < 60
        && t.weekday < 7
}

/// The `i`-th three-letter name in `table`.
fn name_bytes(table: &[u8], i: u64) -> (r: Vec<u8>)
    requires
        i < 12,
        3 * i + 3 <= table@.len(),
    ensures
        r@ == table@.subrange(3 * i as int, 3 * i as int + 3),
{
    let k = (3 * i) as usize;
    crate::bytes::copy_range(table, k, k + 3)
}

fn push_two(out: &mut Vec<u8>, n: u64)
    requires
        n < 100,
    ensures
        final(out)@ == old(out)@ + two_digits(n),
{
    out.push((48 + n / 10) as u8);
    out.push((48 + n % 10) as u8);
    assert(final(out)@ =~= old(out)@ + two_digits(n));
}

impl UTCDateTime {
    /// The IMF-fixdate text of this moment.
    pub fn imf_fixdate(&self) -> (r: String)
        requires
            in_range(*self),
        ensures
            encode_utf8(r@) == imf_fixdate_bytes(*self),
    {
        let days: [u8; 21] = [83u8, 117, 110, 77, 111, 110, 84, 117, 101, 87, 101, 100, 84, 104, 117, 70, 114, 105, 83, 97, 116];
        let months: [u8; 36] = [74u8, 97, 110, 70, 101, 98, 77, 97, 114, 65, 112, 114, 77, 97, 121, 74, 117, 110, 74, 117, 108, 65, 117, 103, 83, 101, 112, 79, 99, 116, 78, 111, 118, 68, 101, 99];
        let mut out = name_bytes(&days, self.weekday);
        proof {
            assert(out@ =~= day_name(self.weekday));
        }
        out.push(44);
        out.push(32);
        push_two(&mut out, self.day);
        out.push(32);
        let month = name_bytes(&months, self.month - 1);
        proof {
            assert(month@ =~= month_name(self.month));
        }
        extend_bytes(&mut out, month.as_slice());
        out.push(32);
        let year = decimal_bytes(self.year);
        extend_bytes(&mut out, year.as_slice());
        out.push(32);
        push_two(&mut out, self.hour);
        out.push(58);
        push_two(&mut out, self.minute);
        out.push(58);
        push_two(&mut out, self.second);
        out.push(32);
        out.push(71);
        out.push(77);
        out.push(84);
        assert(out@ =~= imf_fixdate_bytes(*self)) by {
            assert(out@ =~= day_name(self.weekday) + seq![44u8, 32] + two_digits(self.day) + seq![32u8] + month_name(self.month) + seq![
        32u8,
    ] + decimal(self.year as nat) + seq![32u8] + two_digits(self.hour) + seq![58u8] + two_digits(self.minute)
        + seq![58u8] + two_digits(self.second) + seq![32u8, 71, 77, 84]);
        }
        proof {
            assert forall|i: int| 0 <= i < out@.len() implies #[trigger] out@[i] < 128 by {
                crate::num::lemma_decimal_ascii(self.year as nat);
            }
            lemma_ascii_valid_utf8(out@);
            decode_utf8_encode_utf8(out@);
        }
        lossy_string(out.as_slice())
    }
}

} // verus!
