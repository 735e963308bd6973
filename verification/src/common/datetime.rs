use vstd::prelude::*;

use crate::text::{dec2_chars, dec_chars_int, append_dec2, append_dec_i64};

verus! {

/// A fixed offset from UTC, in seconds. Rendered as `+HHMM` or `-HHMM`.
pub struct Timezone {
    tz_sec: i32,
}

/// The rendered offset: a sign, two hour digits, two minute digits.
pub open spec fn tz_chars(sec: int) -> Seq<char>
    recommends
        -86400 < sec < 86400,
{
    let a = if sec >= 0 { sec } else { -sec };
    (if sec >= 0 { seq!['+'] } else { seq!['-'] })
        + dec2_chars((a / 3600) as nat)
        + dec2_chars(((a % 3600) / 60) as nat)
}

impl Timezone {
    /// The offset in seconds east of UTC (negative values lie west).
    pub closed spec fn spec_sec(&self) -> int {
        self.tz_sec as int
    }

    /// An offset a clock can show: strictly within one day of UTC.
    pub open spec fn in_range(&self) -> bool {
        -86400 < self.spec_sec() < 86400
    }

    pub fn from_sec(sec: i32) -> (t: Timezone)
        ensures
            t.spec_sec() == sec as int,
    {
        Timezone { tz_sec: sec }
    }

    /// Renders the offset as `+HHMM`/`-HHMM`.
    pub fn render(&self) -> (r: String)
        requires
            self.in_range(),
        ensures
            r@ == tz_chars(self.spec_sec()),
    {
        let mut out = String::new();
        let a: i32;
        if self.tz_sec >= 0 {
            let plus = "+";
            proof {
                reveal_strlit("+");
                assert(plus@ =~= seq!['+']);
            }
            out.append(plus);
            a = self.tz_sec;
        } else {
            let minus = "-";
            proof {
                reveal_strlit("-");
                assert(minus@ =~= seq!['-']);
            }
            out.append(minus);
            a = -self.tz_sec;
        }
        let hh = a / 3600;
        let mm = (a % 3600) / 60;
        append_dec2(&mut out, hh as u32);
        append_dec2(&mut out, mm as u32);
        assert(out@ =~= tz_chars(self.spec_sec()));
        out
    }
}

/// An instant: seconds since the epoch, with the local offset it was taken
/// in. Rendered as `<epoch> <offset>`.
pub struct Timestamp {
    epoch: i64,
    timezone: Timezone,
}

/// The rendered instant.
pub open spec fn ts_chars(epoch: int, tz_sec: int) -> Seq<char>
    recommends
        -86400 < tz_sec < 86400,
{
    dec_chars_int(epoch) + seq![' '] + tz_chars(tz_sec)
}

impl Timestamp {
    pub closed spec fn spec_epoch(&self) -> int {
        self.epoch as int
    }

    pub closed spec fn spec_tz_sec(&self) -> int {
        self.timezone.spec_sec()
    }

    pub open spec fn in_range(&self) -> bool {
        -86400 < self.spec_tz_sec() < 86400
    }

    pub fn new(epoch: i64, timezone: Timezone) -> (t: Timestamp)
        ensures
            t.spec_epoch() == epoch as int,
            t.spec_tz_sec() == timezone.spec_sec(),
    {
        Timestamp { epoch, timezone }
    }

    /// Renders the instant as `<epoch seconds> <offset>`.
    pub fn render(&self) -> (r: String)
        requires
            self.in_range(),
        ensures
            r@ == ts_chars(self.spec_epoch(), self.spec_tz_sec()),
    {
        let mut out = String::new();
        append_dec_i64(&mut out, self.epoch);
        let sp = " ";
        proof {
            reveal_strlit(" ");
            assert(sp@ =~= seq![' ']);
        }
        out.append(sp);
        let tz = self.timezone.render();
        out.append(tz.as_str());
        assert(out@ =~= ts_chars(self.spec_epoch(), self.spec_tz_sec()));
        out
    }
}

} // verus!
