//! Durations written as `[-]H:MM:SS.mmm`.
use vstd::prelude::*;
use crate::text::{decimal, decimal_exec, zero_pad, zero_pad_exec, string_from};

verus! {

broadcast use vstd::string::group_string_axioms;

/// A signed duration as whole seconds and the nanoseconds beyond them, both with the sign of the
/// duration (as a time delta reports them).
pub struct TimeSpan {
    pub seconds: i64,
    pub subsec_nanos: i32,
}

impl TimeSpan {
    /// The nanoseconds are below one second and share the sign of the seconds; the duration is
    /// within the range of a time delta (`i64::MAX` milliseconds either way).
    pub open spec fn wf(self) -> bool {
        &&& -1_000_000_000 < self.subsec_nanos < 1_000_000_000
        &&& self.seconds > 0 ==> self.subsec_nanos >= 0
        &&& self.seconds < 0 ==> self.subsec_nanos <= 0
        &&& -9_223_372_036_854_775 <= self.seconds <= 9_223_372_036_854_775
    }
}

/// `|x|`.
pub open spec fn abs(x: int) -> nat {
    if x < 0 { (-x) as nat } else { x as nat }
}

/// The duration written as `[-]H:MM:SS.mmm`: hours unpadded, minutes and seconds with two digits,
/// milliseconds with three (sub-millisecond parts are dropped).
pub open spec fn time_delta_text(t: TimeSpan) -> Seq<char> {
    let negative = t.seconds < 0 || t.subsec_nanos < 0;
    let secs = abs(t.seconds as int);
    let hours = secs / 3600;
    let minutes = secs / 60 - hours * 60;
    let seconds = secs - (secs / 60) * 60;
    let millis = abs(t.subsec_nanos as int) / 1_000_000;
    (if negative { "-"@ } else { Seq::empty() }) + decimal(hours) + ":"@ + zero_pad(decimal(minutes as nat), 2) + ":"@
        + zero_pad(decimal(seconds as nat), 2) + "."@ + zero_pad(decimal(millis), 3)
}

/// Writes a duration as `[-]H:MM:SS.mmm` (see [`time_delta_text`]).
pub fn format_time_delta(time_delta: &TimeSpan) -> (r: String)
    requires
        time_delta.wf(),
    ensures
        r@ == time_delta_text(*time_delta),
{
    let negative = time_delta.seconds < 0 || time_delta.subsec_nanos < 0;
    let secs: u64 = if time_delta.seconds < 0 { (-time_delta.seconds) as u64 } else { time_delta.seconds as u64 };
    let nanos: u32 = if time_delta.subsec_nanos < 0 {
        (-time_delta.subsec_nanos) as u32
    } else {
        time_delta.subsec_nanos as u32
    };
    let hours = secs / 3600;
    let minutes = secs / 60 - hours * 60;
    let seconds = secs - (secs / 60) * 60;
    let millis = (nanos / 1_000_000) as u64;
    let mut s = if negative { String::from_str("-") } else { String::new() };
    s.append(string_from(&decimal_exec(hours)).as_str());
    s.append(":");
    s.append(string_from(&zero_pad_exec(&decimal_exec(minutes), 2)).as_str());
    s.append(":");
    s.append(string_from(&zero_pad_exec(&decimal_exec(seconds), 2)).as_str());
    s.append(".");
    s.append(string_from(&zero_pad_exec(&decimal_exec(millis), 3)).as_str());
    s
}

} // verus!
