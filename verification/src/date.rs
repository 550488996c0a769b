//! Calendar dates and timestamps.
//!
//! Activities carry a timestamp; the rate resolver walks backwards one
//! calendar day at a time.  Dates follow the Gregorian calendar over
//! the years 1 through 9999.

use vstd::prelude::*;

verus! {

/// A Gregorian calendar date.
#[derive(Debug, Clone, Copy, PartialEq, Eq, Structural)]
pub struct Date {
    pub year: i32,
    pub month: u8,
    pub day: u8,
}

/// A date with a second-of-day, ordering activities within a day.
#[derive(Debug, Clone, Copy, PartialEq, Eq, Structural)]
pub struct Timestamp {
    pub date: Date,
    pub seconds: u32,
}

pub open spec fn leap_year(y: int) -> bool {
    y % 4 == 0 && (y % 100 != 0 || y % 400 == 0)
}

pub open spec fn days_in_month(y: int, m: int) -> int
    recommends
        1 <= m <= 12,
{
    if m == 2 {
        if leap_year(y) {
            29
        } else {
            28
        }
    } else if m == 4 || m == 6 || m == 9 || m == 11 {
        30
    } else {
        31
    }
}

impl Date {
    pub open spec fn wf(self) -> bool {
        &&& 1 <= self.year <= 9999
        &&& 1 <= self.month <= 12
        &&& 1 <= self.day <= days_in_month(self.year as int, self.month as int)
    }

    /// The earliest representable date, the only one without a
    /// predecessor.
    pub open spec fn is_first(self) -> bool {
        self.year == 1 && self.month == 1 && self.day == 1
    }

    pub open spec fn lt(self, other: Date) -> bool {
        ||| self.year < other.year
        ||| (self.year == other.year && self.month < other.month)
        ||| (self.year == other.year && self.month == other.month && self.day < other.day)
    }

    pub open spec fn le(self, other: Date) -> bool {
        self.lt(other) || self == other
    }

    /// Runtime check of `wf`.
    pub fn is_valid(&self) -> (r: bool)
        ensures
            r == self.wf(),
    {
        1 <= self.year && self.year <= 9999 && 1 <= self.month && self.month <= 12 && 1 <= self.day
            && self.day <= days_in_month_exec(self.year, self.month)
    }

    /// The calendar day before this one, when one exists.
    pub fn prev_day(&self) -> (r: Option<Date>)
        requires
            self.wf(),
        ensures
            self.is_first() ==> r is None,
            !self.is_first() ==> r == Some(prev_of(*self)),
    {
        if self.day > 1 {
            Some(Date { year: self.year, month: self.month, day: self.day - 1 })
        } else if self.month > 1 {
            let m = self.month - 1;
            Some(Date { year: self.year, month: m, day: days_in_month_exec(self.year, m) })
        } else if self.year > 1 {
            Some(Date { year: self.year - 1, month: 12, day: 31 })
        } else {
            None
        }
    }
}

impl Timestamp {
    pub open spec fn wf(self) -> bool {
        self.date.wf() && self.seconds < 86400
    }

    pub open spec fn le(self, other: Timestamp) -> bool {
        self.date.lt(other.date) || (self.date == other.date && self.seconds <= other.seconds)
    }

    /// Runtime check of `wf`.
    pub fn is_valid(&self) -> (r: bool)
        ensures
            r == self.wf(),
    {
        self.date.is_valid() && self.seconds < 86400
    }
}

/// The calendar day before a date that has one.
pub open spec fn prev_of(d: Date) -> Date
    recommends
        d.wf(),
        !d.is_first(),
{
    if d.day > 1 {
        Date { year: d.year, month: d.month, day: (d.day - 1) as u8 }
    } else if d.month > 1 {
        Date {
            year: d.year,
            month: (d.month - 1) as u8,
            day: days_in_month(d.year as int, d.month - 1) as u8,
        }
    } else {
        Date { year: (d.year - 1) as i32, month: 12, day: 31 }
    }
}

/// A predecessor is well formed and strictly earlier.
pub broadcast proof fn lemma_prev_of(d: Date)
    requires
        d.wf(),
        !d.is_first(),
    ensures
        (#[trigger] prev_of(d)).wf(),
        prev_of(d).lt(d),
{
}

/// The chain of up to `k` calendar days before `d`, most recent first.
pub open spec fn prev_days(d: Date, k: nat) -> Seq<Date>
    recommends
        d.wf(),
    decreases k,
{
    if k == 0 || d.is_first() {
        Seq::empty()
    } else {
        seq![prev_of(d)] + prev_days(prev_of(d), (k - 1) as nat)
    }
}

/// Every day of the chain is well formed and strictly earlier than `d`:
/// the resolver never reaches for a same-day or future rate.
pub proof fn lemma_prev_days_before(d: Date, k: nat)
    requires
        d.wf(),
    ensures
        forall|i: int|
            0 <= i < prev_days(d, k).len() ==> (#[trigger] prev_days(d, k)[i]).wf() && prev_days(
                d,
                k,
            )[i].lt(d),
    decreases k,
{
    if k > 0 && !d.is_first() {
        lemma_prev_of(d);
        lemma_prev_days_before(prev_of(d), (k - 1) as nat);
        assert forall|i: int| 0 <= i < prev_days(d, k).len() implies (#[trigger] prev_days(
            d,
            k,
        )[i]).wf() && prev_days(d, k)[i].lt(d) by {
            if i == 0 {
                assert(prev_days(d, k)[0] == prev_of(d));
            } else {
                assert(prev_days(d, k)[i] == prev_days(prev_of(d), (k - 1) as nat)[i - 1]);
            }
        }
    }
}

pub fn days_in_month_exec(y: i32, m: u8) -> (r: u8)
    requires
        1 <= y,
        1 <= m <= 12,
    ensures
        r == days_in_month(y as int, m as int),
{
    if m == 2 {
        if leap_year_exec(y) {
            29
        } else {
            28
        }
    } else if m == 4 || m == 6 || m == 9 || m == 11 {
        30
    } else {
        31
    }
}

pub fn leap_year_exec(y: i32) -> (r: bool)
    requires
        1 <= y,
    ensures
        r == leap_year(y as int),
{
    y % 4 == 0 && (y % 100 != 0 || y % 400 == 0)
}

/// Whether `a` is at or before `b` in time.
pub fn ts_le(a: &Timestamp, b: &Timestamp) -> (r: bool)
    ensures
        r == a.le(*b),
{
    if a.date.year != b.date.year {
        a.date.year < b.date.year
    } else if a.date.month != b.date.month {
        a.date.month < b.date.month
    } else if a.date.day != b.date.day {
        a.date.day < b.date.day
    } else {
        a.seconds <= b.seconds
    }
}

/// Up to ten calendar days before `date`, most recent first.
pub fn generate_previous_days(date: &Date) -> (v: Vec<Date>)
    requires
        date.wf(),
    ensures
        v@ == prev_days(*date, 10),
{
    let mut v: Vec<Date> = Vec::new();
    let mut cur: Date = *date;
    let mut i: usize = 0;
    while i < 10
        invariant_except_break
            i <= 10,
            cur.wf(),
            prev_days(*date, 10) == v@ + prev_days(cur, (10 - i) as nat),
        ensures
            prev_days(*date, 10) == v@,
        decreases 10 - i,
    {
        match cur.prev_day() {
            Some(p) => {
                proof {
                    lemma_prev_of(cur);
                    assert(v@ + prev_days(cur, (10 - i) as nat) =~= (v@ + seq![p]) + prev_days(
                        p,
                        (10 - (i + 1)) as nat,
                    ));
                }
                v.push(p);
                cur = p;
                i = i + 1;
            },
            None => {
                proof {
                    assert(prev_days(cur, (10 - i) as nat) =~= Seq::<Date>::empty());
                    assert(prev_days(*date, 10) =~= v@);
                }
                break ;
            },
        }
    }
    v
}

} // verus!
