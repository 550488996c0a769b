//! Historical exchange-rate resolution.
//!
//! A national bank publishes one quotation per currency per business
//! day.  To convert an amount dated `D`, the resolver asks the source
//! for the quotation of `D - 1`, then `D - 2`, and so on for at most
//! ten calendar days: the first day with a quotation wins, a day
//! without one is skipped, and a transport failure aborts at once.
//! The surrounding application performs the queries; the decision —
//! which day to ask for next and what the replies amount to — is made
//! here, by `resolve`, one reply batch at a time.

use vstd::prelude::*;

use crate::currency::{Code, Currency};
use crate::date::{generate_previous_days, prev_days, Date};
use crate::fixed::{in_range, round2_prod};

verus! {

/// One externally published quotation: a four-decimal-place factor to
/// the domestic currency, its effective date, and the publisher's
/// identifier.
#[derive(Debug, PartialEq, Eq)]
pub struct Rate {
    pub value: i128,
    pub date: Date,
    pub id: String,
}

impl Clone for Rate {
    fn clone(&self) -> (r: Rate)
        ensures
            r.value == self.value,
            r.date == self.date,
            r.id@ == self.id@,
    {
        Rate { value: self.value, date: self.date, id: self.id.clone() }
    }
}

impl Rate {
    pub open spec fn wf(self) -> bool {
        in_range(self.value as int) && self.date.wf()
    }

    /// Runtime check of `wf`.
    pub fn is_wf(&self) -> (r: bool)
        ensures
            r == self.wf(),
    {
        -crate::fixed::MAX_FIXED <= self.value && self.value <= crate::fixed::MAX_FIXED
            && self.date.is_valid()
    }
}

/// What the rate source said about one candidate day.
#[derive(Debug, Clone, PartialEq, Eq)]
pub enum RateReply {
    /// A quotation was published that day.
    Quotation(Rate),
    /// No quotation exists for that day (weekend or holiday).
    NoQuotation,
    /// The source could not be reached; fatal, never retried.
    Failure,
}

/// What the resolver decides after seeing the replies gathered so far.
#[derive(Debug, Clone, PartialEq, Eq)]
pub enum Resolution {
    /// Ask the source about this day next.
    Query(Date),
    /// The first published quotation within the window.
    Resolved(Rate),
    /// All candidate days are exhausted without a quotation.
    Unavailable,
    /// A transport failure ended the walk.
    Failed,
}

/// Why a conversion to the domestic currency failed.
#[derive(Debug, Clone, PartialEq, Eq)]
pub enum Error {
    /// No quotation within the ten-day window before `date`.
    RateUnavailable { code: Code, date: Date },
    /// The rate source could not be reached.
    Transport,
    /// The converted amount leaves the supported fixed-point range.
    OutOfRange,
}

/// The walk over candidate days `days`, given the source's `replies`
/// to the first of them, in order: the first quotation resolves, a
/// failure aborts, a missing quotation moves to the next day; with no
/// reply yet for a remaining day the walk asks for that day, and with
/// no day left it gives up.
pub open spec fn walk_model(days: Seq<Date>, replies: Seq<RateReply>) -> Resolution
    decreases days.len(),
{
    if days.len() == 0 {
        Resolution::Unavailable
    } else if replies.len() == 0 {
        Resolution::Query(days[0])
    } else {
        match replies[0] {
            RateReply::Quotation(rt) => Resolution::Resolved(rt),
            RateReply::Failure => Resolution::Failed,
            RateReply::NoQuotation => walk_model(days.drop_first(), replies.drop_first()),
        }
    }
}

/// The resolver's decision for an amount dated `date`, after the
/// replies gathered so far.  The candidate days are the ten calendar
/// days before `date`, most recent first; the caller queries the
/// source once per `Resolution::Query` and calls again with the reply
/// appended.
pub fn resolve(date: &Date, replies: Vec<RateReply>) -> (r: Resolution)
    requires
        date.wf(),
    ensures
        r == walk_model(prev_days(*date, 10), replies@),
{
    let days = generate_previous_days(date);
    let mut i: usize = 0;
    proof {
        assert(days@.skip(0) =~= days@);
        assert(replies@.skip(0) =~= replies@);
    }
    while i < days.len()
        invariant_except_break
            days@ == prev_days(*date, 10),
            i <= days@.len(),
            i <= replies@.len(),
            walk_model(days@, replies@) == walk_model(
                days@.skip(i as int),
                replies@.skip(i as int),
            ),
        ensures
            days@ == prev_days(*date, 10),
            i <= days@.len(),
            i <= replies@.len(),
            walk_model(days@, replies@) == walk_model(
                days@.skip(i as int),
                replies@.skip(i as int),
            ),
            i < days@.len() ==> i < replies@.len() && replies@[i as int] is Quotation,
        decreases days@.len() - i,
    {
        proof {
            assert(days@.skip(i as int)[0] == days@[i as int]);
        }
        if i >= replies.len() {
            proof {
                assert(replies@.skip(i as int) =~= Seq::<RateReply>::empty());
            }
            return Resolution::Query(days[i]);
        }
        proof {
            assert(replies@.skip(i as int)[0] == replies@[i as int]);
        }
        match &replies[i] {
            RateReply::NoQuotation => {
                proof {
                    assert(days@.skip(i as int).drop_first() =~= days@.skip(i + 1));
                    assert(replies@.skip(i as int).drop_first() =~= replies@.skip(i + 1));
                }
                i = i + 1;
            },
            RateReply::Failure => {
                return Resolution::Failed;
            },
            RateReply::Quotation(_) => {
                break ;
            },
        }
    }
    if i >= days.len() {
        proof {
            assert(days@.skip(i as int) =~= Seq::<Date>::empty());
        }
        return Resolution::Unavailable;
    }
    proof {
        assert(days@.skip(i as int)[0] == days@[i as int]);
        assert(replies@.skip(i as int)[0] == replies@[i as int]);
    }
    let mut found = replies;
    match found.remove(i) {
        RateReply::Quotation(rt) => Resolution::Resolved(rt),
        _ => Resolution::Failed,
    }
}

/// Fallback law: when the first `k` candidate days have no quotation
/// and day `k` (zero-based) has one, the walk resolves to exactly that
/// quotation.
pub proof fn lemma_walk_finds_first_quotation(days: Seq<Date>, replies: Seq<RateReply>, k: int)
    requires
        0 <= k < days.len(),
        k < replies.len(),
        forall|i: int| 0 <= i < k ==> replies[i] is NoQuotation,
        replies[k] is Quotation,
    ensures
        replies[k] matches RateReply::Quotation(rt) && walk_model(days, replies)
            == Resolution::Resolved(rt),
    decreases k,
{
    if k > 0 {
        lemma_walk_finds_first_quotation(days.drop_first(), replies.drop_first(), k - 1);
    }
}

/// Exhaustion law: when every candidate day is answered and none has a
/// quotation or a failure, the walk reports the rate unavailable.
pub proof fn lemma_walk_exhausted(days: Seq<Date>, replies: Seq<RateReply>)
    requires
        days.len() <= replies.len(),
        forall|i: int| 0 <= i < days.len() ==> replies[i] is NoQuotation,
    ensures
        walk_model(days, replies) == Resolution::Unavailable,
    decreases days.len(),
{
    if days.len() > 0 {
        lemma_walk_exhausted(days.drop_first(), replies.drop_first());
    }
}

/// The verdict of a completed walk for a foreign amount: a quotation
/// to convert with, or the error that ends the run — the rate
/// unavailable within the window, or the source unreachable.  A walk
/// still asking for a day is not completed and is not accepted.
pub fn finish_resolution(code: &Code, date: &Date, resolution: Resolution) -> (r: Result<
    Rate,
    Error,
>)
    requires
        !(resolution is Query),
    ensures
        match resolution {
            Resolution::Resolved(rt) => r == Ok::<Rate, Error>(rt),
            Resolution::Unavailable => r == Err::<Rate, Error>(
                Error::RateUnavailable { code: *code, date: *date },
            ),
            Resolution::Failed => r == Err::<Rate, Error>(Error::Transport),
            Resolution::Query(_) => true,
        },
{
    match resolution {
        Resolution::Resolved(rt) => Ok(rt),
        Resolution::Unavailable => Err(Error::RateUnavailable { code: *code, date: *date }),
        Resolution::Failed => Err(Error::Transport),
        Resolution::Query(_) => Err(Error::Transport),
    }
}

/// Conversion of `amount`, dated `transaction_date`, into the domestic
/// currency.  A domestic amount converts to itself and records no
/// rate; a foreign amount takes the resolved quotation and is scaled
/// by it, rounded to two decimal places, halves to even.  With no
/// quotation resolved, the rate is reported unavailable for the
/// amount's code and date.
pub fn convert(amount: &Currency, transaction_date: &Date, resolved: Option<Rate>) -> (r: Result<
    (Currency, Option<Rate>),
    Error,
>)
    requires
        amount.wf(),
        resolved matches Some(rt) ==> rt.wf(),
    ensures
        amount.code == Code::PLN ==> r == Ok::<(Currency, Option<Rate>), Error>(
            (*amount, None::<Rate>),
        ),
        amount.code != Code::PLN ==> match resolved {
            Some(rt) => {
                let v = round2_prod(amount.value as int, rt.value as int);
                if in_range(v) {
                    r == Ok::<(Currency, Option<Rate>), Error>(
                        (Currency { value: v as i128, code: Code::PLN }, Some(rt)),
                    )
                } else {
                    r == Err::<(Currency, Option<Rate>), Error>(Error::OutOfRange)
                }
            },
            None => r == Err::<(Currency, Option<Rate>), Error>(
                Error::RateUnavailable { code: amount.code, date: *transaction_date },
            ),
        },
{
    match amount.code {
        Code::PLN => Ok((*amount, None)),
        _ => {
            match resolved {
                Some(rt) => {
                    match crate::fixed::mul_fixed_round(amount.value, rt.value) {
                        Some(v) => Ok((Currency { value: v, code: Code::PLN }, Some(rt))),
                        None => Err(Error::OutOfRange),
                    }
                },
                None => Err(Error::RateUnavailable { code: amount.code, date: *transaction_date }),
            }
        },
    }
}

} // verus!
