//! Currency codes and typed decimal amounts.
//!
//! The original brokers deliver amounts in one of a closed set of
//! currencies.  An amount is a two-decimal-place fixed-point value
//! tagged with its code; addition and subtraction demand matching
//! codes, while scaling by a four-decimal-place factor rounds the
//! result back to two places, halves to even.

use vstd::prelude::*;

use crate::date::Date;
use crate::fixed::{add_fixed, div_fixed_round, in_range, mul_fixed_round, round2_prod, round2_quot,
    sub_fixed};
use crate::nbp::Rate;

verus! {

/// The closed set of currency codes the brokers deliver.  `PLN` is the
/// domestic (tax-reporting) currency.
#[derive(Debug, Clone, Copy, PartialEq, Eq, Structural)]
pub enum Code {
    PLN,
    USD,
    GBP,
    EUR,
}

/// Why a currency operation was refused.
#[derive(Debug, Clone, Copy, PartialEq, Eq, Structural)]
pub enum Error {
    /// The two operands carry different currency codes.
    CodeMismatch,
    /// The exact result leaves the supported fixed-point range.
    OutOfRange,
}

/// A fixed-point decimal amount of one currency.  `value` counts
/// hundredths of the currency unit.
#[derive(Debug, Clone, Copy, PartialEq, Eq, Structural)]
pub struct Currency {
    pub value: i128,
    pub code: Code,
}

/// An amount of `code` whose value, in hundredths, is `value`.
pub fn new(code: &Code, value: i128) -> (r: Currency)
    ensures
        r == (Currency { value, code: *code }),
{
    Currency { value, code: *code }
}

impl Currency {
    /// The value stays within the supported fixed-point range.
    pub open spec fn wf(self) -> bool {
        in_range(self.value as int)
    }

    pub fn get_value(&self) -> (v: i128)
        ensures
            v == self.value,
    {
        self.value
    }

    pub fn get_code(&self) -> (c: Code)
        ensures
            c == self.code,
    {
        self.code
    }

    /// Sum of two amounts of the same code; mismatched codes are refused,
    /// as is a sum outside the supported range.
    pub fn add(&self, other: &Currency) -> (r: Result<Currency, Error>)
        requires
            self.wf(),
            other.wf(),
        ensures
            self.code != other.code ==> r == Err::<Currency, Error>(Error::CodeMismatch),
            self.code == other.code && in_range(self.value + other.value) ==> r == Ok::<
                Currency,
                Error,
            >(Currency { value: (self.value + other.value) as i128, code: self.code }),
            self.code == other.code && !in_range(self.value + other.value) ==> r == Err::<
                Currency,
                Error,
            >(Error::OutOfRange),
    {
        if !codes_equal(&self.code, &other.code) {
            return Err(Error::CodeMismatch);
        }
        match add_fixed(self.value, other.value) {
            Some(v) => Ok(Currency { value: v, code: self.code }),
            None => Err(Error::OutOfRange),
        }
    }

    /// Difference of two amounts of the same code; mismatched codes are
    /// refused, as is a difference outside the supported range.
    pub fn subtract(&self, other: &Currency) -> (r: Result<Currency, Error>)
        requires
            self.wf(),
            other.wf(),
        ensures
            self.code != other.code ==> r == Err::<Currency, Error>(Error::CodeMismatch),
            self.code == other.code && in_range(self.value - other.value) ==> r == Ok::<
                Currency,
                Error,
            >(Currency { value: (self.value - other.value) as i128, code: self.code }),
            self.code == other.code && !in_range(self.value - other.value) ==> r == Err::<
                Currency,
                Error,
            >(Error::OutOfRange),
    {
        if !codes_equal(&self.code, &other.code) {
            return Err(Error::CodeMismatch);
        }
        match sub_fixed(self.value, other.value) {
            Some(v) => Ok(Currency { value: v, code: self.code }),
            None => Err(Error::OutOfRange),
        }
    }

    /// The amount scaled by a four-decimal-place factor, rounded back to
    /// two places, halves to even.
    pub fn multiply(&self, scalar: i128) -> (r: Result<Currency, Error>)
        requires
            self.wf(),
            in_range(scalar as int),
        ensures
            in_range(round2_prod(self.value as int, scalar as int)) ==> r == Ok::<
                Currency,
                Error,
            >(Currency { value: round2_prod(self.value as int, scalar as int) as i128, code: self.code }),
            !in_range(round2_prod(self.value as int, scalar as int)) ==> r == Err::<
                Currency,
                Error,
            >(Error::OutOfRange),
    {
        match mul_fixed_round(self.value, scalar) {
            Some(v) => Ok(Currency { value: v, code: self.code }),
            None => Err(Error::OutOfRange),
        }
    }

    /// The amount divided by a nonzero four-decimal-place factor, rounded
    /// back to two places, halves to even.
    pub fn divide(&self, scalar: i128) -> (r: Result<Currency, Error>)
        requires
            self.wf(),
            in_range(scalar as int),
            scalar != 0,
        ensures
            in_range(round2_quot(self.value as int, scalar as int)) ==> r == Ok::<
                Currency,
                Error,
            >(Currency { value: round2_quot(self.value as int, scalar as int) as i128, code: self.code }),
            !in_range(round2_quot(self.value as int, scalar as int)) ==> r == Err::<
                Currency,
                Error,
            >(Error::OutOfRange),
    {
        match div_fixed_round(self.value, scalar) {
            Some(v) => Ok(Currency { value: v, code: self.code }),
            None => Err(Error::OutOfRange),
        }
    }
}

/// A code's place in the closed set.
pub open spec fn code_idx(c: Code) -> int {
    match c {
        Code::PLN => 0,
        Code::USD => 1,
        Code::GBP => 2,
        Code::EUR => 3,
    }
}

/// One integer per (code, date) pair, keying the rate cache.
pub open spec fn rate_key_spec(code: Code, d: Date) -> int {
    ((d.year * 16 + d.month) * 32 + d.day) * 4 + code_idx(code)
}

/// Distinct pairs get distinct keys.
pub proof fn lemma_rate_key_injective(c1: Code, d1: Date, c2: Code, d2: Date)
    requires
        d1.wf(),
        d2.wf(),
        rate_key_spec(c1, d1) == rate_key_spec(c2, d2),
    ensures
        c1 == c2 && d1 == d2,
{
}

pub fn rate_key(code: &Code, d: &Date) -> (k: u64)
    requires
        d.wf(),
    ensures
        k as int == rate_key_spec(*code, *d),
{
    let ci: u64 = match code {
        Code::PLN => 0,
        Code::USD => 1,
        Code::GBP => 2,
        Code::EUR => 3,
    };
    (((d.year as u64) * 16 + (d.month as u64)) * 32 + (d.day as u64)) * 4 + ci
}

/// The index of key `k` in the cache, or -1.
pub open spec fn rates_index(s: Seq<(u64, Rate)>, k: u64) -> int
    decreases s.len(),
{
    if s.len() == 0 {
        -1
    } else if s[0].0 == k {
        0
    } else {
        let r = rates_index(s.drop_first(), k);
        if r == -1 {
            -1
        } else {
            r + 1
        }
    }
}

pub proof fn lemma_rates_index_range(s: Seq<(u64, Rate)>, k: u64)
    ensures
        -1 <= rates_index(s, k) < s.len(),
        rates_index(s, k) >= 0 ==> s[rates_index(s, k)].0 == k,
        forall|j: int| 0 <= j < s.len() && s[j].0 == k ==> rates_index(s, k) >= 0,
    decreases s.len(),
{
    if s.len() > 0 && s[0].0 != k {
        lemma_rates_index_range(s.drop_first(), k);
        assert forall|j: int| 0 <= j < s.len() && s[j].0 == k implies rates_index(s, k) >= 0 by {
            assert(s.drop_first()[j - 1] == s[j]);
        }
    }
}

/// The rate cache persisted with the document: every quotation the
/// resolver has fetched, keyed by currency and request date, so that
/// replaying the same activities never asks the source again.  A
/// cache hit takes precedence over any walk back through earlier days.
#[derive(Debug)]
pub struct Rates {
    pub values: Vec<(u64, Rate)>,
}

impl Rates {
    pub open spec fn model(self) -> Seq<(u64, Rate)> {
        self.values@
    }

    /// Keys are unique.
    pub open spec fn wf(self) -> bool {
        forall|i: int, j: int|
            0 <= i < j < self.values@.len() ==> (#[trigger] self.values@[i].0) != (
            #[trigger] self.values@[j].0)
    }

    /// An empty cache.
    pub fn new() -> (r: Rates)
        ensures
            r.wf(),
            r.model() == Seq::<(u64, Rate)>::empty(),
    {
        Rates { values: Vec::new() }
    }

    /// The cached quotation for `(code, date)`, if any.
    pub fn get(&self, code: &Code, date: &Date) -> (r: Option<&Rate>)
        requires
            date.wf(),
        ensures
            ({
                let i = rates_index(self.model(), rate_key_spec(*code, *date) as u64);
                match r {
                    Some(rt) => i >= 0 && *rt == self.model()[i].1,
                    None => i == -1,
                }
            }),
    {
        let k = rate_key(code, date);
        let ghost m = self.model();
        let n = self.values.len();
        let mut i: usize = 0;
        proof {
            assert(m.skip(0) =~= m);
        }
        while i < n
            invariant
                i <= n,
                n == self.values@.len(),
                m == self.values@,
                k as int == rate_key_spec(*code, *date),
                rates_index(m, k) == (if rates_index(m.skip(i as int), k) == -1 {
                    -1int
                } else {
                    i + rates_index(m.skip(i as int), k)
                }),
            decreases n - i,
        {
            proof {
                assert(m.skip(i as int)[0] == m[i as int]);
            }
            if self.values[i].0 == k {
                return Some(&self.values[i].1);
            }
            proof {
                assert(m.skip(i as int).drop_first() =~= m.skip(i + 1));
                lemma_rates_index_range(m.skip(i + 1), k);
                assert(rates_index(m.skip(i as int), k) == (if rates_index(m.skip(i + 1), k) == -1 {
                    -1int
                } else {
                    rates_index(m.skip(i + 1), k) + 1
                }));
            }
            i = i + 1;
        }
        proof {
            assert(m.skip(i as int) =~= Seq::<(u64, Rate)>::empty());
        }
        None
    }

    /// Retain a freshly resolved quotation under `(code, date)`.
    pub fn put(&mut self, code: &Code, date: &Date, rate: Rate)
        requires
            old(self).wf(),
            date.wf(),
        ensures
            final (self).wf(),
            ({
                let k = rate_key_spec(*code, *date) as u64;
                let i = rates_index(old(self).model(), k);
                if i == -1 {
                    final (self).model() == old(self).model().push((k, rate))
                } else {
                    final (self).model() == old(self).model().update(i, (k, rate))
                }
            }),
    {
        let k = rate_key(code, date);
        let ghost m0 = self.model();
        proof {
            lemma_rates_index_range(m0, k);
        }
        let n = self.values.len();
        let mut i: usize = 0;
        proof {
            assert(m0.skip(0) =~= m0);
        }
        while i < n
            invariant
                i <= n,
                n == self.values@.len(),
                m0 == self.values@,
                m0 == old(self).model(),
                forall|a: int, b: int|
                    0 <= a < b < m0.len() ==> (#[trigger] m0[a].0) != (#[trigger] m0[b].0),
                k as int == rate_key_spec(*code, *date),
                rates_index(m0, k) == (if rates_index(m0.skip(i as int), k) == -1 {
                    -1int
                } else {
                    i + rates_index(m0.skip(i as int), k)
                }),
            decreases n - i,
        {
            proof {
                assert(m0.skip(i as int)[0] == m0[i as int]);
            }
            if self.values[i].0 == k {
                let ghost entries0 = self.values@;
                let _ = self.values.remove(i);
                self.values.insert(i, (k, rate));
                proof {
                    assert(self.values@ =~= entries0.update(i as int, (k, rate)));
                    assert forall|a: int, b: int|
                        0 <= a < b < self.values@.len() implies (#[trigger] self.values@[a].0) != (
                    #[trigger] self.values@[b].0) by {
                        assert(self.values@[a].0 == entries0[a].0);
                        assert(self.values@[b].0 == entries0[b].0);
                    }
                }
                return ;
            }
            proof {
                assert(m0.skip(i as int).drop_first() =~= m0.skip(i + 1));
                lemma_rates_index_range(m0.skip(i + 1), k);
                assert(rates_index(m0.skip(i as int), k) == (if rates_index(m0.skip(i + 1), k)
                    == -1 {
                    -1int
                } else {
                    rates_index(m0.skip(i + 1), k) + 1
                }));
            }
            i = i + 1;
        }
        proof {
            assert(m0.skip(i as int) =~= Seq::<(u64, Rate)>::empty());
        }
        let ghost entries0 = self.values@;
        self.values.push((k, rate));
        proof {
            assert(self.values@ =~= entries0.push((k, rate)));
            assert forall|a: int, b: int|
                0 <= a < b < self.values@.len() implies (#[trigger] self.values@[a].0) != (
            #[trigger] self.values@[b].0) by {
                if b == entries0.len() {
                    lemma_rates_index_range(entries0, k);
                    assert(self.values@[a].0 == entries0[a].0);
                } else {
                    assert(self.values@[a].0 == entries0[a].0);
                    assert(self.values@[b].0 == entries0[b].0);
                }
            }
        }
    }
}

/// Whether two codes are the same.
pub fn codes_equal(a: &Code, b: &Code) -> (r: bool)
    ensures
        r == (a == b),
{
    match (a, b) {
        (Code::PLN, Code::PLN) => true,
        (Code::USD, Code::USD) => true,
        (Code::GBP, Code::GBP) => true,
        (Code::EUR, Code::EUR) => true,
        _ => false,
    }
}

} // verus!
