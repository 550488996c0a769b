//! The activity log: money values, operations, and activities.
//!
//! Adapters hand the core a list of activities, each dated and tagged
//! with a symbol.  Every monetary field is a [`Money`]: the original
//! amount, its domestic equivalent, and the rate record used — absent
//! exactly when the original is already domestic.
//!
//! The module also holds the textual form of an amount, `"<value>
//! <CODE>"`, in which money is persisted, with its parser.

use vstd::prelude::*;
use vstd::string::StrSliceExecFns;
use vstd::string::StringExecFns;

use crate::currency::{codes_equal, Code, Currency};
use crate::date::{Date, Timestamp};
use crate::fixed::{in_range, mul_fixed_round, round2_prod, MAX_FIXED};
use crate::nbp::Rate;

verus! {

/// An original-currency amount bound to its domestic equivalent and
/// the rate record that produced it.
#[derive(Debug, Clone, PartialEq, Eq)]
pub struct Money {
    pub original: Currency,
    pub pln: Currency,
    pub rate: Option<Rate>,
}

/// One dated brokerage operation.
#[derive(Debug, Clone, PartialEq, Eq)]
pub enum Operation {
    Buy { quantity: i128, price: Money, commission: Money },
    Sell { quantity: i128, price: Money, commission: Money },
    Dividend { value: Money, withholding_tax: Money },
}

/// A dated operation on one symbol.
#[derive(Debug, Clone, PartialEq, Eq)]
pub struct Activity {
    pub symbol: String,
    pub timestamp: Timestamp,
    pub operation: Operation,
}

/// The persisted whole: the activity log together with the rate cache,
/// read and written as one document.
#[derive(Debug)]
pub struct Document {
    pub activities: Vec<Activity>,
    pub rates: crate::currency::Rates,
}

impl Money {
    /// A converted money value: the domestic amount is in the domestic
    /// currency; a domestic original equals its domestic amount and
    /// carries no rate, a foreign original carries the rate that,
    /// rounded to two decimal places, produced the domestic amount.
    pub open spec fn wf(self) -> bool {
        &&& self.original.wf()
        &&& self.pln.wf()
        &&& self.pln.code == Code::PLN
        &&& (self.original.code == Code::PLN ==> self.rate is None && self.pln == self.original)
        &&& (self.original.code != Code::PLN ==> match self.rate {
            Some(rt) => rt.wf() && self.pln.value == round2_prod(
                self.original.value as int,
                rt.value as int,
            ),
            None => false,
        })
    }

    /// Bind an amount to its domestic equivalent: a domestic amount to
    /// itself with no rate, a foreign one through the resolved
    /// quotation for its transaction date.  The result is always a
    /// well-formed money value; with no quotation resolved for a
    /// foreign amount, creation fails as the resolution did.
    pub fn create(original: Currency, transaction_date: &Date, resolved: Option<Rate>) -> (r:
        Result<Money, crate::nbp::Error>)
        requires
            original.wf(),
            resolved matches Some(rt) ==> rt.wf(),
        ensures
            original.code == Code::PLN ==> r == Ok::<Money, crate::nbp::Error>(
                Money { original, pln: original, rate: None },
            ),
            original.code != Code::PLN ==> match resolved {
                Some(rt) => {
                    let v = round2_prod(original.value as int, rt.value as int);
                    if in_range(v) {
                        r == Ok::<Money, crate::nbp::Error>(
                            Money {
                                original,
                                pln: Currency { value: v as i128, code: Code::PLN },
                                rate: Some(rt),
                            },
                        )
                    } else {
                        r == Err::<Money, crate::nbp::Error>(crate::nbp::Error::OutOfRange)
                    }
                },
                None => r == Err::<Money, crate::nbp::Error>(
                    crate::nbp::Error::RateUnavailable {
                        code: original.code,
                        date: *transaction_date,
                    },
                ),
            },
            r matches Ok(m) ==> m.wf() && m.original == original,
    {
        match crate::nbp::convert(&original, transaction_date, resolved) {
            Ok((pln, rate)) => Ok(Money { original, pln, rate }),
            Err(e) => Err(e),
        }
    }

    /// Runtime check of `wf`.
    pub fn is_converted(&self) -> (r: bool)
        ensures
            r == self.wf(),
    {
        if !(-MAX_FIXED <= self.original.value && self.original.value <= MAX_FIXED) {
            return false;
        }
        if !(-MAX_FIXED <= self.pln.value && self.pln.value <= MAX_FIXED) {
            return false;
        }
        if !codes_equal(&self.pln.code, &Code::PLN) {
            return false;
        }
        if codes_equal(&self.original.code, &Code::PLN) {
            match &self.rate {
                Option::None => self.pln.value == self.original.value,
                Option::Some(_) => false,
            }
        } else {
            match &self.rate {
                Option::Some(rt) => {
                    if !rt.is_wf() {
                        return false;
                    }
                    match mul_fixed_round(self.original.value, rt.value) {
                        Option::Some(v) => v == self.pln.value,
                        Option::None => false,
                    }
                },
                Option::None => false,
            }
        }
    }
}

/// Domestic-money law: a well-formed money value whose original is
/// already domestic records no rate and a domestic amount equal to the
/// original.
pub proof fn lemma_domestic_money(m: Money)
    requires
        m.wf(),
        m.original.code == Code::PLN,
    ensures
        m.rate is None,
        m.pln == m.original,
{
}

/// The character of one decimal digit.
pub open spec fn digit_char(d: int) -> char
    recommends
        0 <= d <= 9,
{
    if d == 0 {
        '0'
    } else if d == 1 {
        '1'
    } else if d == 2 {
        '2'
    } else if d == 3 {
        '3'
    } else if d == 4 {
        '4'
    } else if d == 5 {
        '5'
    } else if d == 6 {
        '6'
    } else if d == 7 {
        '7'
    } else if d == 8 {
        '8'
    } else {
        '9'
    }
}

pub open spec fn is_digit(c: char) -> bool {
    '0' <= c <= '9'
}

pub open spec fn digit_val(c: char) -> int {
    c as int - '0' as int
}

pub open spec fn all_digits(s: Seq<char>) -> bool {
    forall|i: int| 0 <= i < s.len() ==> is_digit(#[trigger] s[i])
}

/// The numeric value of a digit string.
pub open spec fn digits_num(s: Seq<char>) -> int
    decreases s.len(),
{
    if s.len() == 0 {
        0
    } else {
        digits_num(s.drop_last()) * 10 + digit_val(s.last())
    }
}

/// The canonical decimal digits of `n`, without leading zeros.
pub open spec fn digits_of(n: nat) -> Seq<char>
    decreases n,
{
    if n < 10 {
        seq![digit_char(n as int)]
    } else {
        digits_of(n / 10).push(digit_char((n % 10) as int))
    }
}

/// The canonical text of a nonnegative amount of `m` hundredths:
/// the integer part, a point, and exactly two fractional digits.
pub open spec fn amount_digits(m: int) -> Seq<char>
    recommends
        0 <= m,
{
    digits_of((m / 100) as nat) + seq!['.', digit_char((m % 100) / 10), digit_char(m % 10)]
}

/// The canonical text of a signed amount of `v` hundredths.
pub open spec fn value_text(v: int) -> Seq<char> {
    if v < 0 {
        seq!['-'] + amount_digits(-v)
    } else {
        amount_digits(v)
    }
}

pub open spec fn code_text(c: Code) -> Seq<char> {
    match c {
        Code::PLN => seq!['P', 'L', 'N'],
        Code::USD => seq!['U', 'S', 'D'],
        Code::GBP => seq!['G', 'B', 'P'],
        Code::EUR => seq!['E', 'U', 'R'],
    }
}

/// The persisted text of an amount: its value, a space, its code.
pub open spec fn amount_text(a: Currency) -> Seq<char> {
    value_text(a.value as int) + seq![' '] + code_text(a.code)
}

/// The first index holding `c`, or -1.
pub open spec fn first_pos(s: Seq<char>, c: char) -> int
    decreases s.len(),
{
    if s.len() == 0 {
        -1
    } else if s[0] == c {
        0
    } else {
        let r = first_pos(s.drop_first(), c);
        if r == -1 {
            -1
        } else {
            r + 1
        }
    }
}

/// The code named by `t`, if any.
pub open spec fn code_of_text(t: Seq<char>) -> Option<Code> {
    if t == code_text(Code::PLN) {
        Some(Code::PLN)
    } else if t == code_text(Code::USD) {
        Some(Code::USD)
    } else if t == code_text(Code::GBP) {
        Some(Code::GBP)
    } else if t == code_text(Code::EUR) {
        Some(Code::EUR)
    } else {
        None
    }
}

/// The value named by an unsigned decimal numeral: digits, optionally
/// followed by a point and one or two fractional digits, read as a
/// count of hundredths.
pub open spec fn parse_unsigned_spec(t: Seq<char>) -> Option<int> {
    let dot = first_pos(t, '.');
    if dot == -1 {
        if t.len() > 0 && all_digits(t) {
            Some(digits_num(t) * 100)
        } else {
            None
        }
    } else {
        let ip = t.subrange(0, dot);
        let fp = t.subrange(dot + 1, t.len() as int);
        if ip.len() > 0 && all_digits(ip) && 1 <= fp.len() <= 2 && all_digits(fp) {
            Some(
                digits_num(ip) * 100 + digits_num(fp) * (if fp.len() == 1 {
                    10int
                } else {
                    1int
                }),
            )
        } else {
            None
        }
    }
}

/// The value named by a decimal numeral with an optional leading minus.
pub open spec fn parse_value_spec(t: Seq<char>) -> Option<int> {
    if t.len() > 0 && t[0] == '-' {
        match parse_unsigned_spec(t.drop_first()) {
            Some(v) => Some(-v),
            None => None,
        }
    } else {
        parse_unsigned_spec(t)
    }
}

/// The amount named by `s`: a numeral, one space, a currency code,
/// with the value within the supported range.
pub open spec fn parse_amount_spec(s: Seq<char>) -> Option<Currency> {
    let sp = first_pos(s, ' ');
    if sp == -1 {
        None
    } else {
        let vp = parse_value_spec(s.subrange(0, sp));
        let cp = code_of_text(s.subrange(sp + 1, s.len() as int));
        match (vp, cp) {
            (Some(v), Some(code)) => if in_range(v) {
                Some(Currency { value: v as i128, code })
            } else {
                None
            },
            _ => None,
        }
    }
}

impl Operation {
    pub open spec fn wf(self) -> bool {
        match self {
            Operation::Buy { quantity, price, commission } => 0 <= quantity <= MAX_FIXED
                && price.wf() && commission.wf(),
            Operation::Sell { quantity, price, commission } => 0 <= quantity <= MAX_FIXED
                && price.wf() && commission.wf(),
            Operation::Dividend { value, withholding_tax } => value.wf() && withholding_tax.wf(),
        }
    }

    /// Runtime check of `wf`.
    pub fn is_wf(&self) -> (r: bool)
        ensures
            r == self.wf(),
    {
        match self {
            Operation::Buy { quantity, price, commission } => 0 <= *quantity && *quantity
                <= MAX_FIXED && price.is_converted() && commission.is_converted(),
            Operation::Sell { quantity, price, commission } => 0 <= *quantity && *quantity
                <= MAX_FIXED && price.is_converted() && commission.is_converted(),
            Operation::Dividend { value, withholding_tax } => value.is_converted()
                && withholding_tax.is_converted(),
        }
    }
}

impl Activity {
    pub open spec fn wf(self) -> bool {
        self.timestamp.wf() && self.operation.wf()
    }

    /// Runtime check of `wf`.
    pub fn is_wf(&self) -> (r: bool)
        ensures
            r == self.wf(),
    {
        self.timestamp.is_valid() && self.operation.is_wf()
    }
}

proof fn lemma_all_digits_sub(s: Seq<char>, t: Seq<char>)
    requires
        all_digits(s),
        exists|k: int, m: int| 0 <= k <= m <= s.len() && t == s.subrange(k, m),
    ensures
        all_digits(t),
{
    let (k, m): (int, int) = choose|k: int, m: int|
        0 <= k <= m <= s.len() && t == s.subrange(k, m);
    assert forall|i: int| 0 <= i < t.len() implies is_digit(#[trigger] t[i]) by {
        assert(t[i] == s[k + i]);
    }
}

proof fn lemma_digits_num_nonneg(s: Seq<char>)
    requires
        all_digits(s),
    ensures
        digits_num(s) >= 0,
    decreases s.len(),
{
    if s.len() > 0 {
        assert forall|i: int| 0 <= i < s.drop_last().len() implies is_digit(
            #[trigger] s.drop_last()[i],
        ) by {
            assert(s.drop_last()[i] == s[i]);
        }
        lemma_digits_num_nonneg(s.drop_last());
    }
}

/// Appending digits never shrinks the value: the prefix read so far is
/// a lower bound.
proof fn lemma_digits_num_extend(s: Seq<char>, i: int)
    requires
        all_digits(s),
        0 <= i <= s.len(),
    ensures
        digits_num(s) >= digits_num(s.take(i)),
    decreases s.len() - i,
{
    if i == s.len() {
        assert(s.take(i) =~= s);
    } else {
        assert(s.take(i + 1).drop_last() =~= s.take(i));
        assert(s.take(i + 1).last() == s[i]);
        assert forall|j: int| 0 <= j < s.take(i).len() implies is_digit(#[trigger] s.take(i)[j]) by {
            assert(s.take(i)[j] == s[j]);
        }
        lemma_digits_num_nonneg(s.take(i));
        lemma_digits_num_extend(s, i + 1);
    }
}

proof fn lemma_digits_num_small(s: Seq<char>)
    requires
        all_digits(s),
        s.len() <= 2,
    ensures
        0 <= digits_num(s) <= 99,
{
    if s.len() == 1 {
        assert(is_digit(s[0]));
        assert(digits_num(s.drop_last()) == 0);
        assert(digits_num(s) == digit_val(s[0]));
    } else if s.len() == 2 {
        let p = s.drop_last();
        assert(p.len() == 1);
        assert(p[0] == s[0]);
        assert(is_digit(s[0]));
        assert(is_digit(s[1]));
        assert(digits_num(p.drop_last()) == 0);
        assert(digits_num(p) == digit_val(s[0]));
        assert(s.last() == s[1]);
        assert(digits_num(s) == digit_val(s[0]) * 10 + digit_val(s[1]));
    }
}

/// Where `first_pos` lands: at -1, or at an index holding `c` with
/// none before it.
pub proof fn lemma_first_pos_range(s: Seq<char>, c: char)
    ensures
        -1 <= first_pos(s, c) < s.len(),
        first_pos(s, c) >= 0 ==> s[first_pos(s, c)] == c,
        forall|j: int| 0 <= j < s.len() && s[j] == c ==> first_pos(s, c) >= 0,
    decreases s.len(),
{
    if s.len() > 0 && s[0] != c {
        lemma_first_pos_range(s.drop_first(), c);
        assert forall|j: int| 0 <= j < s.len() && s[j] == c implies first_pos(s, c) >= 0 by {
            assert(s.drop_first()[j - 1] == s[j]);
        }
    }
}

/// The first index holding `c`, found by a left-to-right scan.
pub fn find_pos(s: &str, c: char) -> (r: Option<usize>)
    ensures
        match r {
            Some(i) => first_pos(s@, c) == i as int && i < s@.len(),
            None => first_pos(s@, c) == -1,
        },
{
    let n = s.unicode_len();
    let mut i: usize = 0;
    proof {
        assert(s@.skip(0) =~= s@);
    }
    while i < n
        invariant
            i <= n,
            n == s@.len(),
            first_pos(s@, c) == (if first_pos(s@.skip(i as int), c) == -1 {
                -1
            } else {
                i + first_pos(s@.skip(i as int), c)
            }),
        decreases n - i,
    {
        proof {
            assert(s@.skip(i as int)[0] == s@[i as int]);
        }
        if s.get_char(i) == c {
            return Some(i);
        }
        proof {
            assert(s@.skip(i as int).drop_first() =~= s@.skip(i + 1));
            lemma_first_pos_range(s@.skip(i + 1), c);
            assert(first_pos(s@.skip(i as int), c) == (if first_pos(s@.skip(i + 1), c) == -1 {
                -1int
            } else {
                first_pos(s@.skip(i + 1), c) + 1
            }));
        }
        i = i + 1;
    }
    proof {
        assert(s@.skip(i as int) =~= Seq::<char>::empty());
    }
    None
}

/// The value of a digit string, capped at `MAX_FIXED`: a string that
/// is not all digits, or whose value is too large, yields nothing.
pub fn parse_digits(t: &str) -> (r: Option<i128>)
    ensures
        all_digits(t@) && 0 <= digits_num(t@) <= MAX_FIXED ==> r == Some(digits_num(t@) as i128),
        all_digits(t@) && digits_num(t@) > MAX_FIXED ==> r is None,
        !all_digits(t@) ==> r is None,
{
    let n = t.unicode_len();
    let mut acc: i128 = 0;
    let mut i: usize = 0;
    proof {
        assert(t@.take(0) =~= Seq::<char>::empty());
    }
    while i < n
        invariant
            i <= n,
            n == t@.len(),
            all_digits(t@.take(i as int)),
            acc == digits_num(t@.take(i as int)),
            0 <= acc <= MAX_FIXED,
        decreases n - i,
    {
        let c = t.get_char(i);
        proof {
            assert(t@.take(i + 1).drop_last() =~= t@.take(i as int));
            assert(t@.take(i + 1).last() == t@[i as int]);
        }
        if !(c >= '0' && c <= '9') {
            proof {
                assert(!is_digit(t@[i as int]));
            }
            return None;
        }
        proof {
            assert forall|j: int| 0 <= j < t@.take(i + 1).len() implies is_digit(
                #[trigger] t@.take(i + 1)[j],
            ) by {
                if j < i {
                    assert(t@.take(i + 1)[j] == t@.take(i as int)[j]);
                } else {
                    assert(t@.take(i + 1)[j] == t@[i as int]);
                }
            }
        }
        let d = (c as u32 - '0' as u32) as i128;
        let new_acc = acc * 10 + d;
        if new_acc > MAX_FIXED {
            proof {
                if all_digits(t@) {
                    lemma_digits_num_extend(t@, i + 1);
                }
            }
            return None;
        }
        acc = new_acc;
        i = i + 1;
    }
    proof {
        assert(t@.take(n as int) =~= t@);
    }
    Some(acc)
}

proof fn lemma_parse_unsigned_nonneg(t: Seq<char>)
    ensures
        parse_unsigned_spec(t) matches Some(v) ==> v >= 0,
{
    let dot = first_pos(t, '.');
    if dot == -1 {
        if t.len() > 0 && all_digits(t) {
            lemma_digits_num_nonneg(t);
        }
    } else {
        let ip = t.subrange(0, dot);
        let fp = t.subrange(dot + 1, t.len() as int);
        if ip.len() > 0 && all_digits(ip) && 1 <= fp.len() <= 2 && all_digits(fp) {
            lemma_digits_num_nonneg(ip);
            lemma_digits_num_nonneg(fp);
        }
    }
}

/// An unsigned numeral's value in hundredths, refused when it exceeds
/// `MAX_FIXED`.
pub fn parse_unsigned(t: &str) -> (r: Option<i128>)
    ensures
        match parse_unsigned_spec(t@) {
            Some(v) => r == (if 0 <= v <= MAX_FIXED {
                Some(v as i128)
            } else {
                None::<i128>
            }),
            None => r is None,
        },
{
    proof {
        lemma_parse_unsigned_nonneg(t@);
    }
    let n = t.unicode_len();
    match find_pos(t, '.') {
        Option::None => {
            if n == 0 {
                return None;
            }
            match parse_digits(t) {
                Option::Some(ip) => {
                    proof {
                        if all_digits(t@) {
                            lemma_digits_num_nonneg(t@);
                        }
                    }
                    let v = ip * 100;
                    if v <= MAX_FIXED {
                        Some(v)
                    } else {
                        None
                    }
                },
                Option::None => None,
            }
        },
        Option::Some(dot) => {
            if dot == 0 {
                return None;
            }
            let flen = n - dot - 1;
            if !(1 <= flen && flen <= 2) {
                return None;
            }
            let ip_str = t.substring_char(0, dot);
            let fp_str = t.substring_char(dot + 1, n);
            proof {
                assert(ip_str@ == t@.subrange(0, dot as int));
                assert(fp_str@ == t@.subrange(dot + 1, n as int));
                if all_digits(ip_str@) {
                    lemma_digits_num_nonneg(ip_str@);
                }
                if all_digits(fp_str@) {
                    lemma_digits_num_nonneg(fp_str@);
                    lemma_digits_num_small(fp_str@);
                }
            }
            match (parse_digits(ip_str), parse_digits(fp_str)) {
                (Option::Some(ip), Option::Some(fp)) => {
                    let mult: i128 = if flen == 1 {
                        10
                    } else {
                        1
                    };
                    let v = ip * 100 + fp * mult;
                    if v <= MAX_FIXED {
                        Some(v)
                    } else {
                        None
                    }
                },
                _ => None,
            }
        },
    }
}

/// A signed numeral's value in hundredths, refused when it leaves the
/// supported range.
pub fn parse_value(t: &str) -> (r: Option<i128>)
    ensures
        match parse_value_spec(t@) {
            Some(v) => r == (if in_range(v) {
                Some(v as i128)
            } else {
                None::<i128>
            }),
            None => r is None,
        },
{
    let n = t.unicode_len();
    if n > 0 && t.get_char(0) == '-' {
        let u = t.substring_char(1, n);
        proof {
            assert(u@ =~= t@.drop_first());
            lemma_parse_unsigned_nonneg(u@);
        }
        match parse_unsigned(u) {
            Option::Some(v) => Some(-v),
            Option::None => None,
        }
    } else {
        proof {
            lemma_parse_unsigned_nonneg(t@);
        }
        parse_unsigned(t)
    }
}

/// The currency code named by `t`, if any.
pub fn parse_code(t: &str) -> (r: Option<Code>)
    ensures
        r == code_of_text(t@),
{
    let n = t.unicode_len();
    if n != 3 {
        return None;
    }
    let c0 = t.get_char(0);
    let c1 = t.get_char(1);
    let c2 = t.get_char(2);
    if c0 == 'P' && c1 == 'L' && c2 == 'N' {
        proof {
            assert(t@ =~= code_text(Code::PLN));
        }
        Some(Code::PLN)
    } else if c0 == 'U' && c1 == 'S' && c2 == 'D' {
        proof {
            assert(t@ =~= code_text(Code::USD));
        }
        Some(Code::USD)
    } else if c0 == 'G' && c1 == 'B' && c2 == 'P' {
        proof {
            assert(t@ =~= code_text(Code::GBP));
        }
        Some(Code::GBP)
    } else if c0 == 'E' && c1 == 'U' && c2 == 'R' {
        proof {
            assert(t@ =~= code_text(Code::EUR));
        }
        Some(Code::EUR)
    } else {
        None
    }
}

/// The amount persisted as `"<value> <CODE>"`, if `s` has that shape
/// and the value fits; the parsing side of `from_currency`.
pub fn parse_amount(s: &str) -> (r: Option<Currency>)
    ensures
        r == parse_amount_spec(s@),
{
    let n = s.unicode_len();
    let sp = match find_pos(s, ' ') {
        Option::Some(i) => i,
        Option::None => {
            return None;
        },
    };
    let value_part = s.substring_char(0, sp);
    let code_part = s.substring_char(sp + 1, n);
    proof {
        assert(value_part@ == s@.subrange(0, sp as int));
        assert(code_part@ == s@.subrange(sp + 1, n as int));
    }
    let v = match parse_value(value_part) {
        Option::Some(v) => v,
        Option::None => {
            return None;
        },
    };
    let code = match parse_code(code_part) {
        Option::Some(c) => c,
        Option::None => {
            return None;
        },
    };
    Some(Currency { value: v, code })
}

fn digit_str(d: i128) -> (r: &'static str)
    requires
        0 <= d <= 9,
    ensures
        r@ == seq![digit_char(d as int)],
{
    if d == 0 {
        proof {
            reveal_strlit("0");
            assert("0"@ =~= seq![digit_char(0)]);
        }
        "0"
    } else if d == 1 {
        proof {
            reveal_strlit("1");
            assert("1"@ =~= seq![digit_char(1)]);
        }
        "1"
    } else if d == 2 {
        proof {
            reveal_strlit("2");
            assert("2"@ =~= seq![digit_char(2)]);
        }
        "2"
    } else if d == 3 {
        proof {
            reveal_strlit("3");
            assert("3"@ =~= seq![digit_char(3)]);
        }
        "3"
    } else if d == 4 {
        proof {
            reveal_strlit("4");
            assert("4"@ =~= seq![digit_char(4)]);
        }
        "4"
    } else if d == 5 {
        proof {
            reveal_strlit("5");
            assert("5"@ =~= seq![digit_char(5)]);
        }
        "5"
    } else if d == 6 {
        proof {
            reveal_strlit("6");
            assert("6"@ =~= seq![digit_char(6)]);
        }
        "6"
    } else if d == 7 {
        proof {
            reveal_strlit("7");
            assert("7"@ =~= seq![digit_char(7)]);
        }
        "7"
    } else if d == 8 {
        proof {
            reveal_strlit("8");
            assert("8"@ =~= seq![digit_char(8)]);
        }
        "8"
    } else {
        proof {
            reveal_strlit("9");
            assert("9"@ =~= seq![digit_char(9)]);
        }
        "9"
    }
}

fn code_str(c: &Code) -> (r: &'static str)
    ensures
        r@ == code_text(*c),
{
    match c {
        Code::PLN => {
            proof {
                reveal_strlit("PLN");
                assert("PLN"@ =~= code_text(Code::PLN));
            }
            "PLN"
        },
        Code::USD => {
            proof {
                reveal_strlit("USD");
                assert("USD"@ =~= code_text(Code::USD));
            }
            "USD"
        },
        Code::GBP => {
            proof {
                reveal_strlit("GBP");
                assert("GBP"@ =~= code_text(Code::GBP));
            }
            "GBP"
        },
        Code::EUR => {
            proof {
                reveal_strlit("EUR");
                assert("EUR"@ =~= code_text(Code::EUR));
            }
            "EUR"
        },
    }
}

fn push_digits(out: &mut String, n: i128)
    requires
        0 <= n,
    ensures
        final (out)@ == old(out)@ + digits_of(n as nat),
    decreases n,
{
    if n >= 10 {
        proof {
            vstd::arithmetic::div_mod::lemma_div_pos_is_pos(n as int, 10);
            vstd::arithmetic::div_mod::lemma_div_nonincreasing(n as int, 10);
            vstd::arithmetic::div_mod::lemma_div_is_strictly_smaller(n as int, 10);
        }
        let q = n.checked_div_euclid(10).unwrap();
        push_digits(out, q);
    }
    proof {
        vstd::arithmetic::div_mod::lemma_mod_bound(n as int, 10);
    }
    let d = n.checked_rem_euclid(10).unwrap();
    let ghost before = out@;
    out.append(digit_str(d));
    proof {
        if n < 10 {
            vstd::arithmetic::div_mod::lemma_small_mod(n as nat, 10);
            assert(out@ =~= before + digits_of(n as nat));
        } else {
            assert(digits_of(n as nat) == digits_of((n as nat) / 10).push(
                digit_char(((n as nat) % 10) as int),
            ));
            assert((n as nat) / 10 == (n / 10) as nat);
            assert(((n as nat) % 10) as int == n as int % 10);
            assert(out@ =~= before + seq![digit_char(n as int % 10)]);
            assert(before + seq![digit_char(n as int % 10)] =~= old(out)@ + digits_of(n as nat));
        }
    }
}

/// The bare text of a two-decimal-place value, such as `"-12.30"`.
pub fn format_value(v: i128) -> (r: String)
    requires
        in_range(v as int),
    ensures
        r@ == value_text(v as int),
{
    let mut out = String::new();
    let mut m: i128 = v;
    if m < 0 {
        proof {
            reveal_strlit("-");
            assert("-"@ =~= seq!['-']);
        }
        out.append("-");
        m = -m;
    }
    proof {
        vstd::arithmetic::div_mod::lemma_div_pos_is_pos(m as int, 100);
        vstd::arithmetic::div_mod::lemma_div_nonincreasing(m as int, 100);
        vstd::arithmetic::div_mod::lemma_mod_bound(m as int, 100);
        vstd::arithmetic::div_mod::lemma_mod_mod(m as int, 10, 10);
    }
    let ip = m.checked_div_euclid(100).unwrap();
    let fr = m.checked_rem_euclid(100).unwrap();
    push_digits(&mut out, ip);
    proof {
        reveal_strlit(".");
        assert("."@ =~= seq!['.']);
        vstd::arithmetic::div_mod::lemma_div_pos_is_pos(fr as int, 10);
        vstd::arithmetic::div_mod::lemma_div_nonincreasing(fr as int, 10);
        vstd::arithmetic::div_mod::lemma_mod_bound(fr as int, 10);
        assert(fr / 10 <= 9) by {
            assert(fr <= 99);
            vstd::arithmetic::div_mod::lemma_div_is_ordered(fr as int, 99, 10);
        }
    }
    out.append(".");
    let d1 = fr.checked_div_euclid(10).unwrap();
    let d0 = fr.checked_rem_euclid(10).unwrap();
    out.append(digit_str(d1));
    out.append(digit_str(d0));
    proof {
        assert(d0 == m % 10);
        assert(out@ =~= value_text(v as int));
    }
    out
}

/// The persisted text of an amount, `"<value> <CODE>"`, with exactly
/// two fractional digits; the writing side of `to_currency`.
pub fn format_amount(a: &Currency) -> (r: String)
    requires
        a.wf(),
    ensures
        r@ == amount_text(*a),
{
    let mut out = format_value(a.value);
    proof {
        reveal_strlit(" ");
        assert(" "@ =~= seq![' ']);
    }
    out.append(" ");
    out.append(code_str(&a.code));
    proof {
        assert(out@ =~= amount_text(*a));
    }
    out
}

/// The text of a nonnegative four-decimal-place factor, such as an
/// exchange rate `"3.7977"`.
pub open spec fn rate_text(v: int) -> Seq<char>
    recommends
        0 <= v,
{
    let f = v % 10000;
    digits_of((v / 10000) as nat) + seq![
        '.',
        digit_char(f / 1000),
        digit_char(f / 100 % 10),
        digit_char(f / 10 % 10),
        digit_char(f % 10),
    ]
}

/// The factor named by an unsigned four-decimal-place numeral: digits,
/// optionally followed by a point and one to four fractional digits.
pub open spec fn parse_rate_spec(t: Seq<char>) -> Option<int> {
    let dot = first_pos(t, '.');
    if dot == -1 {
        if t.len() > 0 && all_digits(t) {
            Some(digits_num(t) * 10000)
        } else {
            None
        }
    } else {
        let ip = t.subrange(0, dot);
        let fp = t.subrange(dot + 1, t.len() as int);
        if ip.len() > 0 && all_digits(ip) && 1 <= fp.len() <= 4 && all_digits(fp) {
            Some(
                digits_num(ip) * 10000 + digits_num(fp) * (if fp.len() == 1 {
                    1000int
                } else if fp.len() == 2 {
                    100int
                } else if fp.len() == 3 {
                    10int
                } else {
                    1int
                }),
            )
        } else {
            None
        }
    }
}

proof fn lemma_digits_num_bound4(s: Seq<char>)
    requires
        all_digits(s),
        s.len() <= 4,
    ensures
        0 <= digits_num(s) <= 9999,
        s.len() <= 3 ==> digits_num(s) <= 999,
        s.len() <= 2 ==> digits_num(s) <= 99,
        s.len() <= 1 ==> digits_num(s) <= 9,
    decreases s.len(),
{
    if s.len() > 0 {
        assert forall|i: int| 0 <= i < s.drop_last().len() implies is_digit(
            #[trigger] s.drop_last()[i],
        ) by {
            assert(s.drop_last()[i] == s[i]);
        }
        lemma_digits_num_bound4(s.drop_last());
        assert(is_digit(s.last()));
    }
}

/// A rate factor's value in ten-thousandths, refused when it exceeds
/// `MAX_FIXED`.
pub fn parse_rate(t: &str) -> (r: Option<i128>)
    ensures
        match parse_rate_spec(t@) {
            Some(v) => r == (if 0 <= v <= MAX_FIXED {
                Some(v as i128)
            } else {
                None::<i128>
            }),
            None => r is None,
        },
{
    let n = t.unicode_len();
    match find_pos(t, '.') {
        Option::None => {
            if n == 0 {
                return None;
            }
            match parse_digits(t) {
                Option::Some(ip) => {
                    proof {
                        if all_digits(t@) {
                            lemma_digits_num_nonneg(t@);
                        }
                    }
                    let v = ip * 10_000;
                    if v <= MAX_FIXED {
                        Some(v)
                    } else {
                        None
                    }
                },
                Option::None => None,
            }
        },
        Option::Some(dot) => {
            if dot == 0 {
                return None;
            }
            let flen = n - dot - 1;
            if !(1 <= flen && flen <= 4) {
                return None;
            }
            let ip_str = t.substring_char(0, dot);
            let fp_str = t.substring_char(dot + 1, n);
            proof {
                assert(ip_str@ == t@.subrange(0, dot as int));
                assert(fp_str@ == t@.subrange(dot + 1, n as int));
                if all_digits(ip_str@) {
                    lemma_digits_num_nonneg(ip_str@);
                }
                if all_digits(fp_str@) {
                    lemma_digits_num_bound4(fp_str@);
                }
            }
            match (parse_digits(ip_str), parse_digits(fp_str)) {
                (Option::Some(ip), Option::Some(fp)) => {
                    let mult: i128 = if flen == 1 {
                        1000
                    } else if flen == 2 {
                        100
                    } else if flen == 3 {
                        10
                    } else {
                        1
                    };
                    let v = ip * 10_000 + fp * mult;
                    if v <= MAX_FIXED {
                        Some(v)
                    } else {
                        None
                    }
                },
                _ => None,
            }
        },
    }
}

/// The writing side of a rate factor.
pub fn format_rate(v: i128) -> (r: String)
    requires
        0 <= v <= MAX_FIXED,
    ensures
        r@ == rate_text(v as int),
{
    proof {
        vstd::arithmetic::div_mod::lemma_div_pos_is_pos(v as int, 10000);
        vstd::arithmetic::div_mod::lemma_div_nonincreasing(v as int, 10000);
        vstd::arithmetic::div_mod::lemma_mod_bound(v as int, 10000);
    }
    let ip = v.checked_div_euclid(10_000).unwrap();
    let f = v.checked_rem_euclid(10_000).unwrap();
    proof {
        vstd::arithmetic::div_mod::lemma_div_pos_is_pos(f as int, 1000);
        vstd::arithmetic::div_mod::lemma_div_is_ordered(f as int, 9999, 1000);
        vstd::arithmetic::div_mod::lemma_div_pos_is_pos(f as int, 100);
        vstd::arithmetic::div_mod::lemma_div_is_ordered(f as int, 9999, 100);
        vstd::arithmetic::div_mod::lemma_mod_bound(f as int / 100, 10);
        vstd::arithmetic::div_mod::lemma_div_pos_is_pos(f as int, 10);
        vstd::arithmetic::div_mod::lemma_div_is_ordered(f as int, 9999, 10);
        vstd::arithmetic::div_mod::lemma_mod_bound(f as int / 10, 10);
        vstd::arithmetic::div_mod::lemma_mod_bound(f as int, 10);
    }
    let mut out = String::new();
    push_digits(&mut out, ip);
    proof {
        reveal_strlit(".");
        assert("."@ =~= seq!['.']);
    }
    out.append(".");
    let d3 = f.checked_div_euclid(1000).unwrap();
    let d2 = f.checked_div_euclid(100).unwrap().checked_rem_euclid(10).unwrap();
    let d1 = f.checked_div_euclid(10).unwrap().checked_rem_euclid(10).unwrap();
    let d0 = f.checked_rem_euclid(10).unwrap();
    out.append(digit_str(d3));
    out.append(digit_str(d2));
    out.append(digit_str(d1));
    out.append(digit_str(d0));
    proof {
        assert(out@ =~= rate_text(v as int));
    }
    out
}

proof fn lemma_digit_char_val(x: int)
    requires
        0 <= x <= 9,
    ensures
        is_digit(digit_char(x)),
        digit_val(digit_char(x)) == x,
{
}

proof fn lemma_digits_of_props(n: nat)
    ensures
        all_digits(digits_of(n)),
        digits_of(n).len() >= 1,
        digits_num(digits_of(n)) == n,
    decreases n,
{
    if n < 10 {
        lemma_digit_char_val(n as int);
        assert(digits_of(n) =~= seq![digit_char(n as int)]);
        assert(digits_of(n).drop_last() =~= Seq::<char>::empty());
        assert(digits_of(n).last() == digit_char(n as int));
        assert(digits_num(Seq::<char>::empty()) == 0);
        assert(digits_num(digits_of(n)) == digit_val(digit_char(n as int)));
        assert forall|i: int| 0 <= i < digits_of(n).len() implies is_digit(
            #[trigger] digits_of(n)[i],
        ) by {
            assert(digits_of(n)[i] == digit_char(n as int));
        }
    } else {
        lemma_digits_of_props(n / 10);
        vstd::arithmetic::div_mod::lemma_mod_bound(n as int, 10);
        lemma_digit_char_val((n % 10) as int);
        let p = digits_of(n / 10);
        let w = p.push(digit_char((n % 10) as int));
        assert(w.drop_last() =~= p);
        assert(w.last() == digit_char((n % 10) as int));
        assert forall|i: int| 0 <= i < w.len() implies is_digit(#[trigger] w[i]) by {
            if i < p.len() {
                assert(w[i] == p[i]);
            }
        }
        vstd::arithmetic::div_mod::lemma_fundamental_div_mod(n as int, 10);
        assert(digits_of(n) == w);
        assert(digits_num(w) == digits_num(p) * 10 + digit_val(w.last()));
    }
}

/// `first_pos` over a concatenation whose left part lacks `c`.
proof fn lemma_first_pos_append(a: Seq<char>, b: Seq<char>, c: char)
    requires
        forall|j: int| 0 <= j < a.len() ==> a[j] != c,
    ensures
        first_pos(a + b, c) == (if first_pos(b, c) == -1 {
            -1int
        } else {
            a.len() + first_pos(b, c)
        }),
    decreases a.len(),
{
    lemma_first_pos_range(b, c);
    if a.len() == 0 {
        assert(a + b =~= b);
    } else {
        assert((a + b)[0] == a[0]);
        assert((a + b).drop_first() =~= a.drop_first() + b);
        assert forall|j: int| 0 <= j < a.drop_first().len() implies a.drop_first()[j] != c by {
            assert(a.drop_first()[j] == a[j + 1]);
        }
        lemma_first_pos_append(a.drop_first(), b, c);
    }
}

proof fn lemma_parse_unsigned_of(m: int)
    requires
        0 <= m,
    ensures
        parse_unsigned_spec(amount_digits(m)) == Some(m),
{
    vstd::arithmetic::div_mod::lemma_div_pos_is_pos(m, 100);
    vstd::arithmetic::div_mod::lemma_mod_bound(m, 100);
    vstd::arithmetic::div_mod::lemma_mod_bound(m, 10);
    vstd::arithmetic::div_mod::lemma_mod_bound(m % 100, 10);
    vstd::arithmetic::div_mod::lemma_div_pos_is_pos(m % 100, 10);
    vstd::arithmetic::div_mod::lemma_div_is_ordered(m % 100, 99, 10);
    vstd::arithmetic::div_mod::lemma_mod_mod(m, 10, 10);
    let dd = digits_of((m / 100) as nat);
    let c1 = digit_char((m % 100) / 10);
    let c0 = digit_char(m % 10);
    let t = amount_digits(m);
    lemma_digits_of_props((m / 100) as nat);
    lemma_digit_char_val((m % 100) / 10);
    lemma_digit_char_val(m % 10);
    // the dot sits right after the integer digits
    assert forall|j: int| 0 <= j < dd.len() implies dd[j] != '.' by {
        assert(is_digit(dd[j]));
    }
    assert(t =~= dd + (seq!['.', c1, c0]));
    lemma_first_pos_append(dd, seq!['.', c1, c0], '.');
    assert(first_pos(seq!['.', c1, c0], '.') == 0);
    let dot = first_pos(t, '.');
    assert(dot == dd.len());
    assert(t.subrange(0, dot) =~= dd);
    let fp = t.subrange(dot + 1, t.len() as int);
    assert(fp =~= seq![c1, c0]);
    assert forall|i: int| 0 <= i < fp.len() implies is_digit(#[trigger] fp[i]) by {
        if i == 0 {
            assert(fp[0] == c1);
        } else {
            assert(fp[1] == c0);
        }
    }
    // the two fractional digits read back as m % 100
    assert(fp.drop_last() =~= seq![c1]);
    assert(fp.last() == c0);
    assert(seq![c1].drop_last() =~= Seq::<char>::empty());
    assert(seq![c1].last() == c1);
    assert(digits_num(Seq::<char>::empty()) == 0);
    assert(digits_num(seq![c1]) == digit_val(c1));
    assert(digits_num(fp) == digit_val(c1) * 10 + digit_val(c0));
    assert((m % 100) == ((m % 100) / 10) * 10 + (m % 100) % 10) by {
        vstd::arithmetic::div_mod::lemma_fundamental_div_mod(m % 100, 10);
    }
    assert(digits_num(fp) == m % 100);
    assert(m == (m / 100) * 100 + m % 100) by {
        vstd::arithmetic::div_mod::lemma_fundamental_div_mod(m, 100);
    }
}

proof fn lemma_value_text_no_space(v: int)
    ensures
        forall|j: int| 0 <= j < value_text(v).len() ==> value_text(v)[j] != ' ',
{
    let m = if v < 0 {
        -v
    } else {
        v
    };
    vstd::arithmetic::div_mod::lemma_div_pos_is_pos(m, 100);
    vstd::arithmetic::div_mod::lemma_mod_bound(m, 100);
    vstd::arithmetic::div_mod::lemma_mod_bound(m, 10);
    vstd::arithmetic::div_mod::lemma_div_pos_is_pos(m % 100, 10);
    vstd::arithmetic::div_mod::lemma_div_is_ordered(m % 100, 99, 10);
    lemma_digits_of_props((m / 100) as nat);
    lemma_digit_char_val((m % 100) / 10);
    lemma_digit_char_val(m % 10);
    let dd = digits_of((m / 100) as nat);
    let ad = amount_digits(m);
    assert forall|j: int| 0 <= j < ad.len() implies ad[j] != ' ' by {
        if j < dd.len() {
            assert(ad[j] == dd[j]);
            assert(is_digit(dd[j]));
        } else if j == dd.len() {
            assert(ad[j] == '.');
        } else if j == dd.len() + 1 {
            assert(ad[j] == digit_char((m % 100) / 10));
        } else {
            assert(ad[j] == digit_char(m % 10));
        }
    }
    if v < 0 {
        assert forall|j: int| 0 <= j < value_text(v).len() implies value_text(v)[j] != ' ' by {
            if j == 0 {
                assert(value_text(v)[0] == '-');
            } else {
                assert(value_text(v)[j] == ad[j - 1]);
            }
        }
    }
}

proof fn lemma_code_text_round(c: Code)
    ensures
        code_of_text(code_text(c)) == Some(c),
{
    assert(code_text(Code::PLN)[0] == 'P');
    assert(code_text(Code::USD)[0] == 'U');
    assert(code_text(Code::GBP)[0] == 'G');
    assert(code_text(Code::EUR)[0] == 'E');
}

/// Round-trip law: writing an amount out and parsing it back yields
/// the amount unchanged, so persistence keeps every domestic and
/// original value identical.
pub proof fn lemma_amount_text_round_trip(a: Currency)
    requires
        a.wf(),
    ensures
        parse_amount_spec(amount_text(a)) == Some(a),
{
    let v = a.value as int;
    let vt = value_text(v);
    let ct = code_text(a.code);
    let s = amount_text(a);
    lemma_value_text_no_space(v);
    assert(s =~= vt + (seq![' '] + ct));
    lemma_first_pos_append(vt, seq![' '] + ct, ' ');
    assert((seq![' '] + ct)[0] == ' ');
    assert(first_pos(seq![' '] + ct, ' ') == 0);
    let sp = first_pos(s, ' ');
    assert(sp == vt.len());
    assert(s.subrange(0, sp) =~= vt);
    assert(s.subrange(sp + 1, s.len() as int) =~= ct);
    lemma_code_text_round(a.code);
    // the value part reads back as v
    if v < 0 {
        assert(vt[0] == '-');
        assert(vt.drop_first() =~= amount_digits(-v));
        lemma_parse_unsigned_of(-v);
    } else {
        lemma_parse_unsigned_of(v);
        let dd = digits_of((v / 100) as nat);
        lemma_digits_of_props((v / 100) as nat);
        assert(vt[0] == dd[0]);
        assert(is_digit(dd[0]));
        assert(vt[0] != '-');
    }
    assert(parse_value_spec(vt) == Some(v));
}

} // verus!
