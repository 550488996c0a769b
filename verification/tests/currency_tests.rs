use tax_ledger::activity::parse_amount;
use tax_ledger::currency::{new, Code, Currency, Error, Rates};
use tax_ledger::date::Date;
use tax_ledger::nbp::Rate;
use tax_ledger::tax::Tax;

#[test]
fn test_currency() {
    let usd = new(&Code::USD, 345);
    assert_eq!(usd.get_value(), 345);
    assert_eq!(usd.get_code(), Code::USD);

    let pln = new(&Code::PLN, 123);
    assert_eq!(pln.get_value(), 123);
    assert_eq!(pln.get_code(), Code::PLN);
}

#[test]
fn test_currency_math() {
    let a = new(&Code::USD, 345);
    let b = new(&Code::USD, 700);
    assert_eq!(a.add(&b), Ok(new(&Code::USD, 1045)));
    assert_eq!(b.add(&a), Ok(new(&Code::USD, 1045)));
    assert_eq!(a.subtract(&b), Ok(new(&Code::USD, -355)));
    assert_eq!(b.subtract(&a), Ok(new(&Code::USD, 355)));
    assert_eq!(b.multiply(20_000), Ok(new(&Code::USD, 1400)));
    assert_eq!(b.multiply(25_000), Ok(new(&Code::USD, 1750)));
    assert_eq!(b.divide(20_000), Ok(new(&Code::USD, 350)));
    assert_eq!(b.divide(25_000), Ok(new(&Code::USD, 280)));
}

#[test]
fn test_currency_code_mismatch() {
    let a = new(&Code::USD, 100);
    let b = new(&Code::PLN, 100);
    assert_eq!(a.add(&b), Err(Error::CodeMismatch));
    assert_eq!(a.subtract(&b), Err(Error::CodeMismatch));
}

#[test]
fn test_currency_out_of_range() {
    let a = new(&Code::USD, 1_000_000_000_000_000_000);
    assert_eq!(a.add(&a), Err(Error::OutOfRange));
    assert_eq!(a.multiply(1_000_000_000_000_000_000), Err(Error::OutOfRange));
}

#[test]
fn test_rounding_half_even() {
    // products that land exactly on a half cent round to the even cent
    let a = new(&Code::USD, 25);
    assert_eq!(a.multiply(1400), Ok(new(&Code::USD, 4))); // 3.5 hundredths -> 4
    let b = new(&Code::USD, 45);
    assert_eq!(b.multiply(1000), Ok(new(&Code::USD, 4))); // 4.5 hundredths -> 4
    let c = new(&Code::USD, -25);
    assert_eq!(c.multiply(1400), Ok(new(&Code::USD, -4))); // -3.5 -> -4
    // ordinary rounding keeps the nearer cent
    assert_eq!(a.multiply(500), Ok(new(&Code::USD, 1))); // 1.25 hundredths -> 1
    let d = new(&Code::USD, 75);
    assert_eq!(d.multiply(500), Ok(new(&Code::USD, 4))); // 3.75 hundredths -> 4
}

#[test]
fn test_tax_rate() {
    assert_eq!(Tax::new(19).get_value(), 1900);
}

#[test]
fn test_rate_cache() {
    let mut rates = Rates::new();
    let d = Date { year: 2020, month: 1, day: 2 };
    assert!(rates.get(&Code::USD, &d).is_none());
    rates.put(
        &Code::USD,
        &d,
        Rate { value: 37977, date: Date { year: 2019, month: 12, day: 31 }, id: "251/A/NBP/2019".to_string() },
    );
    let hit = rates.get(&Code::USD, &d).expect("cached rate");
    assert_eq!(hit.value, 37977);
    assert!(rates.get(&Code::EUR, &d).is_none());
    // a second put for the same pair replaces the record
    rates.put(
        &Code::USD,
        &d,
        Rate { value: 40000, date: Date { year: 2019, month: 12, day: 31 }, id: "x".to_string() },
    );
    assert_eq!(rates.get(&Code::USD, &d).expect("cached rate").value, 40000);
    assert_eq!(rates.values.len(), 1);
}

#[test]
fn test_prev_day() {
    let d = Date { year: 2020, month: 3, day: 1 };
    assert_eq!(d.prev_day(), Some(Date { year: 2020, month: 2, day: 29 }));
    let d = Date { year: 2021, month: 3, day: 1 };
    assert_eq!(d.prev_day(), Some(Date { year: 2021, month: 2, day: 28 }));
    let d = Date { year: 2020, month: 1, day: 1 };
    assert_eq!(d.prev_day(), Some(Date { year: 2019, month: 12, day: 31 }));
    let d = Date { year: 1, month: 1, day: 1 };
    assert_eq!(d.prev_day(), None);
}

fn currency_text(c: &Currency) -> String {
    tax_ledger::activity::format_amount(c)
}

#[test]
fn test_amount_text_round_trip() {
    for (value, code) in [
        (345i128, Code::USD),
        (-1234, Code::PLN),
        (0, Code::EUR),
        (2000, Code::GBP),
        (999_999_999_999_999_999, Code::USD),
    ] {
        let a = new(&code, value);
        let text = currency_text(&a);
        assert_eq!(tax_ledger::activity::parse_amount(&text), Some(a));
    }
    let a = new(&Code::USD, 2000);
    assert_eq!(currency_text(&a), "20.00 USD");
    let b = new(&Code::PLN, -10);
    assert_eq!(currency_text(&b), "-0.10 PLN");
}

#[test]
fn test_parse_amount_forms() {
    assert_eq!(parse_amount("12 USD"), Some(new(&Code::USD, 1200)));
    assert_eq!(parse_amount("12.5 USD"), Some(new(&Code::USD, 1250)));
    assert_eq!(parse_amount("12.50 USD"), Some(new(&Code::USD, 1250)));
    assert_eq!(parse_amount("-3.45 EUR"), Some(new(&Code::EUR, -345)));
    assert_eq!(parse_amount("1.234 USD"), None);
    assert_eq!(parse_amount("12"), None);
    assert_eq!(parse_amount("12 XXX"), None);
    assert_eq!(parse_amount(". USD"), None);
    assert_eq!(parse_amount("--1 USD"), None);
    assert_eq!(parse_amount("99999999999999999999 USD"), None);
}
