use tax_ledger::currency::{new, Code};
use tax_ledger::date::Date;
use tax_ledger::nbp::{convert, finish_resolution, resolve, Error, Rate, RateReply, Resolution};

fn rate(value: i128, date: Date, id: &str) -> Rate {
    Rate { value, date, id: id.to_string() }
}

#[test]
fn test_usd_day_off() {
    let trade_date = Date { year: 2020, month: 1, day: 2 };
    let amount = new(&Code::USD, 2000);

    // no quotation the day before (a day off), one the day after that
    let published = rate(37977, Date { year: 2019, month: 12, day: 31 }, "251/A/NBP/2019");
    let replies = vec![RateReply::NoQuotation, RateReply::Quotation(published.clone())];
    let resolved = match resolve(&trade_date, replies) {
        Resolution::Resolved(rt) => rt,
        other => panic!("expected a resolved rate, got {:?}", other),
    };
    assert_eq!(resolved, published);

    assert_eq!(
        convert(&amount, &trade_date, Some(resolved)),
        Ok((new(&Code::PLN, 7595), Some(published)))
    );
}

#[test]
fn test_eur_business_day() {
    let trade_date = Date { year: 2021, month: 1, day: 6 };
    let amount = new(&Code::EUR, 2000);

    let published = rate(45446, Date { year: 2021, month: 1, day: 5 }, "002/A/NBP/2021");
    let replies = vec![RateReply::Quotation(published.clone())];
    let resolved = match resolve(&trade_date, replies) {
        Resolution::Resolved(rt) => rt,
        other => panic!("expected a resolved rate, got {:?}", other),
    };

    assert_eq!(
        convert(&amount, &trade_date, Some(resolved)),
        Ok((new(&Code::PLN, 9089), Some(published)))
    );
}

#[test]
fn test_pln() {
    let trade_date = Date { year: 2020, month: 1, day: 2 };
    let amount = new(&Code::PLN, 2300);

    assert_eq!(convert(&amount, &trade_date, None), Ok((new(&Code::PLN, 2300), None)));
}

#[test]
fn test_resolver_fallback_seventh_day() {
    // quotations missing on the first six days back, present on the seventh
    let trade_date = Date { year: 2020, month: 3, day: 20 };
    let published = rate(40123, Date { year: 2020, month: 3, day: 13 }, "a");
    let mut replies = vec![RateReply::NoQuotation; 6];
    replies.push(RateReply::Quotation(published.clone()));
    match resolve(&trade_date, replies) {
        Resolution::Resolved(rt) => assert_eq!(rt, published),
        other => panic!("expected the seventh-day rate, got {:?}", other),
    }
}

#[test]
fn test_resolver_exhausted() {
    // quotations missing on all ten days back
    let trade_date = Date { year: 2020, month: 3, day: 20 };
    let replies = vec![RateReply::NoQuotation; 10];
    assert_eq!(resolve(&trade_date, replies), Resolution::Unavailable);
}

#[test]
fn test_resolver_queries_walk_backwards() {
    let trade_date = Date { year: 2020, month: 1, day: 2 };
    assert_eq!(
        resolve(&trade_date, vec![]),
        Resolution::Query(Date { year: 2020, month: 1, day: 1 })
    );
    assert_eq!(
        resolve(&trade_date, vec![RateReply::NoQuotation]),
        Resolution::Query(Date { year: 2019, month: 12, day: 31 })
    );
}

#[test]
fn test_resolver_transport_failure_aborts() {
    let trade_date = Date { year: 2020, month: 3, day: 20 };
    let replies = vec![RateReply::NoQuotation, RateReply::Failure];
    assert_eq!(resolve(&trade_date, replies), Resolution::Failed);
}

#[test]
fn test_finish_resolution() {
    let d = Date { year: 2020, month: 3, day: 20 };
    let published = rate(40123, Date { year: 2020, month: 3, day: 19 }, "a");
    assert_eq!(
        finish_resolution(&Code::USD, &d, Resolution::Resolved(published.clone())),
        Ok(published)
    );
    assert_eq!(
        finish_resolution(&Code::USD, &d, Resolution::Unavailable),
        Err(Error::RateUnavailable { code: Code::USD, date: d })
    );
    assert_eq!(finish_resolution(&Code::USD, &d, Resolution::Failed), Err(Error::Transport));
}

#[test]
fn test_convert_unavailable() {
    let trade_date = Date { year: 2020, month: 3, day: 20 };
    let amount = new(&Code::USD, 2000);
    assert_eq!(
        convert(&amount, &trade_date, None),
        Err(Error::RateUnavailable { code: Code::USD, date: trade_date })
    );
}
