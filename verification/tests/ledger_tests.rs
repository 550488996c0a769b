use tax_ledger::activity::{Activity, Money, Operation};
use tax_ledger::compute::{command, sort_activities, Error, Stock};
use tax_ledger::currency::{new, Code, Currency};
use tax_ledger::date::{Date, Timestamp};
use tax_ledger::nbp::Rate;

fn ts(year: i32, month: u8, day: u8, seconds: u32) -> Timestamp {
    Timestamp { date: Date { year, month, day }, seconds }
}

fn pln_money(cents: i128) -> Money {
    Money { original: new(&Code::PLN, cents), pln: new(&Code::PLN, cents), rate: None }
}

fn usd_money(cents: i128, rate_t4: i128, rate_date: Date) -> Money {
    let domestic = cents * rate_t4 / 10_000; // exact for the values used here
    Money {
        original: new(&Code::USD, cents),
        pln: new(&Code::PLN, domestic),
        rate: Some(Rate { value: rate_t4, date: rate_date, id: "r".to_string() }),
    }
}

fn buy(symbol: &str, t: Timestamp, quantity_t4: i128, price: Money, commission: Money) -> Activity {
    Activity {
        symbol: symbol.to_string(),
        timestamp: t,
        operation: Operation::Buy { quantity: quantity_t4, price, commission },
    }
}

fn sell(symbol: &str, t: Timestamp, quantity_t4: i128, price: Money, commission: Money) -> Activity {
    Activity {
        symbol: symbol.to_string(),
        timestamp: t,
        operation: Operation::Sell { quantity: quantity_t4, price, commission },
    }
}

fn dividend(symbol: &str, t: Timestamp, value: Money, withholding: Money) -> Activity {
    Activity {
        symbol: symbol.to_string(),
        timestamp: t,
        operation: Operation::Dividend { value, withholding_tax: withholding },
    }
}

#[test]
fn test_fifo_ordering() {
    // Buy A 5 @ 10, buy A 5 @ 20, sell A 7: the whole first lot and two
    // of the second are consumed; a lot of 3 at 20 stays open.
    let mut stock = Stock::new();
    let a1 = buy("A", ts(2020, 1, 2, 0), 50_000, pln_money(1000), pln_money(0));
    let a2 = buy("A", ts(2020, 1, 3, 0), 50_000, pln_money(2000), pln_money(0));
    let a3 = sell("A", ts(2020, 1, 4, 0), 70_000, pln_money(3000), pln_money(0));
    match (&a1.operation, &a2.operation, &a3.operation) {
        (
            Operation::Buy { quantity: q1, price: p1, commission: c1 },
            Operation::Buy { quantity: q2, price: p2, commission: c2 },
            Operation::Sell { quantity: q3, price: p3, commission: c3 },
        ) => {
            stock.buy(&a1, *q1, p1, c1);
            stock.buy(&a2, *q2, p2, c2);
            let (revenue, cost) = stock.sell(&a3, *q3, p3, c3).expect("sell succeeds");
            assert_eq!(revenue, new(&Code::PLN, 21_000)); // 7 * 30.00
            assert_eq!(cost, new(&Code::PLN, 9_000)); // 5 * 10.00 + 2 * 20.00
        },
        _ => unreachable!(),
    }
    assert_eq!(stock.blocks.len(), 1);
    let lots = &stock.blocks[0].blocks;
    assert_eq!(lots.len(), 1);
    let open = lots.front().expect("one open lot");
    assert_eq!(open.quantity, 30_000);
    assert_eq!(open.price, new(&Code::PLN, 2000));
}

#[test]
fn test_commission_attribution() {
    // Buy 10 @ 5 with commission 10; the commission is attributed only
    // by the sale that depletes the lot.
    let mut stock = Stock::new();
    let b = buy("A", ts(2020, 1, 2, 0), 100_000, pln_money(500), pln_money(1000));
    let s1 = sell("A", ts(2020, 1, 3, 0), 40_000, pln_money(500), pln_money(0));
    let s2 = sell("A", ts(2020, 1, 4, 0), 40_000, pln_money(500), pln_money(0));
    let s3 = sell("A", ts(2020, 1, 5, 0), 20_000, pln_money(500), pln_money(0));
    let run = |stock: &mut Stock, a: &Activity| -> (Currency, Currency) {
        match &a.operation {
            Operation::Buy { quantity, price, commission } => {
                stock.buy(a, *quantity, price, commission);
                (new(&Code::PLN, 0), new(&Code::PLN, 0))
            },
            Operation::Sell { quantity, price, commission } => {
                stock.sell(a, *quantity, price, commission).expect("sell succeeds")
            },
            _ => unreachable!(),
        }
    };
    run(&mut stock, &b);
    let (_, cost1) = run(&mut stock, &s1);
    assert_eq!(cost1, new(&Code::PLN, 2000)); // 4 * 5.00, no commission yet
    let (_, cost2) = run(&mut stock, &s2);
    assert_eq!(cost2, new(&Code::PLN, 2000)); // still pending
    let (_, cost3) = run(&mut stock, &s3);
    assert_eq!(cost3, new(&Code::PLN, 2000)); // 2 * 5.00 + the full 10.00
}

#[test]
fn test_ledger_underflow() {
    let mut stock = Stock::new();
    let s = sell("A", ts(2020, 1, 3, 0), 10_000, pln_money(500), pln_money(0));
    match &s.operation {
        Operation::Sell { quantity, price, commission } => {
            assert_eq!(stock.sell(&s, *quantity, price, commission), Err(Error::LedgerUnderflow));
        },
        _ => unreachable!(),
    }
}

#[test]
fn test_dividend_credit() {
    // dividend 100 domestic, withholding 15: tax owed is 19.00 - 15.00
    let acts = vec![dividend("X", ts(2020, 5, 1, 0), pln_money(10_000), pln_money(1_500))];
    let summaries = command(&acts).expect("computation succeeds");
    assert_eq!(summaries.len(), 1);
    assert_eq!(summaries[0].year, 2020);
    assert_eq!(summaries[0].total.dividend_tax, new(&Code::PLN, 400));
}

#[test]
fn test_dividend_negative_credit() {
    // withholding above the owed tax is a valid negative credit
    let acts = vec![dividend("X", ts(2020, 5, 1, 0), pln_money(10_000), pln_money(3_000))];
    let summaries = command(&acts).expect("computation succeeds");
    assert_eq!(summaries[0].total.dividend_tax, new(&Code::PLN, -1_100));
}

#[test]
fn test_end_to_end_gain() {
    // Buy 10 shares at 20.00 USD, rate 4.00: domestic price 80.00; sell
    // all 10 at 25.00 USD, same rate: revenue 1000.00, cost 800.00.
    let rate_date = Date { year: 2020, month: 1, day: 1 };
    let acts = vec![
        buy(
            "U",
            ts(2020, 1, 2, 0),
            100_000,
            usd_money(2_000, 40_000, rate_date),
            pln_money(0),
        ),
        sell(
            "U",
            ts(2020, 6, 2, 0),
            100_000,
            usd_money(2_500, 40_000, rate_date),
            pln_money(0),
        ),
    ];
    let summaries = command(&acts).expect("computation succeeds");
    assert_eq!(summaries.len(), 1);
    let total = &summaries[0].total;
    assert_eq!(total.stock_revenue, new(&Code::PLN, 100_000));
    assert_eq!(total.stock_cost, new(&Code::PLN, 80_000));
    assert_eq!(total.stock_income, new(&Code::PLN, 20_000));
    assert_eq!(total.stock_loss, new(&Code::PLN, 0));
    assert_eq!(total.stock_tax, new(&Code::PLN, 3_800)); // 19% of 200.00
}

#[test]
fn test_loss_splits_by_sign() {
    let acts = vec![
        buy("U", ts(2020, 1, 2, 0), 10_000, pln_money(2_000), pln_money(0)),
        sell("U", ts(2020, 6, 2, 0), 10_000, pln_money(1_500), pln_money(0)),
    ];
    let summaries = command(&acts).expect("computation succeeds");
    let total = &summaries[0].total;
    assert_eq!(total.stock_income, new(&Code::PLN, 0));
    assert_eq!(total.stock_loss, new(&Code::PLN, 500));
    assert_eq!(total.stock_tax, new(&Code::PLN, 0));
}

#[test]
fn test_aggregate_sums_per_symbol_returns() {
    // the aggregate dividend tax is the field-wise sum of the
    // per-symbol values, taxed once
    let acts = vec![
        dividend("A", ts(2020, 5, 1, 0), pln_money(10_000), pln_money(0)),
        dividend("B", ts(2020, 6, 1, 0), pln_money(20_000), pln_money(0)),
    ];
    let summaries = command(&acts).expect("computation succeeds");
    assert_eq!(summaries[0].symbols.len(), 2);
    assert_eq!(summaries[0].symbols[0].1.dividend_tax, new(&Code::PLN, 1_900));
    assert_eq!(summaries[0].symbols[1].1.dividend_tax, new(&Code::PLN, 3_800));
    assert_eq!(summaries[0].total.dividend_tax, new(&Code::PLN, 5_700));
}

#[test]
fn test_ledger_carries_across_years() {
    // lots bought one year are consumed by a sale in the next
    let acts = vec![
        buy("A", ts(2019, 3, 2, 0), 10_000, pln_money(1_000), pln_money(0)),
        sell("A", ts(2020, 3, 2, 0), 10_000, pln_money(3_000), pln_money(0)),
    ];
    let summaries = command(&acts).expect("computation succeeds");
    assert_eq!(summaries.len(), 2);
    assert_eq!(summaries[0].year, 2019);
    assert_eq!(summaries[1].year, 2020);
    assert_eq!(summaries[1].total.stock_income, new(&Code::PLN, 2_000));
}

#[test]
fn test_underflow_aborts_command() {
    let acts = vec![sell("A", ts(2020, 3, 2, 0), 10_000, pln_money(3_000), pln_money(0))];
    assert!(matches!(command(&acts), Err(Error::LedgerUnderflow)));
}

#[test]
fn test_accumulation_out_of_range() {
    // two dividends at the range limit cannot be accumulated
    let limit = 1_000_000_000_000_000_000;
    let acts = vec![
        dividend("X", ts(2020, 5, 1, 0), pln_money(limit), pln_money(0)),
        dividend("X", ts(2020, 5, 2, 0), pln_money(limit), pln_money(0)),
    ];
    assert!(matches!(command(&acts), Err(Error::OutOfRange)));
}

#[test]
fn test_sort_activities() {
    let mut acts = vec![
        dividend("C", ts(2021, 5, 1, 0), pln_money(100), pln_money(0)),
        dividend("A", ts(2019, 5, 1, 0), pln_money(200), pln_money(0)),
        dividend("B", ts(2019, 5, 1, 3600), pln_money(300), pln_money(0)),
    ];
    sort_activities(&mut acts);
    assert_eq!(acts[0].symbol, "A");
    assert_eq!(acts[1].symbol, "B");
    assert_eq!(acts[2].symbol, "C");
}

#[test]
fn test_money_create() {
    // a domestic amount converts to itself, rate absent
    let d = Date { year: 2020, month: 1, day: 2 };
    let m = Money::create(new(&Code::PLN, 2300), &d, None).expect("domestic money");
    assert_eq!(m.pln, m.original);
    assert!(m.rate.is_none());
    assert!(m.is_converted());

    // a foreign amount takes the resolved quotation
    let rt = Rate { value: 40_000, date: Date { year: 2020, month: 1, day: 1 }, id: "r".to_string() };
    let m = Money::create(new(&Code::USD, 2000), &d, Some(rt)).expect("converted money");
    assert_eq!(m.pln, new(&Code::PLN, 8_000));
    assert!(m.is_converted());

    // without a quotation, creation fails as the resolution did
    assert_eq!(
        Money::create(new(&Code::USD, 2000), &d, None),
        Err(tax_ledger::nbp::Error::RateUnavailable { code: Code::USD, date: d })
    );
}

#[test]
fn test_money_is_converted() {
    assert!(pln_money(100).is_converted());
    assert!(usd_money(2_000, 40_000, Date { year: 2020, month: 1, day: 1 }).is_converted());
    let bad = Money {
        original: new(&Code::USD, 100),
        pln: new(&Code::PLN, 999),
        rate: Some(Rate {
            value: 40_000,
            date: Date { year: 2020, month: 1, day: 1 },
            id: "r".to_string(),
        }),
    };
    assert!(!bad.is_converted());
    let missing_rate = Money { original: new(&Code::USD, 100), pln: new(&Code::PLN, 40), rate: None };
    assert!(!missing_rate.is_converted());
}

#[test]
fn test_zero_commission_round_trip_gain_zero() {
    // buy and sell the same quantity at the same price with no
    // commissions: revenue equals cost
    let acts = vec![
        buy("A", ts(2020, 1, 2, 0), 70_000, pln_money(1_234), pln_money(0)),
        sell("A", ts(2020, 1, 3, 0), 70_000, pln_money(1_234), pln_money(0)),
    ];
    let summaries = command(&acts).expect("computation succeeds");
    let total = &summaries[0].total;
    assert_eq!(total.stock_income, new(&Code::PLN, 0));
    assert_eq!(total.stock_loss, new(&Code::PLN, 0));
}

#[test]
fn test_empty_log() {
    let acts: Vec<Activity> = vec![];
    let summaries = command(&acts).expect("empty computation succeeds");
    assert!(summaries.is_empty());
}

#[test]
fn test_equal_timestamps_keep_symbols_apart() {
    // two symbols with the same timestamp each get their own position
    let t = ts(2020, 5, 1, 0);
    let acts = vec![
        dividend("A", t, pln_money(10_000), pln_money(0)),
        dividend("B", t, pln_money(10_000), pln_money(0)),
    ];
    let summaries = command(&acts).expect("computation succeeds");
    assert_eq!(summaries[0].symbols.len(), 2);
    assert_eq!(summaries[0].total.dividend_tax, new(&Code::PLN, 3_800));
}
