use mp_research::error::StorageError;
use mp_research::event::{MarketEvent, Side, SymbolId};
use mp_research::historical::{
    agg_rows, bootstrap_day, day_complete, historical_manifest_file, historical_trades_file,
    parse_aggtrades, HistoricalConfig, HistoricalSource, MockHistoricalSource,
};
use mp_research::historical_download::{
    daily_url, next_step, single_csv, unzip_single_csv, FetchStep, Reply, RetryPolicy, Throttle,
};
use mp_research::number::Real;
use std::io::Write;

fn r(x: f64) -> Real {
    Real { bits: x.to_bits() }
}

fn throttle(rate: f64) -> Throttle {
    Throttle::new(r(rate), (1_000_000_000.0_f64 / rate) as u64)
}

#[test]
fn throttle_rate_limits_deterministically() {
    // 1 req/s; the slot schedule is pure over the injected now.
    let mut t = throttle(1.0);
    assert_eq!(t.wait_ns(0), 0, "first request is on-slot");
    assert_eq!(
        t.wait_ns(500_000_000),
        500_000_000,
        "second at t=0.5s waits the remainder of its 1s slot"
    );
    assert_eq!(
        t.wait_ns(1_200_000_000),
        800_000_000,
        "third at t=1.2s backs to its 2s slot"
    );
    // Rate limiter off: no wait, no advance.
    let mut off = throttle(0.0);
    assert_eq!(off.wait_ns(0), 0);
    assert_eq!(off.wait_ns(u64::MAX), 0);
    let mut nan = throttle(f64::NAN);
    assert_eq!(nan.wait_ns(123), 0, "NaN rate must fail to unlimited, not panic");
}

#[test]
fn retry_backoff_is_deterministic_exponential_capped() {
    let p = RetryPolicy::new(4, 1000, 5000);
    let a0 = p.delay_ms(0);
    let a0b = p.delay_ms(0);
    assert_eq!(a0, a0b);
    assert!(a0 <= 1000, "attempt 0 within [0, base]");
    let a1 = p.delay_ms(1);
    assert!(a1 <= 2000, "attempt 1 within [0, base*2]");
    let a2 = p.delay_ms(2);
    assert!(a2 <= 4000);
    for n in [3u32, 4, 30] {
        assert!(p.delay_ms(n) <= 5000, "capped at cap");
    }
}

#[test]
fn delays_differ_between_attempts() {
    let p = RetryPolicy::new(4, 1_000_000, u64::MAX);
    let delays: Vec<u64> = (0..4).map(|n| p.delay_ms(n)).collect();
    assert!(delays.iter().any(|d| *d != delays[0]));
    assert_eq!(p.max_retries(), 4);
}

#[test]
fn a_server_error_is_tried_again_and_a_missing_day_is_not() {
    let p = RetryPolicy::new(1, 10, 10);
    let busy = Reply::Status { code: 503, text: "503 Service Unavailable".into() };
    assert!(matches!(next_step(&p, 0, &busy, "u"), FetchStep::Again { attempt: 1, .. }));
    assert!(matches!(next_step(&p, 1, &busy, "u"), FetchStep::Fail(_)));
    let gone = Reply::Status { code: 404, text: "404 Not Found".into() };
    assert!(matches!(next_step(&p, 0, &gone, "u"), FetchStep::Fail(_)));
    let fine = Reply::Status { code: 200, text: "200 OK".into() };
    assert!(matches!(next_step(&p, 0, &fine, "u"), FetchStep::Read));
    let lost = Reply::NotSent("reset".into());
    assert!(matches!(next_step(&p, 0, &lost, "u"), FetchStep::Again { .. }));
}

#[test]
fn a_daily_archive_has_its_address() {
    assert_eq!(
        daily_url("https://data.binance.vision", "futures/um", "BTCUSDT", "2026-08-01"),
        "https://data.binance.vision/data/futures/um/daily/aggTrades/BTCUSDT/BTCUSDT-aggTrades-2026-08-01.zip"
    );
}

fn archive(files: &[(&str, &str)]) -> Vec<u8> {
    let mut w = zip::ZipWriter::new(std::io::Cursor::new(Vec::new()));
    for (name, text) in files {
        w.start_file(*name, zip::write::SimpleFileOptions::default()).unwrap();
        w.write_all(text.as_bytes()).unwrap();
    }
    w.finish().unwrap().into_inner()
}

#[test]
fn the_one_text_of_an_archive_is_read() {
    let bytes = archive(&[("BTCUSDT-aggTrades-2026-08-01.CSV", "1,2,3\n"), ("readme.txt", "x")]);
    let text = unzip_single_csv(&bytes, "BTCUSDT", "2026-08-01").unwrap();
    assert_eq!(text, "1,2,3\n");
}

#[test]
fn an_archive_with_two_texts_or_none_is_refused() {
    let two = archive(&[("a.csv", "1"), ("b.csv", "2")]);
    let refused = unzip_single_csv(&two, "BTCUSDT", "2026-08-01");
    assert!(matches!(&refused, Err(StorageError::Refused(m)) if m.contains("a.csv")), "{refused:?}");
    let none = archive(&[("a.txt", "1")]);
    assert!(unzip_single_csv(&none, "BTCUSDT", "2026-08-01").is_err());
    assert!(unzip_single_csv(b"no archive", "BTCUSDT", "2026-08-01").is_err());
}

#[test]
fn the_names_of_an_archive_decide() {
    let names: Vec<String> = vec!["x.txt".into(), "y.csv".into()];
    assert_eq!(single_csv(&names, "s", "d").unwrap(), "y.csv");
    assert!(single_csv(&vec![], "s", "d").is_err());
}

fn numbers(text: &str) -> Vec<(Option<Real>, Option<Real>)> {
    agg_rows(text)
        .iter()
        .map(|row| {
            (
                row.price.parse::<f64>().ok().map(r),
                row.qty.parse::<f64>().ok().map(r),
            )
        })
        .collect()
}

#[test]
fn archive_lines_become_trades() {
    let text = "price,qty,quote_qty,time,is_buyer_maker\n\
                100.5,2,201,1700000000000,true\n\
                oops,2,201,1700000000001,false\n\
                101,0.5,50.5,1700000000002,False,true\n";
    let source = MockHistoricalSource { text: text.into() };
    let fetched = source.fetch_day("BTCUSDT", "2026-08-01").unwrap();
    let rows = agg_rows(&fetched);
    let events = parse_aggtrades(&rows, &numbers(&fetched), SymbolId(7));
    assert_eq!(events.len(), 2);
    assert_eq!(events[0].recv_ts_ns, 1_700_000_000_000_000_000);
    assert_eq!(events[0].symbol, SymbolId(7));
    match &events[0].body {
        MarketEvent::Trade { price, qty, side, .. } => {
            assert_eq!(*price, r(100.5));
            assert_eq!(*qty, r(2.0));
            assert_eq!(*side, Side::Sell);
        }
        other => panic!("{other:?}"),
    }
    assert!(matches!(&events[1].body, MarketEvent::Trade { side: Side::Buy, .. }));
}

#[test]
fn a_day_is_bootstrapped_once() {
    let text = "100.5,2,201,1700000000000,true\n";
    let rows = agg_rows(text);
    let events = parse_aggtrades(&rows, &numbers(text), SymbolId(0));
    let first = bootstrap_day("cold", "BTCUSDT", "2026-08-01", text, &events, &None, "aggTrade", 4);
    assert!(first.write);
    assert_eq!(first.stats.rows_written, 1);
    assert_eq!(first.stats.files_written, 1);
    assert_eq!(first.dest, historical_trades_file("cold", "BTCUSDT", "2026-08-01"));
    assert_eq!(first.manifest.source, "external_archive");
    let again = bootstrap_day(
        "cold",
        "BTCUSDT",
        "2026-08-01",
        text,
        &events,
        &Some(first.manifest.source_hash.clone()),
        "aggTrade",
        4,
    );
    assert!(!again.write);
    assert_eq!(again.stats.files_skipped, 1);
    let done = vec![
        historical_trades_file("cold", "BTCUSDT", "2026-08-01"),
        historical_manifest_file("cold", "BTCUSDT", "2026-08-01"),
    ];
    assert!(day_complete("cold", "BTCUSDT", "2026-08-01", &done));
    assert!(!day_complete("cold", "BTCUSDT", "2026-08-01", &vec![done[0].clone()]));
}

#[test]
fn the_default_configuration_is_that_of_the_archive() {
    let c = HistoricalConfig::default();
    assert!(c.download_base_url.contains("data.binance.vision"));
    assert!(f64::from_bits(c.download_rate_per_sec.bits) > 0.0);
}

#[test]
fn a_request_waits_no_longer_than_the_interval_takes() {
    let mut t = throttle(1.0);
    assert_eq!(t.wait_ns(0), 0);
    assert_eq!(t.wait_ns(999_999_999), 1);
    assert_eq!(t.wait_ns(2_000_000_000), 0);
    assert_eq!(t.wait_ns(9_000_000_000), 0);
}
