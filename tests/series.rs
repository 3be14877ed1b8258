use stocks::number::{parse_count, parse_price, Price};
use stocks::request::{
    build_request, series_key, snapshot, AlphaVantageClient, AlphaVantageError,
    AlphaVantageRequest, StocksError,
};
use stocks::series::{
    entry_from_parsed, parse_entry, parse_response, same_text, sort_entries, AlphaVantageResponse,
    NormalizeError, RawEntry, SeriesEntry,
};
use stocks::timestamp::{parse_timestamp, DateTime};

fn price(mantissa: u64, scale: usize) -> Price {
    Price { mantissa, scale }
}

fn as_f64(p: Price) -> f64 {
    p.mantissa as f64 / 10f64.powi(p.scale as i32)
}

fn raw(timestamp: &str, fields: &[(&str, &str)]) -> RawEntry {
    RawEntry {
        timestamp: timestamp.to_string(),
        fields: fields.iter().map(|(l, v)| (l.to_string(), v.to_string())).collect(),
    }
}

fn response(entries: Vec<RawEntry>) -> AlphaVantageResponse {
    AlphaVantageResponse { time_series: entries }
}

fn entry(date: DateTime, volume: u64) -> SeriesEntry {
    SeriesEntry {
        date,
        open: Price::zero(),
        high: Price::zero(),
        low: Price::zero(),
        close: Price::zero(),
        volume,
    }
}

#[test]
fn two_entries_are_typed_and_ordered() {
    let res = response(vec![
        raw(
            "2024-01-02 10:00:00",
            &[
                ("1. open", "10.0"),
                ("2. high", "11.0"),
                ("3. low", "9.5"),
                ("4. close", "10.5"),
                ("5. volume", "1000"),
            ],
        ),
        raw("2024-01-02 09:00:00", &[("4. close", "9.0")]),
    ]);
    let series = parse_response(&res).unwrap();
    assert_eq!(series.len(), 2);
    assert_eq!(series[0].date, DateTime::new(2024, 1, 2, 9, 0, 0));
    assert_eq!(series[0].open, Price::zero());
    assert_eq!(series[0].high, Price::zero());
    assert_eq!(series[0].low, Price::zero());
    assert_eq!(series[0].close, price(90, 1));
    assert_eq!(as_f64(series[0].close), 9.0);
    assert_eq!(series[0].volume, 0);
    assert_eq!(series[1].date, DateTime::new(2024, 1, 2, 10, 0, 0));
    assert_eq!(as_f64(series[1].open), 10.0);
    assert_eq!(as_f64(series[1].high), 11.0);
    assert_eq!(as_f64(series[1].low), 9.5);
    assert_eq!(as_f64(series[1].close), 10.5);
    assert_eq!(series[1].volume, 1000);
}

#[test]
fn empty_response_gives_empty_series() {
    let series = parse_response(&response(vec![])).unwrap();
    assert!(series.is_empty());
}

#[test]
fn transport_failure_is_handed_on() {
    let r = snapshot(Err(AlphaVantageError::TransportError));
    assert_eq!(r, Err(StocksError::Fetch(AlphaVantageError::TransportError)));
    let r = snapshot(Err(AlphaVantageError::BodyReadError));
    assert_eq!(r, Err(StocksError::Fetch(AlphaVantageError::BodyReadError)));
    let r = snapshot(Err(AlphaVantageError::DeserializationError));
    assert_eq!(r, Err(StocksError::Fetch(AlphaVantageError::DeserializationError)));
}

#[test]
fn snapshot_normalizes_a_fetched_series() {
    let res = response(vec![raw("2024-01-02 10:00:00", &[("5. volume", "7")])]);
    let series = snapshot(Ok(res)).unwrap();
    assert_eq!(series, vec![entry(DateTime::new(2024, 1, 2, 10, 0, 0), 7)]);
    let bad = response(vec![raw("2024-01-02", &[])]);
    assert_eq!(
        snapshot(Ok(bad)),
        Err(StocksError::Normalize(NormalizeError::InvalidTimestamp))
    );
}

#[test]
fn timestamp_key_parses_to_seconds() {
    assert_eq!(
        parse_timestamp("2024-01-02 09:30:00"),
        Some(DateTime::new(2024, 1, 2, 9, 30, 0))
    );
    assert_eq!(
        parse_timestamp("1999-12-31 23:59:59"),
        Some(DateTime::new(1999, 12, 31, 23, 59, 59))
    );
}

#[test]
fn malformed_timestamp_fails_normalization() {
    assert_eq!(parse_timestamp("2024-01-02"), None);
    assert_eq!(parse_timestamp("2024-13-02 09:30:00"), None);
    let res = response(vec![
        raw("2024-01-02 09:00:00", &[("4. close", "9.0")]),
        raw("2024-01-02", &[("4. close", "9.0")]),
    ]);
    assert_eq!(parse_response(&res), Err(NormalizeError::InvalidTimestamp));
}

#[test]
fn unreadable_value_fails_normalization() {
    let res = response(vec![raw("2024-01-02 09:00:00", &[("1. open", "ten")])]);
    assert_eq!(parse_response(&res), Err(NormalizeError::InvalidValue));
    let res = response(vec![raw("2024-01-02 09:00:00", &[("5. volume", "1.5")])]);
    assert_eq!(parse_response(&res), Err(NormalizeError::InvalidValue));
}

#[test]
fn first_failing_entry_decides_the_error() {
    let res = response(vec![
        raw("2024-01-02 09:00:00", &[("2. high", "x")]),
        raw("bad", &[]),
    ]);
    assert_eq!(parse_response(&res), Err(NormalizeError::InvalidValue));
    let res = response(vec![
        raw("bad", &[]),
        raw("2024-01-02 09:00:00", &[("2. high", "x")]),
    ]);
    assert_eq!(parse_response(&res), Err(NormalizeError::InvalidTimestamp));
}

#[test]
fn all_labels_map_whatever_their_order() {
    let date = DateTime::new(2024, 3, 4, 5, 6, 7);
    let a = entry_from_parsed(
        Some(date),
        &raw(
            "",
            &[
                ("5. volume", "42"),
                ("3. low", "1.25"),
                ("1. open", "2"),
                ("4. close", "3.5"),
                ("2. high", "4.75"),
            ],
        )
        .fields,
    )
    .unwrap();
    assert_eq!(
        a,
        SeriesEntry {
            date,
            open: price(2, 0),
            high: price(475, 2),
            low: price(125, 2),
            close: price(35, 1),
            volume: 42,
        }
    );
    let b = entry_from_parsed(
        Some(date),
        &raw(
            "",
            &[
                ("1. open", "2"),
                ("2. high", "4.75"),
                ("3. low", "1.25"),
                ("4. close", "3.5"),
                ("5. volume", "42"),
            ],
        )
        .fields,
    )
    .unwrap();
    assert_eq!(a, b);
}

#[test]
fn missing_labels_are_zero() {
    let date = DateTime::new(2024, 3, 4, 5, 6, 7);
    let e = entry_from_parsed(Some(date), &raw("", &[("2. high", "4.75")]).fields).unwrap();
    assert_eq!(e.open, Price::zero());
    assert_eq!(e.high, price(475, 2));
    assert_eq!(e.low, Price::zero());
    assert_eq!(e.close, Price::zero());
    assert_eq!(e.volume, 0);
    let e = entry_from_parsed(Some(date), &Vec::new()).unwrap();
    assert_eq!(e, entry(date, 0));
}

#[test]
fn unknown_labels_are_ignored() {
    let with_extra = raw(
        "2024-01-02 09:00:00",
        &[
            ("1. open", "1.5"),
            ("6. dividend", "not a number"),
            ("5. volume", "9"),
            ("open", "x"),
        ],
    );
    let without = raw("2024-01-02 09:00:00", &[("1. open", "1.5"), ("5. volume", "9")]);
    assert_eq!(parse_entry(&with_extra), parse_entry(&without));
    assert_eq!(parse_entry(&with_extra).unwrap().open, price(15, 1));
}

#[test]
fn missing_timestamp_is_reported_before_values() {
    assert_eq!(
        entry_from_parsed(None, &raw("", &[("1. open", "x")]).fields),
        Err(NormalizeError::InvalidTimestamp)
    );
}

#[test]
fn series_is_sorted_whatever_the_input_order() {
    let keys = [
        "2024-01-03 09:00:00",
        "2023-12-31 23:00:00",
        "2024-01-02 10:00:00",
        "2024-01-02 09:00:00",
    ];
    let forward = response(keys.iter().map(|k| raw(k, &[])).collect());
    let backward = response(keys.iter().rev().map(|k| raw(k, &[])).collect());
    let a = parse_response(&forward).unwrap();
    let b = parse_response(&backward).unwrap();
    assert_eq!(a.len(), 4);
    assert_eq!(a, b);
    for w in a.windows(2) {
        assert!(w[0].date.is_at_or_before(&w[1].date));
    }
    assert_eq!(a[0].date, DateTime::new(2023, 12, 31, 23, 0, 0));
    assert_eq!(a[3].date, DateTime::new(2024, 1, 3, 9, 0, 0));
}

#[test]
fn equal_dates_keep_their_order() {
    let d1 = DateTime::new(2024, 1, 2, 9, 0, 0);
    let d0 = DateTime::new(2024, 1, 1, 9, 0, 0);
    let sorted = sort_entries(vec![entry(d1, 1), entry(d0, 2), entry(d1, 3), entry(d0, 4)]);
    let volumes: Vec<u64> = sorted.iter().map(|e| e.volume).collect();
    assert_eq!(volumes, vec![2, 4, 1, 3]);
}

#[test]
fn date_order_compares_from_the_year_down() {
    let a = DateTime::new(2024, 1, 2, 9, 30, 0);
    assert!(a.is_at_or_before(&a));
    assert!(a.is_at_or_before(&DateTime::new(2024, 1, 2, 9, 30, 1)));
    assert!(!a.is_at_or_before(&DateTime::new(2023, 12, 31, 23, 59, 59)));
    assert!(a.is_at_or_before(&DateTime::new(2025, 1, 1, 0, 0, 0)));
}

#[test]
fn prices_read_exactly() {
    assert_eq!(parse_price("10.5000"), Some(price(105000, 4)));
    assert_eq!(parse_price("10"), Some(price(10, 0)));
    assert_eq!(parse_price(".5"), Some(price(5, 1)));
    assert_eq!(parse_price("7."), Some(price(7, 0)));
    assert_eq!(parse_price("0.0001"), Some(price(1, 4)));
    assert_eq!(parse_price("18446744073709551615"), Some(price(u64::MAX, 0)));
    assert_eq!(parse_price("18446744073709551616"), None);
    assert_eq!(parse_price(""), None);
    assert_eq!(parse_price("."), None);
    assert_eq!(parse_price("1.2.3"), None);
    assert_eq!(parse_price("-1.5"), None);
    assert_eq!(parse_price("1e5"), None);
}

#[test]
fn counts_read_exactly() {
    assert_eq!(parse_count("1000"), Some(1000));
    assert_eq!(parse_count("+5"), Some(5));
    assert_eq!(parse_count("0"), Some(0));
    assert_eq!(parse_count("18446744073709551615"), Some(u64::MAX));
    assert_eq!(parse_count("18446744073709551616"), None);
    assert_eq!(parse_count(""), None);
    assert_eq!(parse_count("+"), None);
    assert_eq!(parse_count("-5"), None);
    assert_eq!(parse_count("1.0"), None);
}

#[test]
fn text_comparison() {
    assert!(same_text("1. open", "1. open"));
    assert!(!same_text("1. open", "1. opem"));
    assert!(!same_text("1. open", "1. ope"));
    assert!(same_text("", ""));
}

#[test]
fn request_parameters() {
    let req = build_request("TIME_SERIES_INTRADAY", "TEAM", "60min");
    assert_eq!(
        req,
        AlphaVantageRequest::new(
            "TIME_SERIES_INTRADAY".to_string(),
            "TEAM".to_string(),
            "60min".to_string()
        )
    );
    let client = AlphaVantageClient::new("SECRET-REDACTED".to_string());
    let pairs = client.query_pairs(&req);
    let expected: Vec<(String, String)> = [
        ("function", "TIME_SERIES_INTRADAY"),
        ("symbol", "TEAM"),
        ("interval", "60min"),
        ("apikey", "SECRET-REDACTED"),
    ]
    .iter()
    .map(|(a, b)| (a.to_string(), b.to_string()))
    .collect();
    assert_eq!(pairs, expected);
    let empty = AlphaVantageClient::new(String::new());
    assert_eq!(empty.query_pairs(&req)[3], ("apikey".to_string(), String::new()));
}

#[test]
fn series_key_names_the_interval() {
    assert_eq!(series_key("60min"), "Time Series (60min)");
    assert_eq!(series_key("5min"), "Time Series (5min)");
}

#[test]
fn default_entry_is_zero_at_the_epoch() {
    let e = SeriesEntry::default();
    assert_eq!(e, entry(DateTime::new(1970, 1, 1, 0, 0, 0), 0));
}
