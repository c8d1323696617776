use rust_data_pipeline::bar::{InclusionPolicy, PriceBar};
use rust_data_pipeline::codec::{decode, encode};
use rust_data_pipeline::decimal::{parse_decimal, Decimal, MalformedNumber};
use rust_data_pipeline::error::{Field, PipelineError};
use rust_data_pipeline::normalize::normalize;
use rust_data_pipeline::parser::{
    label_of, parse_time_series, read_bar, read_bars, read_field, ParsedBar,
};

fn dec(negative: bool, digits: &[u8], scale: usize) -> Decimal {
    Decimal { negative, digits: digits.to_vec(), scale }
}

fn to_float(d: &Decimal) -> f64 {
    d.to_text().unwrap().parse::<f64>().unwrap()
}

fn to_price_bar(p: &ParsedBar) -> PriceBar {
    PriceBar {
        date: p.date.clone(),
        open: to_float(&p.open).to_bits(),
        high: to_float(&p.high).to_bits(),
        low: to_float(&p.low).to_bits(),
        close: to_float(&p.close).to_bits(),
        volume: to_float(&p.volume).to_bits(),
    }
}

fn malformed(text: &str) -> Result<Decimal, MalformedNumber> {
    Err(MalformedNumber { text: text.to_string() })
}

const TWO_DAYS: &str = r#"{
  "Meta Data": { "2. Symbol": "IBM" },
  "Time Series (Daily)": {
    "2024-01-02": { "1. open": "162.8300", "2. high": "163.2900", "3. low": "160.4600", "4. close": "161.5000", "5. volume": "3825044" },
    "2024-01-01": { "1. open": "160.0000", "2. high": "163.0000", "3. low": "159.5000", "4. close": "162.2500", "5. volume": "4000000" }
  }
}"#;

#[test]
fn numerals_are_read_exactly() {
    assert_eq!(parse_decimal("123.45"), Ok(dec(false, &[1, 2, 3, 4, 5], 2)));
    assert_eq!(parse_decimal("0"), Ok(dec(false, &[0], 0)));
    assert_eq!(parse_decimal("-0.5"), Ok(dec(true, &[0, 5], 1)));
    assert_eq!(parse_decimal("+7"), Ok(dec(false, &[7], 0)));
    assert_eq!(parse_decimal(".5"), Ok(dec(false, &[5], 1)));
    assert_eq!(parse_decimal("5."), Ok(dec(false, &[5], 0)));
    assert_eq!(parse_decimal("-0"), Ok(dec(true, &[0], 0)));
    assert_eq!(parse_decimal("007.10"), Ok(dec(false, &[0, 0, 7, 1, 0], 2)));
    assert_eq!(
        parse_decimal("123456789012345678901234567890.5"),
        Ok(dec(
            false,
            &[1, 2, 3, 4, 5, 6, 7, 8, 9, 0, 1, 2, 3, 4, 5, 6, 7, 8, 9, 0, 1, 2, 3, 4, 5, 6, 7, 8, 9, 0, 5],
            1
        ))
    );
    assert_eq!(to_float(&parse_decimal("162.8300").unwrap()), 162.83);
    assert_eq!(to_float(&parse_decimal("-12.5").unwrap()), -12.5);
}

#[test]
fn other_text_is_malformed() {
    for text in [
        "", ".", "+", "-", "+.", "-.", "1.2.3", "1..2", "abc", "not-a-number", "12a", "a12", "1 2",
        " 1", "1 ", "1e5", "1E5", "inf", "NaN", "infinity", "--1", "+-1", "1-", "1,5", "٣", "1٣",
        "1.٣", "é", "0x10", "1_000",
    ] {
        assert_eq!(parse_decimal(text), malformed(text));
    }
}

#[test]
fn labels_are_the_providers() {
    assert_eq!(label_of(Field::Open), "1. open");
    assert_eq!(label_of(Field::High), "2. high");
    assert_eq!(label_of(Field::Low), "3. low");
    assert_eq!(label_of(Field::Close), "4. close");
    assert_eq!(label_of(Field::Volume), "5. volume");
}

#[test]
fn two_days_are_parsed_with_their_dates() {
    let mut bars = parse_time_series(TWO_DAYS).unwrap();
    bars.sort_by(|a, b| a.date.cmp(&b.date));
    assert_eq!(bars.len(), 2);
    assert_eq!(
        bars[0],
        ParsedBar {
            date: "2024-01-01".to_string(),
            open: dec(false, &[1, 6, 0, 0, 0, 0, 0], 4),
            high: dec(false, &[1, 6, 3, 0, 0, 0, 0], 4),
            low: dec(false, &[1, 5, 9, 5, 0, 0, 0], 4),
            close: dec(false, &[1, 6, 2, 2, 5, 0, 0], 4),
            volume: dec(false, &[4, 0, 0, 0, 0, 0, 0], 0),
        }
    );
    assert_eq!(bars[1].date, "2024-01-02");
    assert_eq!(bars[1].volume, dec(false, &[3, 8, 2, 5, 0, 4, 4], 0));
}

#[test]
fn empty_series_gives_empty_sequence_and_valid_archive() {
    let parsed = parse_time_series(r#"{"Time Series (Daily)": {}}"#).unwrap();
    assert!(parsed.is_empty());
    let bars: Vec<PriceBar> = parsed.iter().map(to_price_bar).collect();
    let sorted = normalize(&bars, InclusionPolicy::AcceptAll);
    assert!(sorted.is_empty());
    let bytes = encode(&sorted);
    assert_eq!(decode(&bytes), Ok(Vec::new()));
}

#[test]
fn missing_series_key_is_unexpected_shape() {
    let body = r#"{"Note": "Thank you for using our API. Please slow down."}"#;
    assert_eq!(
        parse_time_series(body),
        Err(PipelineError::UnexpectedResponseShape { body: body.to_string() })
    );
    for body in ["[]", "null", "\"Time Series (Daily)\"", "12", r#"{"Time Series (Daily)": []}"#, r#"{"Time Series (Daily)": "x"}"#] {
        assert_eq!(
            parse_time_series(body),
            Err(PipelineError::UnexpectedResponseShape { body: body.to_string() })
        );
    }
}

#[test]
fn text_that_is_not_json_is_invalid_format() {
    for body in ["", "{", "<html></html>", "{\"Time Series (Daily)\": {}", "{} trailing"] {
        assert_eq!(parse_time_series(body), Err(PipelineError::InvalidResponseFormat));
    }
}

#[test]
fn malformed_open_names_date_and_field() {
    let body = r#"{"Time Series (Daily)": {"2024-01-02": {"1. open": "not-a-number", "2. high": "1", "3. low": "1", "4. close": "1", "5. volume": "1"}}}"#;
    assert_eq!(
        parse_time_series(body),
        Err(PipelineError::MalformedNumber {
            date: "2024-01-02".to_string(),
            field: Field::Open,
            text: "not-a-number".to_string(),
        })
    );
}

#[test]
fn first_bad_field_of_a_day_is_reported() {
    let body = r#"{"Time Series (Daily)": {"2024-01-02": {"5. volume": "x", "4. close": "", "3. low": "1", "2. high": "1", "1. open": "1"}}}"#;
    assert_eq!(
        parse_time_series(body),
        Err(PipelineError::MalformedNumber {
            date: "2024-01-02".to_string(),
            field: Field::Close,
            text: "".to_string(),
        })
    );
}

#[test]
fn day_without_a_labelled_string_is_unexpected_shape() {
    let shape = |body: &str| Err(PipelineError::UnexpectedResponseShape { body: body.to_string() });
    let missing = r#"{"Time Series (Daily)": {"2024-01-02": {"1. open": "1", "2. high": "1", "3. low": "1", "4. close": "1"}}}"#;
    assert_eq!(parse_time_series(missing), shape(missing));
    let number = r#"{"Time Series (Daily)": {"2024-01-02": {"1. open": 1.5, "2. high": "1", "3. low": "1", "4. close": "1", "5. volume": "1"}}}"#;
    assert_eq!(parse_time_series(number), shape(number));
    let no_object = r#"{"Time Series (Daily)": {"2024-01-02": "1"}}"#;
    assert_eq!(parse_time_series(no_object), shape(no_object));
}

#[test]
fn extra_members_are_ignored() {
    let body = r#"{"Time Series (Daily)": {"2024-01-02": {"1. open": "1", "2. high": "2", "3. low": "3", "4. close": "4", "5. volume": "5", "6. other": true}}, "x": 1}"#;
    let bars = parse_time_series(body).unwrap();
    assert_eq!(bars.len(), 1);
    assert_eq!(bars[0].close, dec(false, &[4], 0));
}

#[test]
fn fields_and_days_are_read_from_values() {
    let day = serde_json::from_str::<serde_json::Value>(
        r#"{"1. open": "1.5", "2. high": "2", "3. low": "oops", "4. close": 4, "5. volume": "5"}"#,
    )
    .unwrap();
    assert_eq!(read_field("d", &day, Field::Open, "body"), Ok(dec(false, &[1, 5], 1)));
    assert_eq!(read_field("d", &day, Field::High, "body"), Ok(dec(false, &[2], 0)));
    assert_eq!(
        read_field("d", &day, Field::Low, "body"),
        Err(PipelineError::MalformedNumber { date: "d".to_string(), field: Field::Low, text: "oops".to_string() })
    );
    assert_eq!(
        read_field("d", &day, Field::Close, "body"),
        Err(PipelineError::UnexpectedResponseShape { body: "body".to_string() })
    );
    assert_eq!(
        read_bar("d", &day, "body"),
        Err(PipelineError::MalformedNumber { date: "d".to_string(), field: Field::Low, text: "oops".to_string() })
    );
    let good = serde_json::from_str::<serde_json::Value>(
        r#"{"1. open": "1", "2. high": "2", "3. low": "3", "4. close": "4", "5. volume": "5"}"#,
    )
    .unwrap();
    let bar = read_bar("2024-02-29", &good, "body").unwrap();
    assert_eq!(bar.date, "2024-02-29");
    assert_eq!(bar.low, dec(false, &[3], 0));
    let entries = vec![("b".to_string(), &good), ("a".to_string(), &day), ("c".to_string(), &day)];
    assert_eq!(
        read_bars(&entries, "body"),
        Err(PipelineError::MalformedNumber { date: "a".to_string(), field: Field::Low, text: "oops".to_string() })
    );
    let fine = vec![("b".to_string(), &good), ("a".to_string(), &good)];
    let bars = read_bars(&fine, "body").unwrap();
    assert_eq!(bars.len(), 2);
    assert_eq!(bars[0].date, "b");
    assert_eq!(bars[1].date, "a");
    assert_eq!(read_bars(&Vec::new(), "body"), Ok(Vec::new()));
}

#[test]
fn two_day_fixture_decodes_in_date_order() {
    let parsed = parse_time_series(TWO_DAYS).unwrap();
    let mut bars: Vec<PriceBar> = parsed.iter().map(to_price_bar).collect();
    bars.sort_by(|a, b| b.date.cmp(&a.date));
    assert_eq!(bars[0].date, "2024-01-02");
    let sorted = normalize(&bars, InclusionPolicy::AcceptAll);
    let bytes = encode(&sorted);
    let back = decode(&bytes).unwrap();
    let dates: Vec<&str> = back.iter().map(|b| b.date.as_str()).collect();
    assert_eq!(dates, vec!["2024-01-01", "2024-01-02"]);
    assert_eq!(f64::from_bits(back[0].close), 162.25);
    assert_eq!(f64::from_bits(back[1].open), 162.83);
    assert_eq!(f64::from_bits(back[1].volume), 3825044.0);
    assert!(back.iter().all(|b| b.is_valid()));
}

#[test]
fn request_url_embeds_symbol_and_key() {
    assert_eq!(
        rust_data_pipeline::pipeline::request_url("IBM", "demo"),
        "https://www.alphavantage.co/query?function=TIME_SERIES_DAILY&symbol=IBM&apikey=demo"
    );
    assert_eq!(
        rust_data_pipeline::pipeline::request_url("", ""),
        "https://www.alphavantage.co/query?function=TIME_SERIES_DAILY&symbol=&apikey="
    );
    assert_eq!(
        rust_data_pipeline::pipeline::request_url("A B&c", "k=1"),
        "https://www.alphavantage.co/query?function=TIME_SERIES_DAILY&symbol=A B&c&apikey=k=1"
    );
}

#[test]
fn built_archive_is_the_encoding_of_the_normalised_bars() {
    let parsed = parse_time_series(TWO_DAYS).unwrap();
    let mut bars: Vec<PriceBar> = parsed.iter().map(to_price_bar).collect();
    bars.sort_by(|a, b| b.date.cmp(&a.date));
    let mut zero = bars[0].clone();
    zero.date = "2023-12-29".to_string();
    zero.close = 0.0f64.to_bits();
    bars.push(zero.clone());
    let all = rust_data_pipeline::pipeline::build_archive(&bars, InclusionPolicy::AcceptAll);
    assert_eq!(all, encode(&normalize(&bars, InclusionPolicy::AcceptAll)));
    let back = decode(&all).unwrap();
    assert_eq!(back.len(), 3);
    assert_eq!(back[0], zero);
    assert_eq!(back[1].date, "2024-01-01");
    assert_eq!(back[2].date, "2024-01-02");
    let strict = rust_data_pipeline::pipeline::build_archive(&bars, InclusionPolicy::RejectNonPositiveClose);
    let back = decode(&strict).unwrap();
    assert_eq!(back.len(), 2);
    assert_eq!(back[0].date, "2024-01-01");
    assert_eq!(back[1].date, "2024-01-02");
}

#[test]
fn decimals_are_written_as_numerals() {
    assert_eq!(dec(false, &[1, 2, 3, 4, 5], 2).to_text(), Some("123.45".to_string()));
    assert_eq!(dec(true, &[0, 5], 1).to_text(), Some("-0.5".to_string()));
    assert_eq!(dec(false, &[5], 1).to_text(), Some(".5".to_string()));
    assert_eq!(dec(false, &[7], 0).to_text(), Some("7".to_string()));
    assert_eq!(dec(true, &[0], 0).to_text(), Some("-0".to_string()));
    assert_eq!(dec(false, &[0, 0, 7, 1, 0], 2).to_text(), Some("007.10".to_string()));
    assert_eq!(dec(false, &[], 0).to_text(), None);
    assert_eq!(dec(false, &[1], 2).to_text(), None);
    assert_eq!(dec(false, &[1, 10], 0).to_text(), None);
    assert!(dec(false, &[9, 0], 2).is_well_formed());
    assert!(!dec(false, &[9, 200], 1).is_well_formed());
}

#[test]
fn written_numerals_read_back() {
    for text in ["0", "-0", "12.5", "-12.5", ".25", "100", "0.000001", "98765432109876543210.0123456789"] {
        let d = parse_decimal(text).unwrap();
        let written = d.to_text().unwrap();
        assert_eq!(parse_decimal(&written), Ok(d));
    }
    assert_eq!(parse_decimal("+5.").unwrap().to_text(), Some("5".to_string()));
    assert_eq!(parse_decimal("5.").unwrap(), parse_decimal("5").unwrap());
}
