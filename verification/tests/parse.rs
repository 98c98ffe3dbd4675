use detecta_fraude::consts::mcc_risk_lookup;
use detecta_fraude::parse::{
    expect, is_null, merchant_in_known, parse_payload, read_array_raw, read_bool, read_number,
    read_number_u32, read_string, skip_value, skip_ws, Number, ParseError, RawPayload,
};
use detecta_fraude::text::bytes_eq;
use detecta_fraude::time::{days_from_civil, dig2, dig4, parse_iso8601, Stamp};
use detecta_fraude::vectorize::{vectorize_q, Measures};

const SAMPLE: &[u8] = br#"{"id":"a","transaction":{"amount":384.88,"installments":3,"requested_at":"2026-03-11T20:23:35Z"},"customer":{"avg_amount":769.76,"tx_count_24h":3,"known_merchants":["MERC-009","MERC-001"]},"merchant":{"id":"MERC-001","mcc":"5912","avg_amount":298.95},"terminal":{"is_online":false,"card_present":true,"km_from_home":13.7090520965},"last_transaction":{"timestamp":"2026-03-11T14:58:35Z","km_from_current":18.8626479774}}"#;

const NO_LAST: &[u8] = br#"{"id":"b","transaction":{"amount":41.12,"installments":2,"requested_at":"2026-03-11T18:45:53Z"},"customer":{"avg_amount":82.24,"tx_count_24h":3,"known_merchants":["MERC-003","MERC-016"]},"merchant":{"id":"MERC-016","mcc":"5411","avg_amount":60.25},"terminal":{"is_online":false,"card_present":true,"km_from_home":29.23},"last_transaction":null}"#;

fn text(n: &Number) -> String {
    format!(
        "{}{}.{}e{}",
        if n.neg { "-" } else { "" },
        String::from_utf8_lossy(n.int_digits),
        String::from_utf8_lossy(n.frac_digits),
        n.exp
    )
}

#[test]
fn a_payload_is_read() {
    let p = parse_payload(SAMPLE).unwrap();
    assert_eq!(text(&p.amount), "384.88e0");
    assert_eq!(p.installments, 3);
    assert_eq!(p.requested_at.hour, 20);
    assert_eq!(p.requested_at.weekday, 2);
    assert_eq!(text(&p.customer_avg_amount), "769.76e0");
    assert_eq!(p.tx_count_24h, 3);
    assert_eq!(p.known_merchants_buf, br#"["MERC-009","MERC-001"]"#);
    assert_eq!(p.merchant_id, b"MERC-001");
    assert_eq!(p.merchant_mcc, b"5912");
    assert_eq!(text(&p.merchant_avg_amount), "298.95e0");
    assert!(!p.is_online);
    assert!(p.card_present);
    assert_eq!(text(&p.km_from_home), "13.7090520965e0");
    assert!(p.has_last_tx);
    assert_eq!(
        p.requested_at.epoch_minutes - p.last_tx_stamp.epoch_minutes,
        5 * 60 + 25
    );
    assert_eq!(text(&p.last_tx_km), "18.8626479774e0");
}

#[test]
fn a_missing_last_transaction_is_noticed() {
    let p = parse_payload(NO_LAST).unwrap();
    assert!(!p.has_last_tx);
    assert_eq!(p.last_tx_stamp, Stamp::default());
    assert_eq!(text(&p.last_tx_km), ".e0");
}

#[test]
fn an_empty_payload_says_nothing() {
    let p = parse_payload(b" { } trailing").unwrap();
    let d = RawPayload::default();
    assert_eq!(p.installments, d.installments);
    assert_eq!(p.merchant_id, b"");
    assert_eq!(p.requested_at, Stamp::default());
    assert!(!p.has_last_tx);
}

#[test]
fn unknown_members_are_skipped() {
    let p = parse_payload(
        br#"{"x":{"a":[1,{"b":"}"}]},"y":true,"z":-1.5e3,"transaction":{"note":null,"installments":7},"w":"{"}"#,
    )
    .unwrap();
    assert_eq!(p.installments, 7);
}

#[test]
fn the_last_of_equal_members_counts() {
    let p = parse_payload(br#"{"transaction":{"installments":1},"transaction":{"installments":2}}"#)
        .unwrap();
    assert_eq!(p.installments, 2);
}

#[test]
fn damaged_payloads_are_refused() {
    for bad in [
        &b""[..],
        b"[]",
        b"{",
        b"{\"a\"}",
        b"{\"a\":1",
        b"{\"a\":\"x\";}",
        b"{\"transaction\":1}",
        b"{\"transaction\":{\"amount\":\"x\"}}",
        b"{\"transaction\":{\"amount\":-}}",
        b"{\"transaction\":{\"amount\":1e}}",
        b"{\"transaction\":{\"installments\":-1}}",
        b"{\"transaction\":{\"requested_at\":\"2026-13-11T20:23:35Z\"}}",
        b"{\"transaction\":{\"requested_at\":\"2026-03-11\"}}",
        b"{\"customer\":{\"known_merchants\":{}}}",
        b"{\"customer\":{\"known_merchants\":[\"a\"}}",
        b"{\"terminal\":{\"is_online\":1}}",
        b"{\"merchant\":{\"id\":7}}",
        b"{\"last_transaction\":7}",
    ] {
        assert_eq!(parse_payload(bad).err(), Some(ParseError));
    }
}

#[test]
fn white_space_is_skipped() {
    assert_eq!(skip_ws(b" \t\r\n x", 0), 5);
    assert_eq!(skip_ws(b"x", 0), 0);
    assert_eq!(skip_ws(b"  ", 1), 2);
    assert_eq!(expect(b"  :1", 0, b':'), Ok(3));
    assert_eq!(expect(b"  ;1", 0, b':'), Err(ParseError));
    assert_eq!(expect(b"  ", 0, b':'), Err(ParseError));
}

#[test]
fn strings_end_at_the_next_quote() {
    assert_eq!(read_string(br#" "ab\"c""#, 0), Ok((&b"ab\\"[..], 6)));
    assert_eq!(read_string(br#""ab"#, 0), Err(ParseError));
    assert_eq!(read_string(b"ab", 0), Err(ParseError));
}

#[test]
fn numbers_are_taken_apart() {
    let (n, e) = read_number(b" -12.340E-05,", 0).unwrap();
    assert_eq!(text(&n), "-12.340e-5");
    assert_eq!(e, 12);
    let (n, e) = read_number(b"+.5", 0).unwrap();
    assert_eq!(text(&n), ".5e0");
    assert_eq!(e, 3);
    let (n, _) = read_number(b"7.", 0).unwrap();
    assert_eq!(text(&n), "7.e0");
    let (n, _) = read_number(b"1e99999999999", 0).unwrap();
    assert_eq!(n.exp, i32::MAX);
    let (n, _) = read_number(b"1e-99999999999", 0).unwrap();
    assert_eq!(n.exp, -i32::MAX);
    for bad in [&b"."[..], b"-", b"e5", b"1e+", b""] {
        assert!(read_number(bad, 0).is_err());
    }
}

#[test]
fn counts_are_capped() {
    assert_eq!(read_number_u32(b" 42]", 0), Ok((42, 3)));
    assert_eq!(read_number_u32(b"4294967295", 0), Ok((u32::MAX, 10)));
    assert_eq!(read_number_u32(b"4294967296", 0), Ok((u32::MAX, 10)));
    assert_eq!(read_number_u32(b"99999999999999999999", 0), Ok((u32::MAX, 20)));
    assert_eq!(read_number_u32(b"-1", 0), Err(ParseError));
}

#[test]
fn truth_values_and_null_are_words() {
    assert_eq!(read_bool(b" true,", 0), Ok((true, 5)));
    assert_eq!(read_bool(b"falsey", 0), Ok((false, 5)));
    assert_eq!(read_bool(b"tru", 0), Err(ParseError));
    assert!(is_null(b" null", 0));
    assert!(!is_null(b"nul", 0));
}

#[test]
fn values_are_skipped_whole() {
    assert_eq!(skip_value(br#" "a}b" ,"#, 0), Ok(6));
    assert_eq!(skip_value(br#"{"a":{"b":"}"}},"#, 0), Ok(15));
    assert_eq!(skip_value(br#"[[1],[2]]]"#, 0), Ok(9));
    assert_eq!(skip_value(b"true", 0), Ok(4));
    // Words are taken at their first letter.
    assert_eq!(skip_value(b"f", 0), Ok(5));
    assert_eq!(skip_value(b"-1.5e3}", 0), Ok(6));
    assert_eq!(skip_value(b"[1", 0), Err(ParseError));
    assert_eq!(skip_value(b"[\"", 0), Err(ParseError));
    assert_eq!(skip_value(b"\"a", 0), Err(ParseError));
    assert_eq!(skip_value(b"  ", 0), Err(ParseError));
    assert_eq!(read_array_raw(b" [1,[2]],", 0), Ok((&b"[1,[2]]"[..], 8)));
    assert_eq!(read_array_raw(b"{}", 0), Err(ParseError));
}

#[test]
fn known_merchants_are_found_by_whole_name() {
    let known = br#"["MERC-009", "MERC-001"]"#;
    assert!(merchant_in_known(known, b"MERC-001"));
    assert!(merchant_in_known(known, b"MERC-009"));
    assert!(!merchant_in_known(known, b"MERC-00"));
    assert!(!merchant_in_known(known, b""));
    assert!(!merchant_in_known(b"[]", b"MERC-001"));
    // What stands between two names is no name.
    assert!(!merchant_in_known(known, b", "));
    // The last name need not be closed.
    assert!(merchant_in_known(b"\"abc", b"abc"));
}

#[test]
fn merchant_risks_are_looked_up() {
    assert_eq!(mcc_risk_lookup(b"5411"), 1500);
    assert_eq!(mcc_risk_lookup(b"7995"), 8500);
    assert_eq!(mcc_risk_lookup(b"0000"), 5000);
    assert_eq!(mcc_risk_lookup(b"54110"), 5000);
    assert_eq!(mcc_risk_lookup(b"541"), 5000);
    assert_eq!(mcc_risk_lookup(b"5a11"), 5000);
}

#[test]
fn byte_strings_are_compared() {
    assert!(bytes_eq(b"abc", b"abc"));
    assert!(!bytes_eq(b"abc", b"abd"));
    assert!(!bytes_eq(b"abc", b"ab"));
}

#[test]
fn timestamps_are_read() {
    let t = parse_iso8601(b"1970-01-01T00:00:00Z").unwrap();
    assert_eq!(t, Stamp { epoch_minutes: 0, hour: 0, weekday: 3 });
    let t = parse_iso8601(b"2026-03-11T20:23:35Z").unwrap();
    assert_eq!(t.epoch_minutes, 1_773_260_615 / 60);
    assert_eq!(t.weekday, 2);
    let t = parse_iso8601(b"1969-12-31T23:59:59Z").unwrap();
    assert_eq!(t, Stamp { epoch_minutes: -1, hour: 23, weekday: 2 });
    // A leap second belongs to the next minute.
    let t = parse_iso8601(b"2016-12-31T23:59:60Z").unwrap();
    assert_eq!(t.epoch_minutes, 1_483_228_800 / 60);
    for bad in [
        &b"2026-03-11T20:23:3"[..],
        b"2026-00-11T20:23:35Z",
        b"2026-13-11T20:23:35Z",
        b"2026-03-00T20:23:35Z",
        b"2026-03-32T20:23:35Z",
        b"2026-03-11T24:23:35Z",
        b"2026-03-11T20:60:35Z",
        b"2026-03-11T20:23:61Z",
    ] {
        assert_eq!(parse_iso8601(bad), None);
    }
}

#[test]
fn days_follow_the_calendar() {
    assert_eq!(days_from_civil(1970, 1, 1), 0);
    assert_eq!(days_from_civil(2000, 2, 29) + 1, days_from_civil(2000, 3, 1));
    assert_eq!(days_from_civil(1900, 2, 28) + 1, days_from_civil(1900, 3, 1));
    assert_eq!(days_from_civil(2024, 12, 31) + 1, days_from_civil(2025, 1, 1));
    assert_eq!(days_from_civil(0, 1, 1), -719_528);
    assert_eq!(days_from_civil(-400, 1, 1), -719_528 - 146_097);
    assert_eq!(dig2(b"x42", 1), 42);
    assert_eq!(dig4(b"2026", 0), 2026);
}

fn quantize(v: f64) -> i16 {
    if v <= -1.0 {
        return -10_000;
    }
    if v <= 0.0 {
        return 0;
    }
    if v >= 1.0 {
        return 10_000;
    }
    (v * 10_000.0).round() as i16
}

const NOTHING: Measures = Measures {
    amount: 0,
    ratio: 0,
    last_km: 0,
    home_km: 0,
    merchant_amount: 0,
};

#[test]
fn shares_agree_with_real_arithmetic() {
    let mut p = RawPayload::default();
    for hour in 0..24u8 {
        p.requested_at.hour = hour;
        assert_eq!(vectorize_q(&p, &NOTHING)[3], quantize(hour as f64 / 23.0));
    }
    for day in 0..7u8 {
        p.requested_at.weekday = day;
        assert_eq!(vectorize_q(&p, &NOTHING)[4], quantize(day as f64 / 6.0));
    }
    for n in 0..40u32 {
        p.installments = n;
        p.tx_count_24h = n;
        let q = vectorize_q(&p, &NOTHING);
        assert_eq!(q[1], quantize((n as f64 / 12.0).min(1.0)));
        assert_eq!(q[8], quantize((n as f64 / 20.0).min(1.0)));
    }
    p.has_last_tx = true;
    for minutes in -10..1500i64 {
        p.requested_at.epoch_minutes = 28_000_000 + minutes;
        p.last_tx_stamp.epoch_minutes = 28_000_000;
        let v = (minutes as f64 / 1440.0).max(0.0).min(1.0);
        assert_eq!(vectorize_q(&p, &NOTHING)[5], quantize(v));
    }
}

#[test]
fn a_payload_becomes_a_vector() {
    let m = Measures {
        amount: 385,
        ratio: 500,
        last_km: 189,
        home_km: 137,
        merchant_amount: 299,
    };
    let q = vectorize_q(&parse_payload(SAMPLE).unwrap(), &m);
    assert_eq!(
        q,
        [385, 2500, 500, 8696, 3333, 2257, 189, 137, 1500, 0, 10_000, 0, 2000, 299, 0, 0]
    );
    let q = vectorize_q(&parse_payload(NO_LAST).unwrap(), &m);
    assert_eq!(q[5], -10_000);
    assert_eq!(q[6], -10_000);
    assert_eq!(q[12], 1500);
}

#[test]
fn bytes_behind_a_payload_do_not_matter() {
    let body = br#"{"transaction":{"amount":1.5e2,"installments":3},"last_transaction":null}"#;
    let alone = format!("{:?}", parse_payload(body).unwrap());
    for more in ["}", "9", ",\"transaction\":{\"installments\":4}}", " \n", "null"] {
        let mut longer = body.to_vec();
        longer.extend_from_slice(more.as_bytes());
        assert_eq!(format!("{:?}", parse_payload(&longer).unwrap()), alone);
    }
}
