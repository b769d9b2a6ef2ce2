use pi_trading_lib::base::Status;
use pi_trading_lib::market_data::api_parser::{
    distance_millis, get_array, get_contract, get_contracts, get_field, get_market, get_price,
    get_price_or_null_val, get_status, get_str, get_string, get_u64, get_utc_timestamp,
    market_data_from_json, parse_api_market_data, parse_json, parse_market_data, pick_instant, Json,
    MarketDataError, MarketDataErrorKind,
};
use pi_trading_lib::market_data::{ContractData, MarketData, PIDataPacket};

fn unavailable(field: &str) -> MarketDataError {
    MarketDataError::new(MarketDataErrorKind::FieldUnavailable(field.to_string()))
}

fn format_error(field: &str) -> MarketDataError {
    MarketDataError::new_field_format_error(field)
}

fn whole(value: u64) -> Json {
    Json::Whole { text: value.to_string().into_bytes(), value }
}

fn number(text: &str) -> Json {
    Json::Number { text: text.as_bytes().to_vec() }
}

fn packet(markets: Vec<MarketData>) -> PIDataPacket {
    PIDataPacket { market_updates: markets.into_iter().map(|m| (m.id, m)).collect() }
}

fn timestamp_error(msg: &str) -> MarketDataError {
    MarketDataError::new(MarketDataErrorKind::TimestampError(msg.to_string()))
}

// 2021-01-31T17:45:12 on the US east coast; the digits behind the point count nanoseconds
const STAMP: &str = "2021-01-31T17:45:12.345";
const STAMP_MS: i64 = 1612133112000;

fn contract_json(id: u64) -> String {
    format!(
        "{{\"id\": {}, \"shortName\": \"c{}\", \"status\": \"Open\", \"lastTradePrice\": 0.35, \
         \"bestBuyYesCost\": 0.36, \"bestSellYesCost\": null, \"extra\": [1, 2]}}",
        id, id
    )
}

fn market_json(id: u64, contracts: &[u64]) -> String {
    let list: Vec<String> = contracts.iter().map(|c| contract_json(*c)).collect();
    format!(
        "{{\"id\": {}, \"shortName\": \"m{}\", \"contracts\": [{}], \"status\": \"Closed\", \"timeStamp\": \"{}\"}}",
        id,
        id,
        list.join(", "),
        STAMP
    )
}

fn expected_contract(id: u64) -> ContractData {
    ContractData {
        id,
        name: format!("c{}", id),
        status: Status::Open,
        trade_price: 3500,
        ask_price: 3600,
        bid_price: 0,
    }
}

fn expected_market(id: u64, contracts: &[u64]) -> MarketData {
    MarketData {
        id,
        name: format!("m{}", id),
        contracts: contracts.iter().map(|c| expected_contract(*c)).collect(),
        status: Status::Closed,
        timestamp: STAMP_MS,
    }
}

#[test]
fn json_text_becomes_a_document() {
    let doc = parse_json("{\"b\": [1, -2, 0.5, 1e-7, true, null, \"x\"], \"a\": {\"n\": 18446744073709551615}}").unwrap();
    assert_eq!(
        doc,
        Json::Object(vec![
            (
                "a".to_string(),
                Json::Object(vec![("n".to_string(), whole(18446744073709551615))])
            ),
            (
                "b".to_string(),
                Json::Array(vec![
                    whole(1),
                    number("-2"),
                    number("0.5"),
                    number("1e-7"),
                    Json::Bool(true),
                    Json::Null,
                    Json::Text("x".to_string()),
                ])
            ),
        ])
    );
    assert_eq!(parse_json("{\"a\": 1, \"a\": 2}"), Some(Json::Object(vec![("a".to_string(), whole(2))])));
    assert_eq!(parse_json("7"), Some(whole(7)));
    assert_eq!(parse_json("[18446744073709551616, 1.0, -0, 0]"), Some(Json::Array(vec![
        number("1.8446744073709552e+19"),
        number("1.0"),
        number("-0.0"),
        whole(0),
    ])));
    assert_eq!(parse_json("{"), None);
    assert_eq!(parse_json(""), None);
    assert_eq!(parse_json("{} x"), None);
}

#[test]
fn fields_are_read_by_type() {
    let obj = parse_json(
        "{\"n\": 12, \"f\": 0.35, \"whole\": 1.0, \"neg\": -1, \"s\": \"text\", \"a\": [1], \"z\": null, \"fine\": 0.12345}",
    )
    .unwrap();
    assert_eq!(get_field(&obj, "z"), Ok(&Json::Null));
    assert_eq!(get_field(&obj, "missing"), Err(unavailable("missing")));
    assert_eq!(get_field(&Json::Null, "n"), Err(unavailable("n")));

    assert_eq!(get_u64(&obj, "n"), Ok(12));
    assert_eq!(get_u64(&obj, "f"), Err(format_error("f")));
    assert_eq!(get_u64(&obj, "whole"), Err(format_error("whole")));
    assert_eq!(get_u64(&obj, "neg"), Err(format_error("neg")));
    assert_eq!(get_u64(&obj, "s"), Err(format_error("s")));
    assert_eq!(get_u64(&obj, "missing"), Err(unavailable("missing")));

    assert_eq!(get_price(&obj, "f"), Ok(3500));
    assert_eq!(get_price(&obj, "n"), Ok(120000));
    assert_eq!(get_price(&obj, "whole"), Ok(10000));
    assert_eq!(get_price(&obj, "neg"), Err(format_error("neg")));
    assert_eq!(get_price(&obj, "fine"), Err(format_error("fine")));
    assert_eq!(get_price(&obj, "z"), Err(format_error("z")));
    assert_eq!(get_price(&obj, "missing"), Err(unavailable("missing")));

    assert_eq!(get_price_or_null_val(&obj, "f", 7), Ok(3500));
    assert_eq!(get_price_or_null_val(&obj, "z", 7), Ok(7));
    assert_eq!(get_price_or_null_val(&obj, "s", 7), Err(format_error("s")));
    assert_eq!(get_price_or_null_val(&obj, "missing", 7), Err(unavailable("missing")));

    assert_eq!(get_str(&obj, "s"), Ok("text"));
    assert_eq!(get_str(&obj, "n"), Err(format_error("n")));
    assert_eq!(get_string(&obj, "s"), Ok("text".to_string()));
    assert_eq!(get_string(&obj, "missing"), Err(unavailable("missing")));
    assert_eq!(get_array(&obj, "a"), Ok(&vec![whole(1)]));
    assert_eq!(get_array(&obj, "s"), Err(format_error("s")));
}

#[test]
fn status_of_the_feed() {
    assert_eq!(get_status("Open"), Ok(Status::Open));
    assert_eq!(get_status("Closed"), Ok(Status::Closed));
    assert_eq!(get_status("OPEN"), Err(format_error("status. Unknown status OPEN")));
    assert_eq!(get_status(""), Err(format_error("status. Unknown status ")));
}

#[test]
fn contract_is_read_field_by_field() {
    let obj = parse_json(&contract_json(5)).unwrap();
    assert_eq!(get_contract(&obj), Ok(expected_contract(5)));
    let both_null = parse_json(
        "{\"id\": 5, \"shortName\": \"c\", \"status\": \"Closed\", \"lastTradePrice\": 1, \
         \"bestBuyYesCost\": null, \"bestSellYesCost\": null}",
    )
    .unwrap();
    let c = get_contract(&both_null).unwrap();
    assert_eq!((c.ask_price, c.bid_price, c.trade_price, c.status), (10000, 0, 10000, Status::Closed));
    assert_eq!(get_contract(&parse_json("{}").unwrap()), Err(unavailable("id")));
    assert_eq!(get_contract(&parse_json("{\"id\": 1}").unwrap()), Err(unavailable("shortName")));
    assert_eq!(
        get_contract(&parse_json("{\"id\": 1, \"shortName\": \"c\", \"status\": \"Shut\"}").unwrap()),
        Err(format_error("status. Unknown status Shut"))
    );
    assert_eq!(
        get_contract(&parse_json("{\"id\": 1, \"shortName\": \"c\", \"status\": \"Open\", \"lastTradePrice\": null}").unwrap()),
        Err(format_error("lastTradePrice"))
    );
    let list = parse_json(&format!("[{}, {}]", contract_json(1), contract_json(2))).unwrap();
    match &list {
        Json::Array(a) => assert_eq!(get_contracts(a), Ok(vec![expected_contract(1), expected_contract(2)])),
        _ => panic!("no array"),
    }
    let list = parse_json(&format!("[{}, 3, {{}}]", contract_json(1))).unwrap();
    match &list {
        Json::Array(a) => assert_eq!(get_contracts(a), Err(format_error("contracts[] entry"))),
        _ => panic!("no array"),
    }
    assert_eq!(get_contracts(&Vec::new()), Ok(Vec::new()));
}

#[test]
fn timestamp_is_read_as_eastern_time() {
    assert_eq!(get_utc_timestamp(STAMP, STAMP_MS), Ok(STAMP_MS));
    assert_eq!(get_utc_timestamp(STAMP, STAMP_MS + 300000), Ok(STAMP_MS));
    assert_eq!(get_utc_timestamp(STAMP, STAMP_MS - 300000), Ok(STAMP_MS));
    assert_eq!(
        get_utc_timestamp(STAMP, STAMP_MS + 300001),
        Err(timestamp_error("Timestamp too far from current time: 2021-01-31T17:45:12.345"))
    );
    assert_eq!(
        get_utc_timestamp(STAMP, STAMP_MS - 300001),
        Err(timestamp_error("Timestamp too far from current time: 2021-01-31T17:45:12.345"))
    );
    // summer time: four hours behind UTC
    assert_eq!(get_utc_timestamp("2021-07-01T12:00:00.0", 1625155200000), Ok(1625155200000));
    assert_eq!(get_utc_timestamp("2021-01-31T17:45:12.345000000", STAMP_MS), Ok(STAMP_MS + 345));
    assert_eq!(get_utc_timestamp("2021-01-31T17:45:12.1999999", STAMP_MS), Ok(STAMP_MS + 1));
    assert_eq!(get_utc_timestamp("yesterday", 0), Err(format_error("timestamp")));
    assert_eq!(get_utc_timestamp("2021-01-31 17:45:12.345", STAMP_MS), Err(format_error("timestamp")));
    assert_eq!(get_utc_timestamp("2021-01-31T17:45:12", STAMP_MS), Err(format_error("timestamp")));
}

#[test]
fn timestamp_in_the_skipped_or_repeated_hour() {
    assert_eq!(
        get_utc_timestamp("2021-03-14T02:30:00.0", 1615707000000),
        Err(timestamp_error("Invalid timezone timestamp: 2021-03-14T02:30:00.0"))
    );
    let early = 1636263000000;
    let late = 1636266600000;
    assert_eq!(get_utc_timestamp("2021-11-07T01:30:00.0", early), Ok(early));
    assert_eq!(get_utc_timestamp("2021-11-07T01:30:00.0", early - 300000), Ok(early));
    assert_eq!(get_utc_timestamp("2021-11-07T01:30:00.0", late + 1000), Ok(late));
    assert_eq!(
        get_utc_timestamp("2021-11-07T01:30:00.0", early + 1800000),
        Err(timestamp_error("Both timestamps too far from current time: 2021-11-07T01:30:00.0"))
    );
}

#[test]
fn instant_is_picked_among_candidates() {
    assert_eq!(pick_instant(&vec![], 0, "t"), Err(timestamp_error("Invalid timezone timestamp: t")));
    assert_eq!(pick_instant(&vec![5], 300005, "t"), Ok(5));
    assert_eq!(pick_instant(&vec![5], 300006, "t"), Err(timestamp_error("Timestamp too far from current time: t")));
    assert_eq!(pick_instant(&vec![0, 100], 49, "t"), Ok(0));
    assert_eq!(pick_instant(&vec![0, 100], 50, "t"), Ok(100));
    assert_eq!(pick_instant(&vec![0, 100], 51, "t"), Ok(100));
    assert_eq!(pick_instant(&vec![0, 1000000], 400000, "t"), Err(timestamp_error("Both timestamps too far from current time: t")));
    assert_eq!(pick_instant(&vec![0, 1000000], 700000, "t"), Ok(1000000));
    assert_eq!(pick_instant(&vec![i64::MIN], i64::MAX, "t"), Err(timestamp_error("Timestamp too far from current time: t")));
    assert_eq!(distance_millis(i64::MIN, i64::MAX), u64::MAX as i128);
    assert_eq!(distance_millis(3, 10), 7);
    assert_eq!(distance_millis(10, 3), 7);
}

#[test]
fn market_is_read_field_by_field() {
    let obj = parse_json(&market_json(9, &[1, 2])).unwrap();
    assert_eq!(get_market(&obj, STAMP_MS), Ok(expected_market(9, &[1, 2])));
    assert_eq!(
        get_market(&obj, STAMP_MS + 10000000),
        Err(timestamp_error("Timestamp too far from current time: 2021-01-31T17:45:12.345"))
    );
    assert_eq!(get_market(&parse_json("{\"id\": 1, \"shortName\": \"m\"}").unwrap(), 0), Err(unavailable("contracts")));
    assert_eq!(
        get_market(&parse_json("{\"id\": 1, \"shortName\": \"m\", \"contracts\": [1]}").unwrap(), 0),
        Err(format_error("contracts[] entry"))
    );
    assert_eq!(
        get_market(&parse_json("{\"id\": 1, \"shortName\": \"m\", \"contracts\": [], \"status\": \"Open\"}").unwrap(), 0),
        Err(unavailable("timeStamp"))
    );
    assert_eq!(parse_market_data(&market_json(9, &[1]), STAMP_MS), Ok(expected_market(9, &[1])));
    assert_eq!(parse_market_data("[]", STAMP_MS), Err(MarketDataError::new(MarketDataErrorKind::JsonParseError)));
    assert_eq!(parse_market_data("{", STAMP_MS), Err(MarketDataError::new(MarketDataErrorKind::JsonParseError)));
}

#[test]
fn answer_of_the_feed_becomes_a_snapshot() {
    let text = format!(
        "{{\"markets\": [{}, {}, {}]}}",
        market_json(1, &[10, 11]),
        market_json(2, &[]),
        market_json(1, &[12])
    );
    let found = parse_api_market_data(&text, STAMP_MS).unwrap().unwrap();
    assert_eq!(found, packet(vec![expected_market(1, &[12]), expected_market(2, &[])]));
    assert_eq!(parse_api_market_data("{\"markets\": []}", 0), Ok(Some(packet(vec![]))));
    assert_eq!(parse_api_market_data("{}", 0), Err(unavailable("markets")));
    assert_eq!(parse_api_market_data("{\"markets\": 3}", 0), Err(format_error("markets")));
    assert_eq!(parse_api_market_data("{\"markets\": [3]}", 0), Err(format_error("markets[] entry")));
    assert_eq!(parse_api_market_data("{\"markets\": [{}]}", 0), Err(unavailable("id")));
    assert_eq!(parse_api_market_data("[]", 0), Err(MarketDataError::new(MarketDataErrorKind::JsonParseError)));
    assert_eq!(parse_api_market_data("not json", 0), Err(MarketDataError::new(MarketDataErrorKind::JsonParseError)));
    let root = parse_json(&text).unwrap();
    assert_eq!(market_data_from_json(&root, STAMP_MS).unwrap().unwrap().market_updates.len(), 2);
    assert_eq!(
        format_error("x").kind(),
        &MarketDataErrorKind::FieldFormatError("x".to_string())
    );
}

#[test]
fn deeply_nested_documents() {
    let nested = |n: usize| format!("{}{}", "[".repeat(n), "]".repeat(n));
    let mut doc = parse_json(&nested(100)).unwrap();
    let mut depth = 0;
    loop {
        match doc {
            Json::Array(mut items) => {
                depth += 1;
                match items.pop() {
                    Some(inner) => doc = inner,
                    None => break,
                }
            }
            _ => panic!("no array"),
        }
    }
    assert_eq!(depth, 100);
    assert_eq!(parse_json(&nested(1000)), None);
}

fn levels(doc: &Json) -> usize {
    match doc {
        Json::Array(items) => 1 + items.iter().map(levels).max().unwrap_or(0),
        Json::Object(members) => 1 + members.iter().map(|m| levels(&m.1)).max().unwrap_or(0),
        _ => 0,
    }
}

#[test]
fn documents_that_come_back_are_nested_within_the_limit() {
    for n in 0..200 {
        let text = format!("{}1{}", "[{\"a\":".repeat(n), "}]".repeat(n));
        match parse_json(&text) {
            Some(doc) => {
                assert_eq!(levels(&doc), 2 * n);
                assert!(levels(&doc) <= 128);
            }
            None => assert!(2 * n > 100),
        }
    }
    assert_eq!(parse_json("[[1], {\"a\": [2, [3]]}]").map(|d| levels(&d)), Some(4));
    assert_eq!(parse_json("null").map(|d| levels(&d)), Some(0));
}
