use pi_trading_lib::base::Status;
use pi_trading_lib::market_data::reader::{MarketDataLive, RetryDecision};
use pi_trading_lib::market_data::{DataPacket, PacketPayload};
use pi_trading_lib::text::{parse_i64, parse_price, parse_u64, push_i64, push_price, push_u64};

#[test]
fn test_print_data_packet_size() {
    println!("{}", std::mem::size_of::<DataPacket>());
}

#[test]
fn test_ser_de_packet() {
    let data_packet = DataPacket {
        timestamp: 1609462800000,
        payload: PacketPayload::PIQuote {
            id: 1,
            market_id: 2,
            status: Status::Open,
            trade_price: 1000,
            bid_price: 2000,
            ask_price: 3000,
        },
    };

    let mut write_buf = Vec::new();
    data_packet.csv_serialize(&mut write_buf);
    assert_eq!(
        std::str::from_utf8(&write_buf[..]).unwrap(),
        "1609462800000,piquote,1,2,OPEN,0.1,0.2,0.3,\n"
    );

    let deser_data_packet = DataPacket::csv_deserialize(&write_buf[..]).unwrap();
    assert_eq!(deser_data_packet, data_packet);
}

#[test]
fn header_is_written_and_checked() {
    let mut buf = Vec::new();
    DataPacket::write_header(&mut buf);
    assert_eq!(
        std::str::from_utf8(&buf).unwrap(),
        "timestamp,type,id,market_id,status,trade_price,bid_price,ask_price,\n"
    );
    assert!(DataPacket::check_header(&buf));
    assert!(!DataPacket::check_header(&buf[..buf.len() - 1]));
    assert!(!DataPacket::check_header(b"timestamp,type,id,market_id,status,trade_price,ask_price,bid_price,\n"));
    assert!(!DataPacket::check_header(b""));
    let mut payload_header = Vec::new();
    PacketPayload::write_header(&mut payload_header);
    assert_eq!(
        std::str::from_utf8(&payload_header).unwrap(),
        "type,id,market_id,status,trade_price,bid_price,ask_price,"
    );
}

#[test]
fn records_round_trip() {
    let cases = vec![
        DataPacket::new(0, PacketPayload::new_piquote(0, 0, Status::Closed, 0, 0, 0)),
        DataPacket::new(-5, PacketPayload::new_piquote(7, 9, Status::Open, 1, 10000, 9999)),
        DataPacket::new(
            i64::MIN,
            PacketPayload::new_piquote(u64::MAX, u64::MAX, Status::Closed, u64::MAX, 123450, 50),
        ),
        DataPacket::new(i64::MAX, PacketPayload::new_piquote(1, 2, Status::Open, 3500, 3600, 3400)),
    ];
    for packet in cases {
        let mut line = Vec::new();
        packet.csv_serialize(&mut line);
        assert_eq!(DataPacket::csv_deserialize(&line), Ok(packet));
        assert_eq!(DataPacket::csv_deserialize(&line[..line.len() - 1]), Ok(packet));
    }
}

#[test]
fn record_text_is_exact() {
    let packet = DataPacket::new(-12, PacketPayload::new_piquote(7, 9, Status::Closed, 10000, 5, 123450));
    let mut line = Vec::new();
    packet.csv_serialize(&mut line);
    assert_eq!(std::str::from_utf8(&line).unwrap(), "-12,piquote,7,9,CLOSED,1,12.345,0.0005,\n");
    let mut payload = Vec::new();
    packet.payload.csv_serialize(&mut payload);
    assert_eq!(std::str::from_utf8(&payload).unwrap(), "piquote,7,9,CLOSED,1,12.345,0.0005,");
}

#[test]
fn malformed_records_are_refused() {
    let bad: Vec<&[u8]> = vec![
        b"",
        b"1,piquote,1,2,OPEN,0.1,0.2,0.3",
        b"1,quote,1,2,OPEN,0.1,0.2,0.3,\n",
        b"x,piquote,1,2,OPEN,0.1,0.2,0.3,\n",
        b"1,piquote,-1,2,OPEN,0.1,0.2,0.3,\n",
        b"1,piquote,1,2,Open,0.1,0.2,0.3,\n",
        b"1,piquote,1,2,OPEN,0.12345,0.2,0.3,\n",
        b"1,piquote,1,2,OPEN,.1,0.2,0.3,\n",
        b"1,piquote,1,2,OPEN,0.,0.2,0.3,\n",
        b"1,piquote,1,2,OPEN,0.1,0.2,0.3,\n\n",
        b"1,piquote,1,2,OPEN,0.1,0.2,0.3,x",
        b"1,piquote,1,2,OPEN,0.1,0.2,\n",
        b"9223372036854775808,piquote,1,2,OPEN,0.1,0.2,0.3,\n",
        b"1,piquote,18446744073709551616,2,OPEN,0.1,0.2,0.3,\n",
        b"1,piquote,1,2,OPEN,1844674407370956,0.2,0.3,\n",
    ];
    for line in bad {
        assert_eq!(DataPacket::csv_deserialize(line), Err(()));
    }
    assert!(DataPacket::csv_deserialize(b"+1,piquote,+1,2,OPEN,1.0,0.20,3,").is_ok());
}

#[test]
fn payload_is_read_at_a_position() {
    let input = b"xx,piquote,1,2,OPEN,0.1,0.2,0.3,rest";
    let (payload, next) = PacketPayload::csv_deserialize(input, 3).unwrap();
    assert_eq!(payload, PacketPayload::new_piquote(1, 2, Status::Open, 1000, 3000, 2000));
    assert_eq!(&input[next..], b"rest");
    assert_eq!(PacketPayload::csv_deserialize(input, 0), Err(()));
    assert_eq!(PacketPayload::csv_deserialize(input, input.len()), Err(()));
}

#[test]
fn new_piquote_takes_ask_before_bid() {
    let payload = PacketPayload::new_piquote(1, 2, Status::Open, 10, 30, 20);
    assert_eq!(
        payload,
        PacketPayload::PIQuote {
            id: 1,
            market_id: 2,
            status: Status::Open,
            trade_price: 10,
            bid_price: 20,
            ask_price: 30
        }
    );
    assert_eq!(DataPacket::new(5, payload).id_of(), 1);
}

#[test]
fn numbers_as_text() {
    let mut buf = Vec::new();
    push_u64(&mut buf, 0);
    buf.push(b' ');
    push_u64(&mut buf, 10);
    buf.push(b' ');
    push_u64(&mut buf, u64::MAX);
    buf.push(b' ');
    push_i64(&mut buf, i64::MIN);
    buf.push(b' ');
    push_i64(&mut buf, -1);
    buf.push(b' ');
    push_i64(&mut buf, 907);
    assert_eq!(
        std::str::from_utf8(&buf).unwrap(),
        "0 10 18446744073709551615 -9223372036854775808 -1 907"
    );
    assert_eq!(parse_u64(b"18446744073709551615", 0, 20), Some(u64::MAX));
    assert_eq!(parse_u64(b"18446744073709551616", 0, 20), None);
    assert_eq!(parse_u64(b"007", 0, 3), Some(7));
    assert_eq!(parse_u64(b"+7", 0, 2), Some(7));
    assert_eq!(parse_u64(b"+", 0, 1), None);
    assert_eq!(parse_u64(b"", 0, 0), None);
    assert_eq!(parse_u64(b"12a", 0, 3), None);
    assert_eq!(parse_u64(b"12a", 0, 2), Some(12));
    assert_eq!(parse_i64(b"-9223372036854775808", 0, 20), Some(i64::MIN));
    assert_eq!(parse_i64(b"-9223372036854775809", 0, 20), None);
    assert_eq!(parse_i64(b"9223372036854775807", 0, 19), Some(i64::MAX));
    assert_eq!(parse_i64(b"9223372036854775808", 0, 19), None);
    assert_eq!(parse_i64(b"-", 0, 1), None);
    assert_eq!(parse_i64(b"-0", 0, 2), Some(0));
    assert_eq!(parse_i64(b"+-1", 0, 3), None);
}

#[test]
fn prices_as_text() {
    let cases: Vec<(u64, &str)> = vec![
        (0, "0"),
        (1, "0.0001"),
        (10, "0.001"),
        (100, "0.01"),
        (1000, "0.1"),
        (3500, "0.35"),
        (2750, "0.275"),
        (9999, "0.9999"),
        (10000, "1"),
        (10100, "1.01"),
        (u64::MAX, "1844674407370955.1615"),
    ];
    for (ticks, text) in cases {
        let mut buf = Vec::new();
        push_price(&mut buf, ticks);
        assert_eq!(std::str::from_utf8(&buf).unwrap(), text);
        assert_eq!(parse_price(text.as_bytes(), 0, text.len()), Some(ticks));
    }
    assert_eq!(parse_price(b"0.50", 0, 4), Some(5000));
    assert_eq!(parse_price(b"1.0", 0, 3), Some(10000));
    assert_eq!(parse_price(b"1844674407370955.1616", 0, 21), None);
    assert_eq!(parse_price(b"1.2.3", 0, 5), None);
    assert_eq!(parse_price(b"-1", 0, 2), None);
    assert_eq!(parse_price(b"1e3", 0, 3), None);
    assert_eq!(parse_price(b"", 0, 0), None);
}

#[test]
fn live_source_gives_up_at_the_retry_limit() {
    let once = MarketDataLive::new();
    assert_eq!(once.after_failure(1), RetryDecision::GiveUp);
    let five = MarketDataLive::new_with_retry(5);
    assert_eq!(five.after_failure(1), RetryDecision::RetryAfter { millis: 1000 });
    assert_eq!(five.after_failure(4), RetryDecision::RetryAfter { millis: 1000 });
    assert_eq!(five.after_failure(5), RetryDecision::GiveUp);
    assert_eq!(five.after_failure(6), RetryDecision::GiveUp);
    let never = MarketDataLive::new_with_retry(0);
    assert_eq!(never.after_failure(0), RetryDecision::GiveUp);
}
