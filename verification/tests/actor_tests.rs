use pi_trading_lib::actor::components::CountLogger;
use pi_trading_lib::actor::{drain_sink, drain_to, drain_to_fn, ActorBuffer, Listener, Provider, MAX_DRAIN};
use pi_trading_lib::base::{PIDataState, Status};
use pi_trading_lib::market_data::md_cache::MarketDataCache;
use pi_trading_lib::market_data::{DataPacket, PacketPayload};

fn quote(ts: i64, id: u64, trade: u64) -> DataPacket {
    DataPacket::new(ts, PacketPayload::new_piquote(id, 1, Status::Open, trade, 3000, 2000))
}

#[test]
fn ring_buffer_refuses_push_beyond_capacity() {
    let mut buffer: ActorBuffer<u32> = ActorBuffer::with_capacity(4);
    for i in 0..4 {
        assert_eq!(buffer.push(i), Ok(()));
    }
    assert!(buffer.is_full());
    assert_eq!(buffer.push(4), Err(4));
    assert_eq!(buffer.size(), 4);
    assert_eq!(buffer.deque_ref(), Some(&0));
    assert_eq!(buffer.push(4), Ok(()));
    assert_eq!(buffer.size(), 4);
    for expected in 1..5 {
        assert_eq!(buffer.deque_ref(), Some(&expected));
    }
    assert!(buffer.is_empty());
    assert_eq!(buffer.deque_ref(), None);
}

#[test]
fn ring_buffer_keeps_order_across_many_laps() {
    let mut buffer: ActorBuffer<u64> = ActorBuffer::with_capacity(3);
    let mut next_in: u64 = 0;
    let mut next_out: u64 = 0;
    for round in 0..50 {
        let pushes = 1 + round % 3;
        for _ in 0..pushes {
            if buffer.push(next_in).is_ok() {
                next_in += 1;
            }
        }
        assert_eq!(buffer.size() as u64, next_in - next_out);
        assert_eq!(buffer.peek(), Some(&next_out));
        assert_eq!(buffer.room(), 3 - buffer.size());
        for _ in 0..2 {
            match buffer.deque_ref() {
                Some(v) => {
                    assert_eq!(*v, next_out);
                    next_out += 1;
                }
                None => assert_eq!(next_in, next_out),
            }
        }
    }
    assert!(next_out > 40);
}

#[test]
fn ring_buffer_of_capacity_zero_is_empty_and_full() {
    let mut buffer: ActorBuffer<u8> = ActorBuffer::with_capacity(0);
    assert!(buffer.is_empty());
    assert!(buffer.is_full());
    assert_eq!(buffer.push(1), Err(1));
    assert_eq!(buffer.peek(), None);
    assert_eq!(buffer.deque_ref(), None);
    assert_eq!(buffer.size(), 0);
}

#[test]
fn ring_buffer_of_unreachable_capacity_still_works() {
    let mut buffer: ActorBuffer<u64> = ActorBuffer::with_capacity(usize::MAX);
    assert!(!buffer.is_full());
    assert_eq!(buffer.room(), usize::MAX);
    for i in 0..100 {
        assert_eq!(buffer.push(i), Ok(()));
    }
    assert_eq!(buffer.size(), 100);
    assert_eq!(buffer.deque_ref(), Some(&0));
    assert_eq!(buffer.room(), usize::MAX - 99);
}

#[test]
fn ring_buffer_default_capacity_is_1024() {
    let mut buffer: ActorBuffer<usize> = ActorBuffer::new();
    for i in 0..1024 {
        assert!(buffer.push(i).is_ok());
    }
    assert!(buffer.is_full());
    assert_eq!(buffer.push(1024), Err(1024));
}

#[test]
fn peek_leaves_the_element_in_place() {
    let mut buffer: ActorBuffer<u32> = ActorBuffer::with_capacity(2);
    assert_eq!(buffer.peek(), None);
    buffer.push(7).unwrap();
    buffer.push(8).unwrap();
    assert_eq!(buffer.peek(), Some(&7));
    assert_eq!(buffer.peek(), Some(&7));
    assert_eq!(buffer.size(), 2);
    assert_eq!(buffer.deque_ref(), Some(&7));
    assert_eq!(buffer.peek(), Some(&8));
}

#[test]
fn drain_sink_counts_and_empties() {
    let mut cache = MarketDataCache::new(PIDataState::new());
    for i in 0..5 {
        assert!(cache.process(&quote(i, 1, 1000 + i as u64)));
    }
    assert_eq!(drain_sink(&mut cache), 5);
    assert_eq!(drain_sink(&mut cache), 0);
    assert!(cache.fetch().is_none());
    assert!(cache.state.has_contract(1));
}

#[test]
fn drain_to_feeds_every_element_in_order() {
    let mut upstream = MarketDataCache::new(PIDataState::new());
    let mut downstream = MarketDataCache::new(PIDataState::new());
    for i in 0..100 {
        assert!(upstream.process(&quote(i, 1, 1000 + i as u64)));
    }
    assert_eq!(drain_to(&mut upstream, &mut downstream), 100);
    assert!(upstream.fetch().is_none());
    for i in 0..100 {
        assert_eq!(downstream.fetch(), Some(&quote(i, 1, 1000 + i as u64)));
    }
    assert!(downstream.fetch().is_none());
    assert_eq!(drain_to(&mut upstream, &mut downstream), 0);
}

#[test]
fn drain_to_fn_moves_at_most_64_per_call() {
    let mut upstream = MarketDataCache::new(PIDataState::new());
    for i in 0..150 {
        assert!(upstream.process(&quote(i, 1, 1000 + i as u64)));
    }
    assert_eq!(MAX_DRAIN, 64);
    let seen = std::cell::RefCell::new(Vec::new());
    let note = |d: &DataPacket| {
        seen.borrow_mut().push(d.timestamp);
        true
    };
    assert_eq!(drain_to_fn(&mut upstream, &note), 64);
    assert_eq!(drain_to_fn(&mut upstream, &note), 64);
    assert_eq!(drain_to_fn(&mut upstream, &note), 22);
    assert_eq!(drain_to_fn(&mut upstream, &note), 0);
    let expected: Vec<i64> = (0..150).collect();
    assert_eq!(*seen.borrow(), expected);
}

#[test]
fn count_logger_reports_at_powers_of_two() {
    let mut logger = CountLogger::new("CSV writer");
    let mut reports: Vec<String> = Vec::new();
    for i in 0..10u32 {
        assert!(logger.process(&i));
        for line in logger.take_reports() {
            reports.push(String::from_utf8(line).unwrap());
        }
    }
    assert_eq!(
        reports,
        vec![
            "CSV writer saw 1 packets".to_string(),
            "CSV writer saw 2 packets".to_string(),
            "CSV writer saw 4 packets".to_string(),
            "CSV writer saw 8 packets".to_string(),
        ]
    );
    assert_eq!(String::from_utf8(logger.report()).unwrap(), "CSV writer saw 10 packets");
}
