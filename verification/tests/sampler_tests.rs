use pi_trading_lib::actor::{drain_sink, Listener, Provider};
use pi_trading_lib::base::{PIDataState, Status};
use pi_trading_lib::learning::sampler::{get_args, register_args, SampleData, Sampler, SamplingStage};
use pi_trading_lib::market_data::ingest::StaleWarning;
use pi_trading_lib::market_data::md_cache::{DelayedMarketDataCache, MarketDataCache};
use pi_trading_lib::market_data::{DataPacket, PacketPayload};
use pi_trading_lib::parser::Parser;

fn quote(ts: i64, id: u64, bid: u64, ask: u64) -> DataPacket {
    DataPacket::new(ts, PacketPayload::new_piquote(id, 1, Status::Open, (bid + ask) / 2, ask, bid))
}

fn stage_with_pending_sample() -> SamplingStage {
    let mut stage = SamplingStage::new(500, 400, 4096);
    assert!(stage.has_room(&quote(0, 7, 5900, 6100)));
    assert!(!stage.process(&quote(0, 7, 5900, 6100)));
    assert!(stage.process(&quote(1000, 7, 5900, 6100)));
    assert!(stage.fetch().is_none());
    stage
}

#[test]
fn sample_is_resolved_with_the_live_mid_price_one_window_later() {
    let mut stage = stage_with_pending_sample();
    stage.process(&quote(1200, 8, 1000, 1100));
    assert!(stage.fetch().is_none());
    stage.process(&quote(1499, 7, 5900, 6100));
    assert!(stage.fetch().is_none());
    assert!(stage.process(&quote(1500, 7, 5900, 6100)));
    assert_eq!(
        stage.fetch(),
        Some(&SampleData { id: 7, timestamp: 1000, back_price: 6000, tick_price: 6000, forward_price: 6000 })
    );
    assert!(stage.fetch().is_none());
}

#[test]
fn sample_is_dropped_when_the_spread_is_too_wide_at_resolution() {
    let mut stage = stage_with_pending_sample();
    stage.process(&quote(1400, 7, 5750, 6250));
    stage.process(&quote(1500, 7, 5900, 6100));
    assert!(stage.fetch().is_none());
    stage.process(&quote(5000, 7, 5900, 6100));
    let mut released = Vec::new();
    while let Some(sample) = stage.fetch() {
        released.push(*sample);
    }
    for sample in released {
        assert_ne!(sample.timestamp, 1000);
    }
}

#[test]
fn forward_price_is_read_before_the_releasing_event_is_ingested() {
    let mut stage = stage_with_pending_sample();
    stage.process(&quote(1500, 7, 6900, 7100));
    assert_eq!(
        stage.fetch(),
        Some(&SampleData { id: 7, timestamp: 1000, back_price: 6000, tick_price: 6000, forward_price: 6000 })
    );
    assert_eq!(stage.live_state().contract_mid_price(7), Some(7000));
    assert_eq!(stage.delayed_state().contract_mid_price(7), Some(6000));
}

#[test]
fn back_price_lags_the_tick_price_by_the_window() {
    let mut stage = SamplingStage::new(500, 400, 4096);
    stage.process(&quote(0, 7, 1000, 1200));
    stage.process(&quote(500, 7, 2000, 2200));
    stage.process(&quote(1000, 7, 3000, 3200));
    assert_eq!(
        stage.fetch(),
        Some(&SampleData { id: 7, timestamp: 500, back_price: 1100, tick_price: 2100, forward_price: 2100 })
    );
    assert!(stage.fetch().is_none());
    stage.process(&quote(1500, 7, 4000, 4200));
    assert_eq!(
        stage.fetch(),
        Some(&SampleData { id: 7, timestamp: 1000, back_price: 2100, tick_price: 3100, forward_price: 3100 })
    );
}

#[test]
fn nothing_is_enrolled_while_a_spread_is_too_wide() {
    let mut stage = SamplingStage::new(500, 400, 4096);
    stage.process(&quote(0, 7, 1000, 1401));
    assert!(!stage.process(&quote(500, 7, 2000, 2200)));
    assert!(!stage.process(&quote(501, 7, 2000, 2401)));
    stage.process(&quote(100000, 7, 2000, 2200));
    assert!(stage.fetch().is_none());
    let mut edge = SamplingStage::new(500, 400, 4096);
    edge.process(&quote(0, 7, 1000, 1400));
    assert!(edge.process(&quote(500, 7, 2000, 2400)));
}

#[test]
fn stage_collects_the_warnings_of_both_caches() {
    let mut stage = SamplingStage::new(10, 400, 16);
    stage.process(&quote(100, 7, 1000, 1200));
    stage.process(&quote(50, 7, 1100, 1200));
    assert_eq!(stage.take_warnings(), vec![StaleWarning::Contract { id: 7, stored_ts: 100, seen_ts: 50 }]);
    stage.process(&quote(200, 7, 1000, 1200));
    assert_eq!(stage.take_warnings(), vec![StaleWarning::Contract { id: 7, stored_ts: 100, seen_ts: 50 }]);
    assert!(stage.take_warnings().is_empty());
}

#[test]
fn stage_has_no_room_when_the_holding_buffer_is_full() {
    let mut stage = SamplingStage::new(1000, 400, 2);
    stage.process(&quote(0, 7, 1000, 1200));
    stage.process(&quote(1, 7, 1000, 1200));
    assert!(!stage.has_room(&quote(2, 7, 1000, 1200)));
    assert!(stage.has_room(&quote(1000, 7, 1000, 1200)));
}

#[test]
fn sampler_steps_by_hand() {
    let mut live = MarketDataCache::new(PIDataState::new());
    let mut delayed = DelayedMarketDataCache::new(PIDataState::new(), 5, 16);
    let mut sampler = Sampler::new(5, 400);
    let events = vec![
        quote(10, 7, 1000, 1200),
        quote(12, 8, 5000, 5100),
        quote(15, 7, 2000, 2200),
        quote(17, 8, 5200, 5300),
        quote(20, 7, 3000, 3200),
        quote(22, 7, 3000, 3200),
    ];
    let mut resolved = Vec::new();
    for event in &events {
        assert!(sampler.has_room());
        sampler.post_process(event, &live);
        live.process(event);
        drain_sink(&mut live);
        assert!(delayed.has_room(event));
        delayed.process(event);
        drain_sink(&mut delayed);
        sampler.pre_process(event, &live, &delayed);
        while let Some(sample) = sampler.fetch() {
            resolved.push(*sample);
        }
    }
    assert_eq!(
        resolved,
        vec![
            SampleData { id: 7, timestamp: 15, back_price: 1100, tick_price: 2100, forward_price: 2100 },
            SampleData { id: 8, timestamp: 17, back_price: 5050, tick_price: 5250, forward_price: 5250 },
        ]
    );
}

#[test]
fn pending_samples_are_released_in_order_of_release_time() {
    let mut live = MarketDataCache::new(PIDataState::new());
    let mut delayed = DelayedMarketDataCache::new(PIDataState::new(), 1, 16);
    let mut sampler = Sampler::new(100, 400);
    for event in [quote(0, 7, 1000, 1200), quote(0, 8, 1000, 1200), quote(50, 9, 1, 2)] {
        live.process(&event);
        delayed.process(&event);
    }
    assert!(sampler.pre_process(&quote(40, 7, 0, 0), &live, &delayed));
    assert!(sampler.pre_process(&quote(20, 8, 0, 0), &live, &delayed));
    assert!(!sampler.pre_process(&quote(30, 9, 0, 0), &live, &delayed));
    assert!(!sampler.pre_process(&quote(30, 10, 0, 0), &live, &delayed));
    assert!(!sampler.post_process(&quote(119, 7, 0, 0), &live));
    assert!(sampler.fetch().is_none());
    assert!(sampler.post_process(&quote(120, 7, 0, 0), &live));
    assert_eq!(sampler.fetch().map(|s| (s.id, s.timestamp)), Some((8, 20)));
    assert!(sampler.fetch().is_none());
    assert!(sampler.post_process(&quote(1000, 7, 0, 0), &live));
    assert_eq!(sampler.fetch().map(|s| (s.id, s.timestamp)), Some((7, 40)));
    assert!(sampler.fetch().is_none());
}

#[test]
fn post_process_resolves_and_pre_process_enrolls() {
    let mut live = MarketDataCache::new(PIDataState::new());
    let mut delayed = DelayedMarketDataCache::new(PIDataState::new(), 1, 16);
    for event in [quote(0, 7, 5900, 6100), quote(10, 8, 1, 2)] {
        live.process(&event);
        delayed.process(&event);
    }
    // enrolling: one pending sample, released at 1500; nothing is put out
    let mut sampler = Sampler::new(500, 400);
    assert!(sampler.pre_process(&quote(1000, 7, 0, 0), &live, &delayed));
    assert!(sampler.fetch().is_none());
    // not yet due
    assert!(!sampler.post_process(&quote(1499, 7, 0, 0), &live));
    assert!(sampler.fetch().is_none());
    // due: resolved with the live mid-price
    assert!(sampler.post_process(&quote(1500, 7, 0, 0), &live));
    assert_eq!(
        sampler.fetch(),
        Some(&SampleData { id: 7, timestamp: 1000, back_price: 6000, tick_price: 6000, forward_price: 6000 })
    );
    assert!(sampler.fetch().is_none());
    assert!(!sampler.post_process(&quote(5000, 7, 0, 0), &live));

    // with a live spread above the threshold the sample is dropped, not kept
    let mut sampler = Sampler::new(500, 400);
    assert!(sampler.pre_process(&quote(1000, 7, 0, 0), &live, &delayed));
    live.process(&quote(1400, 7, 5750, 6250));
    assert!(!sampler.post_process(&quote(1500, 7, 0, 0), &live));
    assert!(sampler.fetch().is_none());
    live.process(&quote(1600, 7, 5900, 6100));
    assert!(!sampler.post_process(&quote(9000, 7, 0, 0), &live));
    assert!(sampler.fetch().is_none());
}

#[test]
fn sample_fields_are_written_as_text() {
    let sample = SampleData { id: 7, timestamp: -3, back_price: 6000, tick_price: 6050, forward_price: 10000 };
    let fields: Vec<String> = sample.csv_fields().into_iter().map(|f| String::from_utf8(f).unwrap()).collect();
    assert_eq!(fields, vec!["7", "-3", "0.6", "0.605", "1"]);
}

#[test]
fn sampler_window_comes_from_the_command_line() {
    let line: Vec<String> = vec!["sampler", "--sampler-window", "600000"].into_iter().map(String::from).collect();
    let parser = register_args(Parser::new()).parse_args(&line).unwrap();
    assert_eq!(get_args(&parser), Ok(600000));

    let line: Vec<String> = vec!["sampler", "--sampler-window", "soon"].into_iter().map(String::from).collect();
    let parser = register_args(Parser::new()).parse_args(&line).unwrap();
    assert_eq!(get_args(&parser), Err("sampler-window is not a number: soon".to_string()));

    let parser = register_args(Parser::new());
    assert_eq!(get_args(&parser), Err("sadge".to_string()));
    assert_eq!(get_args(&Parser::new()), Err("Unrecognized argument: sampler-window".to_string()));
}
