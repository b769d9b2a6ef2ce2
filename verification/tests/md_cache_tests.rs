use pi_trading_lib::actor::{drain_sink, Listener, Provider};
use pi_trading_lib::base::{ContractPrice, IntegrityError, PIDataState, Status};
use pi_trading_lib::market_data::ingest::{
    ingest_data, ingest_data_packet, ingest_one_contract_data, ingest_one_market_data,
    classify_data_packet, EventOutcome, StaleWarning,
};
use pi_trading_lib::market_data::md_cache::{
    collect_events, due, filter_changed, CacheError, DelayedMarketDataCache, MarketDataCache,
    RawMarketDataCache, RawToRawMarketDataCache,
};
use pi_trading_lib::market_data::{ContractData, DataPacket, MarketData, PIDataPacket, PacketPayload};

fn contract(id: u64, trade: u64, ask: u64, bid: u64) -> ContractData {
    ContractData {
        id,
        name: format!("contract {}", id),
        status: Status::Open,
        trade_price: trade,
        ask_price: ask,
        bid_price: bid,
    }
}

fn market(id: u64, ts: i64, contracts: Vec<ContractData>) -> MarketData {
    MarketData { id, name: format!("market {}", id), contracts, status: Status::Open, timestamp: ts }
}

fn snapshot(markets: Vec<MarketData>) -> PIDataPacket {
    PIDataPacket { market_updates: markets.into_iter().map(|m| (m.id, m)).collect() }
}

fn changes(entries: Vec<(u64, Vec<u64>)>) -> std::collections::HashMap<u64, Vec<u64>> {
    entries.into_iter().collect()
}

fn sorted<T: Ord>(mut items: Vec<T>) -> Vec<T> {
    items.sort();
    items
}

fn quote(ts: i64, id: u64, market_id: u64, trade: u64, ask: u64, bid: u64) -> DataPacket {
    DataPacket::new(ts, PacketPayload::new_piquote(id, market_id, Status::Open, trade, ask, bid))
}

#[test]
fn test_market_data_cache() {
    let mut market_data_cache = MarketDataCache::new(PIDataState::new());

    let packet1 = DataPacket::new(1, PacketPayload::new_piquote(0, 0, Status::Open, 2000, 3000, 2000));
    let packet2 = DataPacket::new(2, PacketPayload::new_piquote(0, 0, Status::Open, 2000, 3000, 2000));
    let packet3 = DataPacket::new(3, PacketPayload::new_piquote(0, 0, Status::Open, 3000, 3000, 2000));
    let packet4 = DataPacket::new(2, PacketPayload::new_piquote(0, 0, Status::Open, 2000, 3000, 2000));

    // New contract in cache
    market_data_cache.process(&packet1);
    assert!(market_data_cache.state.has_contract(0));
    assert!(market_data_cache.state.has_market(0));
    let output1 = market_data_cache.fetch();
    match output1 {
        Some(out) => {
            assert_eq!(&packet1, out);
        }
        None => {
            assert!(false);
        }
    }

    // No cache update
    market_data_cache.process(&packet1);
    market_data_cache.process(&packet2);
    assert!(market_data_cache.fetch().is_none());

    // Update cache
    market_data_cache.process(&packet3);
    assert_eq!(market_data_cache.state.get_contract(0).unwrap().prices.trade_price, 3000);
    let output3 = market_data_cache.fetch();
    match output3 {
        Some(out) => {
            assert_eq!(&packet3, out);
        }
        None => {
            assert!(false);
        }
    }

    // Ignore backwards time jump
    market_data_cache.process(&packet4);
    assert_eq!(market_data_cache.state.get_contract(0).unwrap().prices.trade_price, 3000);
    assert!(market_data_cache.fetch().is_none());
}

#[test]
fn event_fed_twice_changes_nothing_the_second_time() {
    let mut state = PIDataState::new();
    let event = quote(5, 10, 1, 2000, 3000, 2000);
    assert_eq!(classify_data_packet(&state, &event), EventOutcome::Changed);
    assert_eq!(ingest_data_packet(&mut state, &event), EventOutcome::Changed);
    assert_eq!(classify_data_packet(&state, &event), EventOutcome::Unchanged);
    assert_eq!(ingest_data_packet(&mut state, &event), EventOutcome::Unchanged);
    let stored = state.get_contract(10).unwrap();
    assert_eq!(stored.prices, ContractPrice::new(2000, 3000, 2000));
    assert_eq!(stored.status, Status::Open);
    assert_eq!(stored.data_ts, 5);
    assert_eq!(stored.market_id, 1);
    assert_eq!(stored.name, "");
    assert_eq!(state.get_market(1).unwrap().contracts, vec![10]);
    assert_eq!(state.get_market(1).unwrap().name, "");
}

#[test]
fn stale_event_is_rejected_and_leaves_the_price() {
    let mut state = PIDataState::new();
    assert_eq!(ingest_data_packet(&mut state, &quote(100, 10, 1, 2000, 3000, 2000)), EventOutcome::Changed);
    let late = quote(50, 10, 1, 9000, 9500, 8500);
    assert_eq!(classify_data_packet(&state, &late), EventOutcome::Stale { stored_ts: 100 });
    assert_eq!(ingest_data_packet(&mut state, &late), EventOutcome::Stale { stored_ts: 100 });
    let stored = state.get_contract(10).unwrap();
    assert_eq!(stored.prices, ContractPrice::new(2000, 3000, 2000));
    assert_eq!(stored.data_ts, 100);
    // an equal timestamp is not stale
    assert_eq!(ingest_data_packet(&mut state, &quote(100, 10, 1, 2100, 3000, 2000)), EventOutcome::Changed);
    assert_eq!(state.get_contract(10).unwrap().prices.trade_price, 2100);
}

#[test]
fn stale_event_raises_a_warning_in_the_cache() {
    let mut cache = MarketDataCache::new(PIDataState::new());
    assert!(cache.process(&quote(100, 10, 1, 2000, 3000, 2000)));
    assert!(cache.take_warnings().is_empty());
    assert!(!cache.process(&quote(50, 10, 1, 2500, 3000, 2000)));
    assert_eq!(
        cache.take_warnings(),
        vec![StaleWarning::Contract { id: 10, stored_ts: 100, seen_ts: 50 }]
    );
    assert!(cache.take_warnings().is_empty());
    assert_eq!(drain_sink(&mut cache), 1);
}

#[test]
fn first_event_for_a_closed_unpriced_contract_creates_it_unchanged() {
    let mut state = PIDataState::new();
    let event = DataPacket::new(3, PacketPayload::new_piquote(10, 1, Status::Closed, 0, 0, 0));
    assert_eq!(ingest_data_packet(&mut state, &event), EventOutcome::Unchanged);
    assert!(state.has_contract(10));
    assert_eq!(state.get_contract(10).unwrap().data_ts, 3);
    let early = DataPacket::new(-1, PacketPayload::new_piquote(11, 1, Status::Open, 1, 1, 1));
    assert_eq!(ingest_data_packet(&mut state, &early), EventOutcome::Stale { stored_ts: 0 });
    assert!(state.has_contract(11));
    assert_eq!(state.get_contract(11).unwrap().status, Status::Closed);
}

#[test]
fn event_cache_is_not_ready_when_full_and_the_event_would_change() {
    let mut cache = MarketDataCache::new(PIDataState::new());
    for i in 0..1024 {
        let event = quote(i, 10, 1, i as u64, 3000, 2000);
        assert!(cache.is_ready(&event));
        assert!(cache.process(&event));
    }
    assert!(!cache.is_ready(&quote(2000, 10, 1, 5000, 3000, 2000)));
    let repeat = quote(2000, 10, 1, 1023, 3000, 2000);
    assert!(cache.is_ready(&repeat));
    assert!(!cache.process(&repeat));
    let stale = quote(0, 10, 1, 5000, 3000, 2000);
    assert!(cache.is_ready(&stale));
    assert!(!cache.process(&stale));
    assert_eq!(drain_sink(&mut cache), 1024);
}

#[test]
fn snapshot_contract_is_created_compared_and_updated() {
    let mut state = PIDataState::new();
    state.add_market(1, "m").unwrap();
    let first = contract(10, 2000, 3000, 2000);
    assert_eq!(ingest_one_contract_data(&mut state, 1, &first, 7), Ok(EventOutcome::Changed));
    let stored = state.get_contract(10).unwrap();
    assert_eq!(stored.name, "contract 10");
    assert_eq!(stored.prices, ContractPrice::new(2000, 3000, 2000));
    assert_eq!(stored.data_ts, 7);
    assert_eq!(ingest_one_contract_data(&mut state, 1, &first, 8), Ok(EventOutcome::Unchanged));
    assert_eq!(state.get_contract(10).unwrap().data_ts, 8);
    let mut closed = contract(10, 2000, 3000, 2000);
    closed.status = Status::Closed;
    assert_eq!(ingest_one_contract_data(&mut state, 1, &closed, 9), Ok(EventOutcome::Changed));
    assert_eq!(state.get_contract(10).unwrap().status, Status::Closed);
    assert_eq!(
        ingest_one_contract_data(&mut state, 2, &first, 9),
        Err(IntegrityError::UnknownMarket { id: 2 })
    );
    state.add_market(2, "n").unwrap();
    assert_eq!(
        ingest_one_contract_data(&mut state, 2, &first, 10),
        Err(IntegrityError::MarketMismatch { contract: 10, stored: 1, claimed: 2 })
    );
    assert_eq!(state.get_contract(10).unwrap().data_ts, 9);
    assert_eq!(state.get_contract(10).unwrap().status, Status::Closed);
}

#[test]
fn stale_snapshot_contract_is_left_as_it_is() {
    let mut state = PIDataState::new();
    state.add_market(1, "m").unwrap();
    assert_eq!(
        ingest_one_contract_data(&mut state, 1, &contract(10, 2000, 3000, 2000), 100),
        Ok(EventOutcome::Changed)
    );
    let older = contract(10, 9000, 9500, 8500);
    assert_eq!(
        ingest_one_contract_data(&mut state, 1, &older, 50),
        Ok(EventOutcome::Stale { stored_ts: 100 })
    );
    let stored = state.get_contract(10).unwrap();
    assert_eq!(stored.prices, ContractPrice::new(2000, 3000, 2000));
    assert_eq!(stored.data_ts, 100);
    // an equal timestamp is accepted
    assert_eq!(ingest_one_contract_data(&mut state, 1, &older, 100), Ok(EventOutcome::Changed));
    assert_eq!(state.get_contract(10).unwrap().prices, ContractPrice::new(9000, 9500, 8500));
    // the first sighting of a contract is never stale
    assert_eq!(
        ingest_one_contract_data(&mut state, 1, &contract(11, 1, 2, 3), -5),
        Ok(EventOutcome::Changed)
    );
    assert_eq!(state.get_contract(11).unwrap().data_ts, -5);
}

#[test]
fn snapshot_skips_contracts_with_a_newer_observation() {
    let mut state = PIDataState::new();
    ingest_one_market_data(&mut state, &market(1, 100, vec![contract(10, 1, 2, 3), contract(11, 4, 5, 6)])).unwrap();
    // an event moves contract 10 ahead of its market
    assert_eq!(
        ingest_data_packet(&mut state, &quote(200, 10, 1, 7, 8, 9)),
        EventOutcome::Changed
    );
    let outcome =
        ingest_one_market_data(&mut state, &market(1, 150, vec![contract(10, 1, 2, 3), contract(11, 4, 5, 7)]))
            .unwrap();
    assert_eq!(outcome.changed, vec![11]);
    assert_eq!(outcome.warnings, vec![StaleWarning::Contract { id: 10, stored_ts: 200, seen_ts: 150 }]);
    assert_eq!(state.get_contract(10).unwrap().prices, ContractPrice::new(7, 8, 9));
    assert_eq!(state.get_contract(10).unwrap().data_ts, 200);
    assert_eq!(state.get_contract(11).unwrap().data_ts, 150);
    assert_eq!(state.get_market(1).unwrap().data_ts, 150);
    let delta = ingest_data(
        &mut state,
        &snapshot(vec![market(1, 160, vec![contract(10, 1, 2, 3)])]),
    )
    .unwrap();
    assert!(delta.updated.is_empty());
    assert_eq!(delta.warnings, vec![StaleWarning::Contract { id: 10, stored_ts: 200, seen_ts: 160 }]);
}

#[test]
fn snapshot_of_a_market_reports_what_changed() {
    let mut state = PIDataState::new();
    let first = market(1, 100, vec![contract(10, 2000, 3000, 2000), contract(11, 7000, 8000, 7000)]);
    let outcome = ingest_one_market_data(&mut state, &first).unwrap();
    assert_eq!(outcome.changed, vec![10, 11]);
    assert!(outcome.warnings.is_empty());
    let stored = state.get_market(1).unwrap();
    assert_eq!(stored.name, "market 1");
    assert_eq!(stored.status, Status::Open);
    assert_eq!(stored.data_ts, 100);
    assert_eq!(stored.contracts, vec![10, 11]);

    let second = market(1, 100, vec![contract(10, 2000, 3000, 2000), contract(11, 7100, 8000, 7000)]);
    let outcome = ingest_one_market_data(&mut state, &second).unwrap();
    assert_eq!(outcome.changed, vec![11]);

    let stale = market(1, 99, vec![contract(10, 1, 1, 1), contract(12, 1, 1, 1)]);
    let outcome = ingest_one_market_data(&mut state, &stale).unwrap();
    assert!(outcome.changed.is_empty());
    assert_eq!(outcome.warnings, vec![StaleWarning::Market { id: 1, stored_ts: 100, seen_ts: 99 }]);
    assert_eq!(state.get_contract(10).unwrap().prices.trade_price, 2000);
    assert!(!state.has_contract(12));
    assert_eq!(state.get_market(1).unwrap().data_ts, 100);
}

#[test]
fn snapshot_that_breaches_integrity_leaves_the_store() {
    let mut state = PIDataState::new();
    ingest_one_market_data(&mut state, &market(1, 100, vec![contract(10, 2000, 3000, 2000)])).unwrap();
    let bad = market(2, 100, vec![contract(20, 1, 1, 1), contract(10, 1, 1, 1)]);
    assert_eq!(
        ingest_one_market_data(&mut state, &bad).unwrap_err(),
        IntegrityError::MarketMismatch { contract: 10, stored: 1, claimed: 2 }
    );
    assert!(!state.has_market(2));
    assert!(!state.has_contract(20));
    assert_eq!(state.get_contract(10).unwrap().prices.trade_price, 2000);
}

#[test]
fn snapshot_fed_twice_yields_an_empty_change_set() {
    let mut state = PIDataState::new();
    let data = snapshot(vec![
        market(1, 100, vec![contract(10, 2000, 3000, 2000), contract(11, 7000, 8000, 7000)]),
        market(2, 100, vec![]),
        market(3, 50, vec![contract(30, 1, 2, 3)]),
    ]);
    let first = ingest_data(&mut state, &data).unwrap();
    assert_eq!(first.updated, changes(vec![(1, vec![10, 11]), (3, vec![30])]));
    assert!(first.warnings.is_empty());
    assert!(state.has_market(2));
    let second = ingest_data(&mut state, &data).unwrap();
    assert!(second.updated.is_empty());
    assert!(second.warnings.is_empty());
}

#[test]
fn snapshot_stops_at_the_first_breach() {
    let mut state = PIDataState::new();
    ingest_data(&mut state, &snapshot(vec![market(1, 100, vec![contract(10, 2000, 3000, 2000)])])).unwrap();
    let data = snapshot(vec![
        market(2, 100, vec![contract(10, 2000, 3000, 2000)]),
        market(3, 100, vec![contract(30, 1, 2, 3)]),
    ]);
    let walk: Vec<u64> = data.entries().iter().map(|e| e.0).collect();
    assert_eq!(sorted(walk.clone()), vec![2, 3]);
    assert_eq!(
        ingest_data(&mut state, &data).unwrap_err(),
        IntegrityError::MarketMismatch { contract: 10, stored: 1, claimed: 2 }
    );
    assert!(state.has_contract(10));
    assert!(!state.has_market(2));
    assert_eq!(state.has_market(3), walk[0] == 3);
    assert_eq!(state.has_contract(30), walk[0] == 3);
}

#[test]
fn snapshot_is_walked_entry_by_entry() {
    let data = snapshot(vec![market(5, 1, vec![]), market(7, 2, vec![]), market(6, 3, vec![])]);
    let entries = data.entries();
    assert_eq!(entries.len(), 3);
    for (key, value) in &entries {
        assert_eq!(*key, value.id);
        assert_eq!(data.market_updates.get(key), Some(*value));
    }
    assert_eq!(sorted(entries.iter().map(|e| e.0).collect()), vec![5, 6, 7]);
    let walked_again: Vec<u64> = data.entries().iter().map(|e| e.0).collect();
    let walked: Vec<u64> = entries.iter().map(|e| e.0).collect();
    assert_eq!(walked, walked_again);
    assert!(snapshot(vec![]).entries().is_empty());
}

#[test]
fn snapshot_reports_stale_markets() {
    let mut state = PIDataState::new();
    ingest_data(&mut state, &snapshot(vec![market(1, 100, vec![contract(10, 1, 2, 3)])])).unwrap();
    let delta = ingest_data(
        &mut state,
        &snapshot(vec![market(1, 50, vec![contract(10, 9, 9, 9)]), market(2, 50, vec![contract(20, 1, 1, 1)])]),
    )
    .unwrap();
    assert_eq!(delta.updated, changes(vec![(2, vec![20])]));
    assert_eq!(delta.warnings, vec![StaleWarning::Market { id: 1, stored_ts: 100, seen_ts: 50 }]);
    assert_eq!(state.get_contract(10).unwrap().prices, ContractPrice::new(1, 2, 3));
}

#[test]
fn end_to_end_raw_snapshots_to_events() {
    let mut cache = RawMarketDataCache::new(PIDataState::new());
    assert!(cache.process(&snapshot(vec![market(1, 1, vec![contract(10, 2000, 3000, 2000)])])));
    assert_eq!(cache.fetch(), Some(&quote(1, 10, 1, 2000, 3000, 2000)));
    assert!(cache.fetch().is_none());

    assert!(!cache.process(&snapshot(vec![market(1, 2, vec![contract(10, 2000, 3000, 2000)])])));
    assert!(cache.fetch().is_none());

    assert!(cache.process(&snapshot(vec![market(1, 3, vec![contract(10, 3000, 3000, 2000)])])));
    assert_eq!(cache.fetch(), Some(&quote(3, 10, 1, 3000, 3000, 2000)));
    assert!(cache.fetch().is_none());
    assert_eq!(cache.state_ref().get_contract(10).unwrap().data_ts, 3);
}

#[test]
fn raw_cache_emits_one_event_per_changed_contract() {
    let mut cache = RawMarketDataCache::new(PIDataState::new());
    let data = snapshot(vec![
        market(1, 10, vec![contract(10, 1, 2, 3), contract(11, 4, 5, 6)]),
        market(2, 20, vec![contract(20, 7, 8, 9)]),
    ]);
    assert_eq!(cache.ingest_and_transform(&data), Ok(3));
    let mut events = Vec::new();
    while let Some(event) = cache.fetch() {
        events.push(*event);
    }
    let first_of_market_1 = events.iter().position(|e| e.id_of() == 10).unwrap();
    assert_eq!(events[first_of_market_1 + 1], quote(10, 11, 1, 4, 5, 6));
    events.sort_by_key(|e| e.id_of());
    assert_eq!(events, vec![quote(10, 10, 1, 1, 2, 3), quote(10, 11, 1, 4, 5, 6), quote(20, 20, 2, 7, 8, 9)]);
    assert_eq!(cache.ingest_and_transform(&data), Ok(0));
}

#[test]
fn raw_cache_turns_snapshots_away() {
    let mut cache = RawMarketDataCache::new(PIDataState::new());
    let breach = snapshot(vec![
        market(1, 10, vec![contract(10, 1, 2, 3)]),
        market(2, 10, vec![contract(10, 1, 2, 3)]),
    ]);
    let first = breach.entries()[0].0;
    assert_eq!(
        cache.ingest_and_transform(&breach),
        Err(CacheError::Integrity(IntegrityError::MarketMismatch {
            contract: 10,
            stored: first,
            claimed: 3 - first
        }))
    );
    assert!(cache.fetch().is_none());

    let mut cache = RawMarketDataCache::new(PIDataState::new());
    let many: Vec<ContractData> = (0..4097).map(|i| contract(i, 1, 2, 3)).collect();
    assert_eq!(
        cache.ingest_and_transform(&snapshot(vec![market(1, 10, many)])),
        Err(CacheError::OutputFull)
    );
    assert!(cache.fetch().is_none());
    assert!(cache.state_ref().has_contract(4096));
    let fits: Vec<ContractData> = (0..4096).map(|i| contract(i, 2, 2, 3)).collect();
    assert_eq!(cache.ingest_and_transform(&snapshot(vec![market(1, 11, fits)])), Ok(4096));
    assert_eq!(drain_sink(&mut cache), 4096);
}

#[test]
fn raw_to_raw_cache_prunes_to_changed_markets() {
    let mut cache = RawToRawMarketDataCache::new(PIDataState::new());
    let first = snapshot(vec![
        market(1, 10, vec![contract(10, 1, 2, 3), contract(11, 4, 5, 6)]),
        market(2, 10, vec![contract(20, 7, 8, 9)]),
    ]);
    assert!(cache.process(&first));
    assert_eq!(cache.fetch(), Some(&first));
    let second = snapshot(vec![
        market(1, 11, vec![contract(10, 1, 2, 3), contract(11, 4, 5, 6)]),
        market(2, 11, vec![contract(20, 7, 8, 10)]),
    ]);
    assert_eq!(cache.ingest_and_filter(&second), Ok(true));
    assert_eq!(cache.fetch(), Some(&snapshot(vec![market(2, 11, vec![contract(20, 7, 8, 10)])])));
    assert_eq!(cache.ingest_and_filter(&second), Ok(true));
    assert!(cache.fetch().unwrap().market_updates.is_empty());
    assert!(cache.fetch().is_none());
    assert_eq!(cache.state_ref().get_contract(20).unwrap().prices.bid_price, 10);
}

#[test]
fn raw_to_raw_cache_turns_snapshots_away() {
    let mut cache = RawToRawMarketDataCache::new(PIDataState::new());
    let breach = snapshot(vec![
        market(1, 10, vec![contract(10, 1, 2, 3)]),
        market(2, 10, vec![contract(10, 1, 2, 3)]),
    ]);
    let first = breach.entries()[0].0;
    assert_eq!(
        cache.ingest_and_filter(&breach),
        Err(CacheError::Integrity(IntegrityError::MarketMismatch {
            contract: 10,
            stored: first,
            claimed: 3 - first
        }))
    );
    assert!(cache.fetch().is_none());
    for i in 0..1024 {
        assert_eq!(cache.ingest_and_filter(&snapshot(vec![market(3, i, vec![])])), Ok(true));
    }
    assert_eq!(
        cache.ingest_and_filter(&snapshot(vec![market(4, 0, vec![contract(40, 1, 1, 1)])])),
        Err(CacheError::OutputFull)
    );
    assert!(!cache.state_ref().has_market(4));
    let stale = cache.ingest_and_filter(&snapshot(vec![market(3, 0, vec![])]));
    assert_eq!(stale, Err(CacheError::OutputFull));
    assert!(cache.take_warnings().is_empty());
}

#[test]
fn helpers_of_the_raw_caches() {
    let mut state = PIDataState::new();
    let data = snapshot(vec![
        market(1, 10, vec![contract(10, 1, 2, 3)]),
        market(2, 10, vec![contract(20, 7, 8, 9)]),
    ]);
    ingest_data(&mut state, &data).unwrap();
    let updated = changes(vec![(2u64, vec![20u64]), (1u64, vec![10u64]), (7u64, vec![10u64])]);
    let mut events = collect_events(&state, &data, &updated);
    let walk: Vec<u64> = data.entries().iter().map(|e| e.0).collect();
    let in_walk_order: Vec<u64> = events.iter().map(|e| if e.id_of() == 20 { 2 } else { 1 }).collect();
    assert_eq!(in_walk_order, walk);
    events.sort_by_key(|e| e.id_of());
    assert_eq!(events, vec![quote(10, 10, 1, 1, 2, 3), quote(10, 20, 2, 7, 8, 9)]);
    assert!(collect_events(&state, &data, &changes(vec![])).is_empty());
    let kept = filter_changed(&data, &changes(vec![(2u64, vec![20u64]), (9u64, vec![])]));
    assert_eq!(kept, snapshot(vec![market(2, 10, vec![contract(20, 7, 8, 9)])]));
    assert!(filter_changed(&data, &changes(vec![])).market_updates.is_empty());
}

#[test]
fn delayed_cache_releases_after_the_delay_equality_included() {
    let mut cache = DelayedMarketDataCache::new(PIDataState::new(), 600000, 16);
    let first = quote(0, 10, 1, 2000, 3000, 2000);
    assert!(cache.process(&first));
    assert!(!cache.state.has_contract(10));
    assert!(cache.fetch().is_none());

    assert!(cache.process(&quote(599999, 10, 1, 2100, 3000, 2000)));
    assert!(!cache.state.has_contract(10));
    assert!(cache.fetch().is_none());

    assert!(cache.process(&quote(600000, 10, 1, 2200, 3000, 2000)));
    assert!(cache.state.has_contract(10));
    assert_eq!(cache.state.get_contract(10).unwrap().prices.trade_price, 2000);
    assert_eq!(cache.fetch(), Some(&first));
    assert!(cache.fetch().is_none());

    assert!(cache.process(&quote(1199998, 10, 1, 2300, 3000, 2000)));
    assert!(cache.fetch().is_none());
    assert!(cache.process(&quote(1200000, 10, 1, 2400, 3000, 2000)));
    assert_eq!(cache.fetch(), Some(&quote(599999, 10, 1, 2100, 3000, 2000)));
    assert_eq!(cache.fetch(), Some(&quote(600000, 10, 1, 2200, 3000, 2000)));
    assert!(cache.fetch().is_none());
    assert_eq!(cache.state.get_contract(10).unwrap().prices.trade_price, 2200);
}

#[test]
fn delayed_cache_hands_on_only_what_changed() {
    let mut cache = DelayedMarketDataCache::new(PIDataState::new(), 10, 16);
    assert!(cache.process(&quote(0, 10, 1, 2000, 3000, 2000)));
    assert!(cache.process(&quote(1, 10, 1, 2000, 3000, 2000)));
    assert!(cache.process(&quote(0, 10, 1, 9999, 3000, 2000)));
    assert!(cache.process(&quote(100, 11, 1, 1, 1, 1)));
    assert_eq!(cache.fetch(), Some(&quote(0, 10, 1, 2000, 3000, 2000)));
    assert!(cache.fetch().is_none());
    assert_eq!(
        cache.take_warnings(),
        vec![StaleWarning::Contract { id: 10, stored_ts: 1, seen_ts: 0 }]
    );
    assert_eq!(cache.state_ref().get_contract(10).unwrap().data_ts, 1);
}

#[test]
fn delayed_cache_tells_when_it_has_room() {
    let mut cache = DelayedMarketDataCache::new(PIDataState::new(), 10, 2);
    let a = quote(0, 10, 1, 1, 1, 1);
    let b = quote(1, 10, 1, 2, 1, 1);
    assert!(cache.has_room(&a));
    cache.process(&a);
    assert!(cache.has_room(&b));
    cache.process(&b);
    assert!(!cache.has_room(&quote(9, 10, 1, 3, 1, 1)));
    let c = quote(10, 10, 1, 3, 1, 1);
    assert!(cache.has_room(&c));
    cache.process(&c);
    assert_eq!(cache.fetch(), Some(&a));
    assert!(due(0, 10, 10));
    assert!(!due(1, 10, 10));
    assert!(due(i64::MIN, i64::MIN, 0));
    assert!(!due(i64::MIN, i64::MIN, 1));
    assert!(!due(i64::MAX, i64::MIN, u64::MAX));
    assert!(due(i64::MIN, i64::MAX, u64::MAX));
}
