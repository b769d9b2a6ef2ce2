use pi_trading_lib::base::{Contract, ContractPrice, IntegrityError, PIDataState, Status, PRICE_SCALE};

#[test]
fn mid_price_and_spread_of_a_quote() {
    let prices = ContractPrice::new(6000, 6100, 5900);
    assert_eq!(prices.mid_price(), 6000);
    assert_eq!(prices.spread_ticks(), 200);
    let crossed = ContractPrice::new(1, 10, 25);
    assert_eq!(crossed.mid_price(), 17);
    assert_eq!(crossed.spread_ticks(), -15);
    let extreme = ContractPrice::new(0, u64::MAX, u64::MAX);
    assert_eq!(extreme.mid_price(), u64::MAX);
    assert_eq!(extreme.spread_ticks(), 0);
    let widest = ContractPrice::new(0, 0, u64::MAX);
    assert_eq!(widest.spread_ticks(), -(u64::MAX as i128));
    assert_eq!(PRICE_SCALE, 10_000);
}

#[test]
fn prices_compare_by_their_three_fields() {
    assert_eq!(ContractPrice::new(1, 2, 3), ContractPrice::new(1, 2, 3));
    assert_ne!(ContractPrice::new(1, 2, 3), ContractPrice::new(1, 3, 2));
    assert_ne!(ContractPrice::new(1, 2, 3), ContractPrice::new(0, 2, 3));
}

#[test]
fn new_contract_is_closed_and_unpriced() {
    let contract = Contract::new(7, 3, "Yes".to_string());
    assert_eq!(contract.id, 7);
    assert_eq!(contract.market_id, 3);
    assert_eq!(contract.name, "Yes");
    assert_eq!(contract.status, Status::Closed);
    assert_eq!(contract.prices, ContractPrice::new(0, 0, 0));
    assert_eq!(contract.data_ts, 0);
}

#[test]
fn store_adds_and_finds_markets_and_contracts() {
    let mut state = PIDataState::new();
    assert!(!state.has_market(1));
    assert!(state.get_market(1).is_none());
    assert_eq!(state.add_market(1, "Election"), Ok(()));
    assert!(state.has_market(1));
    assert_eq!(state.add_contract(10, 1, "Yes"), Ok(()));
    assert_eq!(state.add_contract(11, 1, "No"), Ok(()));
    assert!(state.has_contract(10));
    assert!(!state.has_contract(12));
    let market = state.get_market(1).unwrap();
    assert_eq!(market.name, "Election");
    assert_eq!(market.contracts, vec![10, 11]);
    let contract = state.get_contract(11).unwrap();
    assert_eq!(contract.market_id, 1);
    assert_eq!(contract.name, "No");
}

#[test]
fn store_refuses_breaches_of_integrity() {
    let mut state = PIDataState::new();
    assert_eq!(state.add_contract(10, 1, "Yes"), Err(IntegrityError::UnknownMarket { id: 1 }));
    assert!(!state.has_contract(10));
    state.add_market(1, "Election").unwrap();
    assert_eq!(state.add_market(1, "Again"), Err(IntegrityError::MarketExists { id: 1 }));
    assert_eq!(state.get_market(1).unwrap().name, "Election");
    state.add_contract(10, 1, "Yes").unwrap();
    assert_eq!(state.add_contract(10, 1, "Yes"), Err(IntegrityError::ContractExists { id: 10 }));
    assert_eq!(state.add_contract(10, 2, "Yes"), Err(IntegrityError::ContractExists { id: 10 }));
    assert_eq!(state.get_market(1).unwrap().contracts, vec![10]);
}

#[test]
fn store_lends_entries_for_mutation() {
    let mut state = PIDataState::new();
    state.add_market(1, "Election").unwrap();
    state.add_contract(10, 1, "Yes").unwrap();
    assert!(state.get_contract_mut(11).is_none());
    assert!(state.get_market_mut(2).is_none());
    {
        let contract = state.get_contract_mut(10).unwrap();
        contract.prices = ContractPrice::new(2000, 3000, 2000);
        contract.status = Status::Open;
    }
    {
        let market = state.get_market_mut(1).unwrap();
        market.data_ts = 42;
    }
    assert_eq!(state.get_contract(10).unwrap().prices.ask_price, 3000);
    assert_eq!(state.get_contract(10).unwrap().status, Status::Open);
    assert_eq!(state.get_market(1).unwrap().data_ts, 42);
}

#[test]
fn mid_price_and_spread_of_a_stored_contract() {
    let mut state = PIDataState::new();
    assert_eq!(state.contract_mid_price(10), None);
    assert_eq!(state.contract_spread(10), None);
    state.add_market(1, "Election").unwrap();
    state.add_contract(10, 1, "Yes").unwrap();
    assert_eq!(state.contract_mid_price(10), Some(0));
    assert_eq!(state.contract_spread(10), Some(0));
    state.get_contract_mut(10).unwrap().prices = ContractPrice::new(2000, 3000, 2500);
    assert_eq!(state.contract_mid_price(10), Some(2750));
    assert_eq!(state.contract_spread(10), Some(500));
}

#[test]
fn status_text() {
    assert_eq!(Status::Open.to_string(), "OPEN");
    assert_eq!(Status::Closed.to_string(), "CLOSED");
    assert_eq!(Status::Open.as_str(), "OPEN");
    assert_eq!(Status::from_str("OPEN"), Ok(Status::Open));
    assert_eq!(Status::from_str("CLOSED"), Ok(Status::Closed));
    assert_eq!(Status::from_str("Open"), Err(()));
    assert_eq!(Status::from_str(""), Err(()));
}
