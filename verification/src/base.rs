//! Markets, contracts and the store that owns them.
//!
//! Prices are counted in ticks: `PRICE_SCALE` ticks make one unit of
//! currency, so a price of 0.35 is 3500 ticks.

use std::collections::hash_map::Entry;
use std::collections::HashMap;
use vstd::prelude::*;

verus! {

broadcast use vstd::std_specs::hash::group_hash_axioms;

/// Number of ticks in one unit of currency.
pub const PRICE_SCALE: u64 = 10_000;

/// Whether a market or a contract is open for trading.
#[derive(Clone, Copy, Debug, PartialEq, Eq, Structural)]
pub enum Status {
    Open,
    Closed,
}

impl Status {
    /// The text that stands for the status.
    pub open spec fn text(self) -> Seq<char> {
        match self {
            Status::Open => "OPEN"@,
            Status::Closed => "CLOSED"@,
        }
    }

    /// The text that stands for the status, as a string slice.
    pub fn as_str(&self) -> (r: &'static str)
        ensures
            r@ == self.text(),
            r.is_ascii(),
    {
        proof {
            reveal_strlit("OPEN");
            reveal_strlit("CLOSED");
        }
        match self {
            Status::Open => "OPEN",
            Status::Closed => "CLOSED",
        }
    }

    /// The text that stands for the status.
    pub fn to_string(&self) -> (r: String)
        ensures
            r@ == self.text(),
    {
        self.as_str().to_owned()
    }

    /// The status that `input` stands for: `OPEN` or `CLOSED`, nothing
    /// else.
    pub fn from_str(input: &str) -> (r: Result<Status, ()>)
        ensures
            match r {
                Ok(status) => input@ == status.text(),
                Err(_) => input@ != Status::Open.text() && input@ != Status::Closed.text(),
            },
    {
        if input.to_owned() == "OPEN".to_owned() {
            Ok(Status::Open)
        } else if input.to_owned() == "CLOSED".to_owned() {
            Ok(Status::Closed)
        } else {
            Err(())
        }
    }
}

/// The three quoted prices of a contract, in ticks.  Two values are equal
/// exactly when their three prices are; change detection rests on this.
#[derive(Clone, Copy, Debug, PartialEq, Eq, Structural)]
pub struct ContractPrice {
    pub trade_price: u64,
    pub ask_price: u64,
    pub bid_price: u64,
}

impl ContractPrice {
    /// The prices of a quote, in ticks.
    pub fn new(trade_price: u64, ask_price: u64, bid_price: u64) -> (p: Self)
        ensures
            p == (ContractPrice { trade_price, ask_price, bid_price }),
    {
        ContractPrice { trade_price, ask_price, bid_price }
    }

    /// Mid-price: the average of bid and ask, rounded down to a whole tick.
    pub open spec fn mid(self) -> int {
        (self.bid_price + self.ask_price) / 2
    }

    /// Spread: ask minus bid; negative when the book is crossed.
    pub open spec fn spread(self) -> int {
        self.ask_price - self.bid_price
    }

    /// Mid-price, in ticks.
    pub fn mid_price(&self) -> (m: u64)
        ensures
            m == self.mid(),
    {
        let sum: u128 = self.bid_price as u128 + self.ask_price as u128;
        (sum / 2) as u64
    }

    /// Spread, in ticks.
    pub fn spread_ticks(&self) -> (s: i128)
        ensures
            s == self.spread(),
    {
        self.ask_price as i128 - self.bid_price as i128
    }
}

/// A breach of referential integrity, refused by the store.
#[derive(Clone, Copy, Debug, PartialEq, Eq, Structural)]
pub enum IntegrityError {
    /// A market was to be created under an id that is taken.
    MarketExists { id: u64 },
    /// A contract was to be created under an id that is taken.
    ContractExists { id: u64 },
    /// A contract names a market that the store does not hold.
    UnknownMarket { id: u64 },
    /// A contract held under market `stored` was reported under market
    /// `claimed`.
    MarketMismatch { contract: u64, stored: u64, claimed: u64 },
}

/// A tradeable event that groups contracts.  It refers to its contracts by
/// id only; the store owns them.
#[derive(Debug)]
pub struct Market {
    pub id: u64,
    pub name: String,
    pub status: Status,
    pub contracts: Vec<u64>,
    pub data_ts: i64,
}

/// One outcome within a market.
#[derive(Debug)]
pub struct Contract {
    pub id: u64,
    pub market_id: u64,
    pub name: String,
    pub status: Status,
    pub prices: ContractPrice,
    pub data_ts: i64,
}

/// What a `Market` holds.
pub struct MarketView {
    pub id: u64,
    pub name: Seq<char>,
    pub status: Status,
    pub contracts: Seq<u64>,
    pub data_ts: i64,
}

/// What a `Contract` holds.
pub struct ContractView {
    pub id: u64,
    pub market_id: u64,
    pub name: Seq<char>,
    pub status: Status,
    pub prices: ContractPrice,
    pub data_ts: i64,
}

impl View for Market {
    type V = MarketView;

    open spec fn view(&self) -> MarketView {
        MarketView {
            id: self.id,
            name: self.name@,
            status: self.status,
            contracts: self.contracts@,
            data_ts: self.data_ts,
        }
    }
}

impl View for Contract {
    type V = ContractView;

    open spec fn view(&self) -> ContractView {
        ContractView {
            id: self.id,
            market_id: self.market_id,
            name: self.name@,
            status: self.status,
            prices: self.prices,
            data_ts: self.data_ts,
        }
    }
}

impl ContractView {
    /// A contract as it is when first created: closed, all prices zero,
    /// never observed.
    pub open spec fn fresh(id: u64, market_id: u64, name: Seq<char>) -> ContractView {
        ContractView {
            id,
            market_id,
            name,
            status: Status::Closed,
            prices: ContractPrice { trade_price: 0, ask_price: 0, bid_price: 0 },
            data_ts: 0,
        }
    }
}

impl MarketView {
    /// A market as it is when first created: closed, without contracts,
    /// never observed.
    pub open spec fn fresh(id: u64, name: Seq<char>) -> MarketView {
        MarketView { id, name, status: Status::Closed, contracts: Seq::empty(), data_ts: 0 }
    }
}

impl Contract {
    /// A contract as it is when first created.
    pub fn new(id: u64, market_id: u64, name: String) -> (c: Self)
        ensures
            c@ == ContractView::fresh(id, market_id, name@),
    {
        Contract {
            id,
            market_id,
            name,
            status: Status::Closed,
            prices: ContractPrice::new(0, 0, 0),
            data_ts: 0,
        }
    }
}

/// What a `PIDataState` holds: every market and every contract, by id.
pub struct StateView {
    pub markets: Map<u64, MarketView>,
    pub contracts: Map<u64, ContractView>,
}

impl StateView {
    /// Referential integrity.  Every entry is filed under its own id; every
    /// contract names an existing market whose list holds the contract; every
    /// market lists only contracts that exist and name it, each once.
    pub open spec fn wf(self) -> bool {
        &&& forall|id: u64| #[trigger]
            self.contracts.contains_key(id) ==> {
                &&& self.contracts[id].id == id
                &&& self.markets.contains_key(self.contracts[id].market_id)
                &&& self.markets[self.contracts[id].market_id].contracts.contains(id)
            }
        &&& forall|mid: u64| #[trigger]
            self.markets.contains_key(mid) ==> {
                &&& self.markets[mid].id == mid
                &&& self.markets[mid].contracts.no_duplicates()
            }
        &&& forall|mid: u64, k: int|
            self.markets.contains_key(mid) && 0 <= k < self.markets[mid].contracts.len() ==> {
                &&& self.contracts.contains_key(#[trigger] self.markets[mid].contracts[k])
                &&& self.contracts[self.markets[mid].contracts[k]].market_id == mid
            }
    }

    /// The store without markets and contracts.
    pub open spec fn empty() -> StateView {
        StateView { markets: Map::empty(), contracts: Map::empty() }
    }

    /// The store with a fresh market `id`.
    pub open spec fn add_market(self, id: u64, name: Seq<char>) -> StateView {
        StateView { markets: self.markets.insert(id, MarketView::fresh(id, name)), ..self }
    }

    /// The store with a fresh contract `id`, appended to the list of market
    /// `market_id`.
    pub open spec fn add_contract(self, id: u64, market_id: u64, name: Seq<char>) -> StateView {
        let market = self.markets[market_id];
        StateView {
            markets: self.markets.insert(
                market_id,
                MarketView { contracts: market.contracts.push(id), ..market },
            ),
            contracts: self.contracts.insert(id, ContractView::fresh(id, market_id, name)),
        }
    }

    /// The store with market `id` marked as observed at `ts`.
    pub open spec fn stamp_market(self, id: u64, ts: i64) -> StateView {
        StateView {
            markets: self.markets.insert(id, MarketView { data_ts: ts, ..self.markets[id] }),
            ..self
        }
    }

    /// The store with the status of market `id` set.
    pub open spec fn set_market_status(self, id: u64, status: Status) -> StateView {
        StateView {
            markets: self.markets.insert(id, MarketView { status, ..self.markets[id] }),
            ..self
        }
    }

    /// Why market `id` cannot be created, if it cannot.
    pub open spec fn add_market_error(self, id: u64) -> Option<IntegrityError> {
        if self.markets.contains_key(id) {
            Some(IntegrityError::MarketExists { id })
        } else {
            None
        }
    }

    /// Why contract `id` cannot be created under market `market_id`, if it
    /// cannot.
    pub open spec fn add_contract_error(self, id: u64, market_id: u64) -> Option<IntegrityError> {
        if self.contracts.contains_key(id) {
            Some(IntegrityError::ContractExists { id })
        } else if !self.markets.contains_key(market_id) {
            Some(IntegrityError::UnknownMarket { id: market_id })
        } else {
            None
        }
    }

    /// The store with a new observation written into contract `id`.
    pub open spec fn observe(self, id: u64, status: Status, prices: ContractPrice, ts: i64)
        -> StateView {
        StateView {
            contracts: self.contracts.insert(
                id,
                ContractView { status, prices, data_ts: ts, ..self.contracts[id] },
            ),
            ..self
        }
    }

    /// Mid-price of contract `id`, if the contract is known.
    pub open spec fn mid_price(self, id: u64) -> Option<u64> {
        if self.contracts.contains_key(id) {
            Some(self.contracts[id].prices.mid() as u64)
        } else {
            None
        }
    }

    /// Spread of contract `id`, if the contract is known.
    pub open spec fn spread(self, id: u64) -> Option<int> {
        if self.contracts.contains_key(id) {
            Some(self.contracts[id].prices.spread())
        } else {
            None
        }
    }

    /// Adding a market keeps the store's integrity.
    pub proof fn lemma_add_market_wf(self, id: u64, name: Seq<char>)
        requires
            self.wf(),
            !self.markets.contains_key(id),
        ensures
            self.add_market(id, name).wf(),
    {
    }

    /// Setting the timestamp or the status of a known market keeps the
    /// store's integrity.
    pub proof fn lemma_market_header_wf(self, id: u64, ts: i64, status: Status)
        requires
            self.wf(),
            self.markets.contains_key(id),
        ensures
            self.stamp_market(id, ts).wf(),
            self.set_market_status(id, status).wf(),
    {
        let a = self.stamp_market(id, ts);
        let b = self.set_market_status(id, status);
        assert forall|mid: u64, k: int|
            a.markets.contains_key(mid) && 0 <= k < a.markets[mid].contracts.len() implies {
            &&& a.contracts.contains_key(#[trigger] a.markets[mid].contracts[k])
            &&& a.contracts[a.markets[mid].contracts[k]].market_id == mid
        } by {
            assert(self.contracts.contains_key(self.markets[mid].contracts[k]));
        }
        assert forall|mid: u64, k: int|
            b.markets.contains_key(mid) && 0 <= k < b.markets[mid].contracts.len() implies {
            &&& b.contracts.contains_key(#[trigger] b.markets[mid].contracts[k])
            &&& b.contracts[b.markets[mid].contracts[k]].market_id == mid
        } by {
            assert(self.contracts.contains_key(self.markets[mid].contracts[k]));
        }
    }

    /// Writing an observation into a known contract keeps the store's
    /// integrity.
    pub proof fn lemma_observe_wf(self, id: u64, status: Status, prices: ContractPrice, ts: i64)
        requires
            self.wf(),
            self.contracts.contains_key(id),
        ensures
            self.observe(id, status, prices, ts).wf(),
    {
        let next = self.observe(id, status, prices, ts);
        assert forall|mid: u64, k: int|
            next.markets.contains_key(mid) && 0 <= k < next.markets[mid].contracts.len() implies {
            &&& next.contracts.contains_key(#[trigger] next.markets[mid].contracts[k])
            &&& next.contracts[next.markets[mid].contracts[k]].market_id == mid
        } by {
            assert(self.contracts.contains_key(self.markets[mid].contracts[k]));
        }
    }

    /// Adding a contract under an existing market keeps the store's
    /// integrity.
    pub proof fn lemma_add_contract_wf(self, id: u64, market_id: u64, name: Seq<char>)
        requires
            self.wf(),
            !self.contracts.contains_key(id),
            self.markets.contains_key(market_id),
        ensures
            self.add_contract(id, market_id, name).wf(),
    {
        let next = self.add_contract(id, market_id, name);
        let before = self.markets[market_id].contracts;
        let after = next.markets[market_id].contracts;
        assert(after == before.push(id));
        assert(after[before.len() as int] == id);
        assert(forall|k: int| 0 <= k < before.len() ==> #[trigger] after[k] == before[k]);
        assert(after.no_duplicates()) by {
            assert forall|i: int, j: int| 0 <= i < after.len() && 0 <= j < after.len() && i != j
                implies after[i] != after[j] by {
                if i < before.len() {
                    assert(self.contracts.contains_key(before[i]));
                }
                if j < before.len() {
                    assert(self.contracts.contains_key(before[j]));
                }
            }
        }
        assert forall|c: u64| #[trigger] next.contracts.contains_key(c) implies {
            &&& next.contracts[c].id == c
            &&& next.markets.contains_key(next.contracts[c].market_id)
            &&& next.markets[next.contracts[c].market_id].contracts.contains(c)
        } by {
            if c == id {
            } else {
                let m = self.contracts[c].market_id;
                if m == market_id {
                    let k = choose|k: int| 0 <= k < before.len() && before[k] == c;
                    assert(after[k] == c);
                }
            }
        }
        assert forall|mid: u64, k: int|
            next.markets.contains_key(mid) && 0 <= k < next.markets[mid].contracts.len() implies {
            &&& next.contracts.contains_key(#[trigger] next.markets[mid].contracts[k])
            &&& next.contracts[next.markets[mid].contracts[k]].market_id == mid
        } by {
            if mid == market_id {
                if k < before.len() {
                    assert(self.contracts.contains_key(before[k]));
                }
            } else {
                assert(self.contracts.contains_key(self.markets[mid].contracts[k]));
            }
        }
    }
}

/// The canonical store: owner of every market and every contract.
#[derive(Debug)]
pub struct PIDataState {
    markets: HashMap<u64, Market>,
    contracts: HashMap<u64, Contract>,
}

impl View for PIDataState {
    type V = StateView;

    closed spec fn view(&self) -> StateView {
        StateView {
            markets: self.markets@.map_values(|m: Market| m@),
            contracts: self.contracts@.map_values(|c: Contract| c@),
        }
    }
}

impl PIDataState {
    /// Referential integrity of the store.
    pub open spec fn wf(&self) -> bool {
        self@.wf()
    }

    /// An empty store.
    pub fn new() -> (s: Self)
        ensures
            s.wf(),
            s@ == StateView::empty(),
    {
        let s = PIDataState { markets: HashMap::new(), contracts: HashMap::new() };
        assert(s@.markets =~= Map::empty());
        assert(s@.contracts =~= Map::empty());
        s
    }

    /// Market `id`, if the store holds it.
    pub fn get_market(&self, id: u64) -> (r: Option<&Market>)
        ensures
            match r {
                Some(m) => self@.markets.contains_key(id) && m@ == self@.markets[id],
                None => !self@.markets.contains_key(id),
            },
    {
        self.markets.get(&id)
    }

    /// Contract `id`, if the store holds it.
    pub fn get_contract(&self, id: u64) -> (r: Option<&Contract>)
        ensures
            match r {
                Some(c) => self@.contracts.contains_key(id) && c@ == self@.contracts[id],
                None => !self@.contracts.contains_key(id),
            },
    {
        self.contracts.get(&id)
    }

    /// Lends market `id` for mutation.  Whatever the borrower leaves in it
    /// becomes the stored market; the borrower answers for the store's
    /// integrity.
    pub fn get_market_mut(&mut self, id: u64) -> (r: Option<&mut Market>)
        ensures
            match r {
                Some(m) => old(self)@.markets.contains_key(id) && m@ == old(self)@.markets[id]
                    && final(self)@ == (StateView {
                    markets: old(self)@.markets.insert(id, final(m)@),
                    ..old(self)@
                }),
                None => !old(self)@.markets.contains_key(id) && final(self)@ == old(self)@,
            },
    {
        let ghost before = *self;
        match self.markets.entry(id) {
            Entry::Occupied(e) => {
                let m = e.into_mut();
                assert(before.markets@.insert(id, *final(m)).map_values(|m: Market| m@)
                    =~= before@.markets.insert(id, final(m)@));
                Some(m)
            },
            Entry::Vacant(_) => {
                assert(before.markets@.remove(id) =~= before.markets@);
                None
            },
        }
    }

    /// Lends contract `id` for mutation.  Whatever the borrower leaves in it
    /// becomes the stored contract; the borrower answers for the store's
    /// integrity.
    pub fn get_contract_mut(&mut self, id: u64) -> (r: Option<&mut Contract>)
        ensures
            match r {
                Some(c) => old(self)@.contracts.contains_key(id) && c@ == old(self)@.contracts[id]
                    && final(self)@ == (StateView {
                    contracts: old(self)@.contracts.insert(id, final(c)@),
                    ..old(self)@
                }),
                None => !old(self)@.contracts.contains_key(id) && final(self)@ == old(self)@,
            },
    {
        let ghost before = *self;
        match self.contracts.entry(id) {
            Entry::Occupied(e) => {
                let c = e.into_mut();
                assert(before.contracts@.insert(id, *final(c)).map_values(|c: Contract| c@)
                    =~= before@.contracts.insert(id, final(c)@));
                Some(c)
            },
            Entry::Vacant(_) => {
                assert(before.contracts@.remove(id) =~= before.contracts@);
                None
            },
        }
    }

    /// Creates contract `id` under market `market_id`.  Refuses, and leaves
    /// the store as it was, if the id is taken or the market is unknown.
    pub fn add_contract(&mut self, id: u64, market_id: u64, name: &str) -> (r: Result<
        (),
        IntegrityError,
    >)
        requires
            old(self).wf(),
        ensures
            final(self).wf(),
            match r {
                Ok(_) => old(self)@.add_contract_error(id, market_id).is_none() && final(self)@
                    == old(self)@.add_contract(id, market_id, name@),
                Err(e) => old(self)@.add_contract_error(id, market_id) == Some(e) && final(self)@
                    == old(self)@,
            },
    {
        if self.has_contract(id) {
            return Err(IntegrityError::ContractExists { id });
        }
        let ghost before = self@;
        match self.get_market_mut(market_id) {
            Some(market) => {
                market.contracts.push(id);
            },
            None => {
                return Err(IntegrityError::UnknownMarket { id: market_id });
            },
        }
        self.contracts.insert(id, Contract::new(id, market_id, name.to_owned()));
        proof {
            assert(self@.contracts =~= before.add_contract(id, market_id, name@).contracts);
            assert(self@.markets =~= before.add_contract(id, market_id, name@).markets);
            before.lemma_add_contract_wf(id, market_id, name@);
        }
        Ok(())
    }

    /// Creates market `id`, without contracts.  Refuses, and leaves the store
    /// as it was, if the id is taken.
    pub fn add_market(&mut self, id: u64, name: &str) -> (r: Result<(), IntegrityError>)
        requires
            old(self).wf(),
        ensures
            final(self).wf(),
            match r {
                Ok(_) => old(self)@.add_market_error(id).is_none() && final(self)@ == old(self)@.add_market(id, name@),
                Err(e) => old(self)@.add_market_error(id) == Some(e) && final(self)@ == old(self)@,
            },
    {
        if self.has_market(id) {
            return Err(IntegrityError::MarketExists { id });
        }
        let ghost before = self@;
        self.markets.insert(
            id,
            Market {
                id,
                name: name.to_owned(),
                status: Status::Closed,
                contracts: Vec::new(),
                data_ts: 0,
            },
        );
        proof {
            assert(self@.markets =~= before.add_market(id, name@).markets);
            before.lemma_add_market_wf(id, name@);
        }
        Ok(())
    }

    /// Whether the store holds market `id`.
    pub fn has_market(&self, id: u64) -> (b: bool)
        ensures
            b == self@.markets.contains_key(id),
    {
        self.get_market(id).is_some()
    }

    /// Whether the store holds contract `id`.
    pub fn has_contract(&self, id: u64) -> (b: bool)
        ensures
            b == self@.contracts.contains_key(id),
    {
        self.get_contract(id).is_some()
    }

    /// Mid-price of contract `id`; nothing if the contract is unknown.
    pub fn contract_mid_price(&self, id: u64) -> (r: Option<u64>)
        ensures
            r == self@.mid_price(id),
    {
        match self.get_contract(id) {
            Some(contract) => Some(contract.prices.mid_price()),
            None => None,
        }
    }

    /// Spread of contract `id`; nothing if the contract is unknown.
    pub fn contract_spread(&self, id: u64) -> (r: Option<i128>)
        ensures
            match r {
                Some(s) => self@.spread(id) == Some(s as int),
                None => self@.spread(id).is_none(),
            },
    {
        match self.get_contract(id) {
            Some(contract) => Some(contract.prices.spread_ticks()),
            None => None,
        }
    }
}

} // verus!
