//! The two shapes of market data: raw snapshots, organised by market, and
//! canonical events, one observation of one contract each.

use crate::base::{ContractPrice, Status};
use crate::text::{
    ascii, comma_free, digits, i64_of, i64_text, is_text, join_columns, lemma_comma_free,
    lemma_i64_round_trip, lemma_price_round_trip, lemma_split_joined, lemma_take_column,
    lemma_u64_round_trip, parse_i64, parse_price, parse_u64, price_of, price_text, push_i64,
    push_price, push_str, push_u64, read_column_str, read_columns, split_columns, take_column,
    u64_of,
};
use std::collections::HashMap;
use vstd::prelude::*;
use vstd::std_specs::hash::*;
use vstd::std_specs::iter::IteratorSpec;

pub mod api_parser;
pub mod ingest;
pub mod md_cache;
pub mod reader;

verus! {

broadcast use vstd::std_specs::hash::group_hash_axioms;

/// One contract as a raw snapshot reports it.
#[derive(Debug, PartialEq, Eq)]
pub struct ContractData {
    pub id: u64,
    pub name: String,
    pub status: Status,
    pub trade_price: u64,
    pub ask_price: u64,
    pub bid_price: u64,
}

/// One market as a raw snapshot reports it, with all of its contracts.
/// `timestamp` is in milliseconds since the epoch.
#[derive(Debug, PartialEq, Eq)]
pub struct MarketData {
    pub id: u64,
    pub name: String,
    pub contracts: Vec<ContractData>,
    pub status: Status,
    pub timestamp: i64,
}

/// A raw snapshot: the markets it reports, by id.
#[derive(Debug, PartialEq, Eq)]
pub struct PIDataPacket {
    pub market_updates: HashMap<u64, MarketData>,
}

/// What a `ContractData` holds.
pub struct ContractDataView {
    pub id: u64,
    pub name: Seq<char>,
    pub status: Status,
    pub prices: ContractPrice,
}

/// What a `MarketData` holds.
pub struct MarketDataView {
    pub id: u64,
    pub name: Seq<char>,
    pub contracts: Seq<ContractDataView>,
    pub status: Status,
    pub timestamp: i64,
}

impl View for ContractData {
    type V = ContractDataView;

    open spec fn view(&self) -> ContractDataView {
        ContractDataView {
            id: self.id,
            name: self.name@,
            status: self.status,
            prices: ContractPrice {
                trade_price: self.trade_price,
                ask_price: self.ask_price,
                bid_price: self.bid_price,
            },
        }
    }
}

impl View for MarketData {
    type V = MarketDataView;

    open spec fn view(&self) -> MarketDataView {
        MarketDataView {
            id: self.id,
            name: self.name@,
            contracts: Seq::new(self.contracts@.len(), |i: int| self.contracts@[i]@),
            status: self.status,
            timestamp: self.timestamp,
        }
    }
}

impl View for PIDataPacket {
    type V = Map<u64, MarketDataView>;

    open spec fn view(&self) -> Map<u64, MarketDataView> {
        self.market_updates@.map_values(|m: MarketData| m@)
    }
}

/// What a list of markets with their keys holds.
pub open spec fn entries_view(v: Seq<(u64, &MarketData)>) -> Seq<(u64, MarketDataView)> {
    Seq::new(v.len(), |i: int| (v[i].0, v[i].1@))
}

impl PIDataPacket {
    /// The markets with their keys, in the order in which the map is
    /// walked.  The order belongs to the map as it stands: two maps that
    /// hold the same markets may be walked in different orders.
    pub open spec fn walk(&self) -> Seq<(u64, MarketDataView)> {
        let w = into_iter(spec_hash_map_iter(&self.market_updates));
        Seq::new(w.len(), |i: int| (w[i].0, w[i].1@))
    }

    /// The markets with their keys, in the order in which the map is
    /// walked: each entry of the map once.
    pub fn entries(&self) -> (r: Vec<(u64, &MarketData)>)
        ensures
            entries_view(r@) == self.walk(),
            forall|i: int|
                0 <= i < r@.len() ==> self@.contains_key((#[trigger] r@[i]).0) && self@[r@[i].0]
                    == r@[i].1@,
            forall|i: int, j: int| 0 <= i < j < r@.len() ==> r@[i].0 != r@[j].0,
            forall|k: u64|
                self@.contains_key(k) ==> exists|i: int|
                    0 <= i < r@.len() && (#[trigger] r@[i]).0 == k,
    {
        let mut out: Vec<(u64, &MarketData)> = Vec::new();
        let ghost order = spec_hash_map_iter(&self.market_updates).remaining();
        for entry in it: self.market_updates.iter()
            invariant
                it.seq() == order,
                out@.len() == it.index(),
                forall|i: int|
                    0 <= i < out@.len() ==> (#[trigger] out@[i]).0 == *order[i].0 && out@[i].1
                        == order[i].1,
        {
            let (k, v) = entry;
            out.push((*k, v));
        }
        proof {
            let m = self.market_updates@;
            assert(out@.len() == order.len());
            assert(entries_view(out@) =~= self.walk());
            assert forall|i: int| 0 <= i < out@.len() implies self@.contains_key(
                (#[trigger] out@[i]).0,
            ) && self@[out@[i].0] == out@[i].1@ by {
                assert(m.contains_key(*order[i].0));
                assert(m[*order[i].0] == *order[i].1);
            }
            assert forall|i: int, j: int| 0 <= i < j < out@.len() implies out@[i].0
                != out@[j].0 by {
                assert(m.contains_key(*order[i].0));
                assert(m.contains_key(*order[j].0));
                if out@[i].0 == out@[j].0 {
                    assert(order[i] == order[j]);
                }
            }
            assert forall|k: u64| self@.contains_key(k) implies exists|i: int|
                0 <= i < out@.len() && (#[trigger] out@[i]).0 == k by {
                assert(m.contains_key(k));
                assert(order.contains((&k, &m[k])));
                let i = choose|i: int| 0 <= i < order.len() && order[i] == (&k, &m[k]);
                assert(out@[i].0 == k);
            }
        }
        out
    }
}

impl Clone for ContractData {
    fn clone(&self) -> (r: Self)
        ensures
            r@ == self@,
    {
        ContractData {
            id: self.id,
            name: self.name.clone(),
            status: self.status,
            trade_price: self.trade_price,
            ask_price: self.ask_price,
            bid_price: self.bid_price,
        }
    }
}

impl Clone for MarketData {
    fn clone(&self) -> (r: Self)
        ensures
            r@ == self@,
    {
        let mut contracts: Vec<ContractData> = Vec::new();
        let mut i: usize = 0;
        while i < self.contracts.len()
            invariant
                i <= self.contracts.len(),
                contracts@.len() == i,
                forall|k: int| 0 <= k < i ==> (#[trigger] contracts@[k])@ == self.contracts@[k]@,
            decreases self.contracts.len() - i,
        {
            contracts.push(self.contracts[i].clone());
            i = i + 1;
        }
        let r = MarketData {
            id: self.id,
            name: self.name.clone(),
            contracts,
            status: self.status,
            timestamp: self.timestamp,
        };
        assert(r@.contracts =~= self@.contracts);
        r
    }
}

/// What is observed of a contract at one instant.
#[derive(Clone, Copy, Debug, PartialEq, Eq, Structural)]
pub enum PacketPayload {
    PIQuote { id: u64, market_id: u64, status: Status, trade_price: u64, bid_price: u64, ask_price: u64 },
}

/// A canonical event: one observation of one contract, with the time, in
/// milliseconds since the epoch, at which it was made.  Two events with the
/// same fields are the same event.
#[derive(Clone, Copy, Debug, PartialEq, Eq, Structural)]
pub struct DataPacket {
    pub timestamp: i64,
    pub payload: PacketPayload,
}

impl PacketPayload {
    /// A quote of contract `id` of market `market_id`.
    pub fn new_piquote(
        id: u64,
        market_id: u64,
        status: Status,
        trade_price: u64,
        ask_price: u64,
        bid_price: u64,
    ) -> (p: Self)
        ensures
            p == (PacketPayload::PIQuote { id, market_id, status, trade_price, bid_price, ask_price }),
    {
        PacketPayload::PIQuote { id, market_id, status, trade_price, bid_price, ask_price }
    }
}

impl DataPacket {
    /// An event observed at `timestamp`.
    pub fn new(timestamp: i64, payload: PacketPayload) -> (d: Self)
        ensures
            d == (DataPacket { timestamp, payload }),
    {
        DataPacket { timestamp, payload }
    }

    /// Id of the contract observed.
    pub fn id_of(&self) -> (id: u64)
        ensures
            id == self.id(),
    {
        match self.payload {
            PacketPayload::PIQuote { id, .. } => id,
        }
    }

    /// The contract observed.
    pub open spec fn id(self) -> u64 {
        self.payload->id
    }

    /// The market of the contract observed.
    pub open spec fn market_id(self) -> u64 {
        self.payload->market_id
    }

    /// The status observed.
    pub open spec fn status(self) -> Status {
        self.payload->status
    }

    /// The prices observed.
    pub open spec fn prices(self) -> ContractPrice {
        ContractPrice {
            trade_price: self.payload->trade_price,
            ask_price: self.payload->ask_price,
            bid_price: self.payload->bid_price,
        }
    }
}

/// The status that the column `column` stands for, if it stands for one.
pub open spec fn status_of(column: Seq<u8>) -> Option<Status> {
    if column == ascii(Status::Open.text()) {
        Some(Status::Open)
    } else if column == ascii(Status::Closed.text()) {
        Some(Status::Closed)
    } else {
        None
    }
}

/// The columns of a payload: the word `piquote`, the contract, the market,
/// the status, and the trade, bid and ask prices.
pub open spec fn payload_columns(p: PacketPayload) -> Seq<Seq<u8>> {
    seq![
        ascii("piquote"@),
        digits(p->id as nat),
        digits(p->market_id as nat),
        ascii(p->status.text()),
        price_text(p->trade_price),
        price_text(p->bid_price),
        price_text(p->ask_price),
    ]
}

/// The text of a payload: its columns, each closed by a comma.
pub open spec fn payload_text(p: PacketPayload) -> Seq<u8> {
    join_columns(payload_columns(p))
}

/// The text of a payload, column by column.
pub proof fn lemma_payload_text(p: PacketPayload)
    ensures
        payload_text(p) == ascii("piquote"@) + seq![44u8] + digits(p->id as nat) + seq![44u8]
            + digits(p->market_id as nat) + seq![44u8] + ascii(p->status.text()) + seq![44u8]
            + price_text(p->trade_price) + seq![44u8] + price_text(p->bid_price) + seq![44u8]
            + price_text(p->ask_price) + seq![44u8],
{
    let c = payload_columns(p);
    let c6 = c.drop_last();
    let c5 = c6.drop_last();
    let c4 = c5.drop_last();
    let c3 = c4.drop_last();
    let c2 = c3.drop_last();
    let c1 = c2.drop_last();
    let c0 = c1.drop_last();
    assert(join_columns(c0) =~= Seq::<u8>::empty());
    assert(join_columns(c1) =~= c[0] + seq![44u8]);
    assert(join_columns(c2) =~= join_columns(c1) + c[1] + seq![44u8]);
    assert(join_columns(c3) =~= join_columns(c2) + c[2] + seq![44u8]);
    assert(join_columns(c4) =~= join_columns(c3) + c[3] + seq![44u8]);
    assert(join_columns(c5) =~= join_columns(c4) + c[4] + seq![44u8]);
    assert(join_columns(c6) =~= join_columns(c5) + c[5] + seq![44u8]);
    assert(join_columns(c) =~= join_columns(c6) + c[6] + seq![44u8]);
}

/// The text of an event: one line, made of the timestamp, closed by a
/// comma, and the payload.
pub open spec fn record_text(d: DataPacket) -> Seq<u8> {
    i64_text(d.timestamp) + seq![44u8] + payload_text(d.payload) + seq![10u8]
}

/// The column names of a payload, each closed by a comma.
pub open spec fn payload_header_text() -> Seq<u8> {
    ascii("type,id,market_id,status,trade_price,bid_price,ask_price,"@)
}

/// The header line that precedes the events of a file.
pub open spec fn header_text() -> Seq<u8> {
    ascii("timestamp,"@) + payload_header_text() + seq![10u8]
}

/// The payload that seven columns write, if they write one.
pub open spec fn payload_of_columns(columns: Seq<Seq<u8>>) -> Option<PacketPayload> {
    if columns.len() == 7 && columns[0] == ascii("piquote"@) {
        match (
            u64_of(columns[1]),
            u64_of(columns[2]),
            status_of(columns[3]),
            price_of(columns[4]),
            price_of(columns[5]),
            price_of(columns[6]),
        ) {
            (
                Some(id),
                Some(market_id),
                Some(status),
                Some(trade_price),
                Some(bid_price),
                Some(ask_price),
            ) => Some(
                PacketPayload::PIQuote { id, market_id, status, trade_price, bid_price, ask_price },
            ),
            _ => None,
        }
    } else {
        None
    }
}

/// The payload that the start of `s` writes, and the text behind it.
pub open spec fn payload_of(s: Seq<u8>) -> Option<(PacketPayload, Seq<u8>)> {
    match split_columns(s, 7) {
        Some((columns, tail)) => match payload_of_columns(columns) {
            Some(p) => Some((p, tail)),
            None => None,
        },
        None => None,
    }
}

/// The event that the line `s` writes, if it writes one.  The line may end
/// with a line feed or without.
pub open spec fn record_of(s: Seq<u8>) -> Option<DataPacket> {
    match take_column(s) {
        Some((column, rest)) => match (i64_of(column), payload_of(rest)) {
            (Some(timestamp), Some((payload, tail))) => if tail.len() == 0 || tail == seq![10u8] {
                Some(DataPacket { timestamp, payload })
            } else {
                None
            },
            _ => None,
        },
        None => None,
    }
}

impl PacketPayload {
    /// Appends the text of the payload to `write_buf`.
    pub fn csv_serialize(&self, write_buf: &mut Vec<u8>)
        ensures
            final(write_buf)@ == old(write_buf)@ + payload_text(*self),
    {
        let ghost start = write_buf@;
        proof {
            reveal_strlit("piquote");
        }
        match self {
            PacketPayload::PIQuote {
                id,
                market_id,
                status,
                trade_price,
                bid_price,
                ask_price,
            } => {
                push_str(write_buf, "piquote");
                write_buf.push(44u8);
                push_u64(write_buf, *id);
                write_buf.push(44u8);
                push_u64(write_buf, *market_id);
                write_buf.push(44u8);
                push_str(write_buf, status.as_str());
                write_buf.push(44u8);
                push_price(write_buf, *trade_price);
                write_buf.push(44u8);
                push_price(write_buf, *bid_price);
                write_buf.push(44u8);
                push_price(write_buf, *ask_price);
                write_buf.push(44u8);
            },
        }
        proof {
            lemma_payload_text(*self);
        }
        assert(write_buf@ =~= start + payload_text(*self));
    }

    /// Reads a payload from `input` at `pos`; returns it with the position
    /// behind it.
    pub fn csv_deserialize(input: &[u8], pos: usize) -> (r: Result<(Self, usize), ()>)
        requires
            pos <= input@.len(),
        ensures
            match r {
                Ok((p, next)) => pos <= next <= input@.len() && payload_of(
                    input@.skip(pos as int),
                ) == Some((p, input@.skip(next as int))),
                Err(_) => payload_of(input@.skip(pos as int)).is_none(),
            },
    {
        proof {
            reveal_strlit("piquote");
            reveal_strlit("OPEN");
            reveal_strlit("CLOSED");
        }
        let (ends, next) = match read_columns(input, pos, 7) {
            Ok(found) => found,
            Err(_) => {
                return Err(());
            },
        };
        let ghost columns = Seq::new(
            7nat,
            |i: int| input@.subrange(crate::text::column_start(ends@, pos, i), ends@[i] as int),
        );
        assert(ends@[0] < input@.len());
        assert(ends@[1] < input@.len());
        assert(ends@[2] < input@.len());
        assert(ends@[3] < input@.len());
        assert(ends@[4] < input@.len());
        assert(ends@[5] < input@.len());
        assert(ends@[6] < input@.len());
        if !is_text(input, pos, ends[0], "piquote") {
            assert(columns[0] != ascii("piquote"@));
            return Err(());
        }
        assert(columns[0] == ascii("piquote"@));
        let id = parse_u64(input, ends[0] + 1, ends[1]);
        assert(id == u64_of(columns[1]));
        let market_id = parse_u64(input, ends[1] + 1, ends[2]);
        assert(market_id == u64_of(columns[2]));
        let status = if is_text(input, ends[2] + 1, ends[3], "OPEN") {
            Some(Status::Open)
        } else if is_text(input, ends[2] + 1, ends[3], "CLOSED") {
            Some(Status::Closed)
        } else {
            None
        };
        assert(status == status_of(columns[3]));
        let trade_price = parse_price(input, ends[3] + 1, ends[4]);
        assert(trade_price == price_of(columns[4]));
        let bid_price = parse_price(input, ends[4] + 1, ends[5]);
        assert(bid_price == price_of(columns[5]));
        let ask_price = parse_price(input, ends[5] + 1, ends[6]);
        assert(ask_price == price_of(columns[6]));
        match (id, market_id, status, trade_price, bid_price, ask_price) {
            (
                Some(id),
                Some(market_id),
                Some(status),
                Some(trade_price),
                Some(bid_price),
                Some(ask_price),
            ) => Ok(
                (
                    PacketPayload::PIQuote {
                        id,
                        market_id,
                        status,
                        trade_price,
                        bid_price,
                        ask_price,
                    },
                    next,
                ),
            ),
            _ => Err(()),
        }
    }

    /// Appends the column names of a payload to `write_buf`.
    pub fn write_header(write_buf: &mut Vec<u8>)
        ensures
            final(write_buf)@ == old(write_buf)@ + payload_header_text(),
    {
        proof {
            reveal_strlit("type,id,market_id,status,trade_price,bid_price,ask_price,");
        }
        push_str(write_buf, "type,id,market_id,status,trade_price,bid_price,ask_price,");
    }
}

impl DataPacket {
    /// Appends the line of the event to `writer`.
    pub fn csv_serialize(&self, writer: &mut Vec<u8>)
        ensures
            final(writer)@ == old(writer)@ + record_text(*self),
    {
        let ghost start = writer@;
        push_i64(writer, self.timestamp);
        writer.push(44u8);
        self.payload.csv_serialize(writer);
        writer.push(10u8);
        assert(writer@ =~= start + record_text(*self));
    }

    /// Appends the header line to `writer`.
    pub fn write_header(writer: &mut Vec<u8>)
        ensures
            final(writer)@ == old(writer)@ + header_text(),
    {
        let ghost start = writer@;
        proof {
            reveal_strlit("timestamp,");
        }
        push_str(writer, "timestamp,");
        PacketPayload::write_header(writer);
        writer.push(10u8);
        assert(writer@ =~= start + header_text());
    }

    /// Reads the event that the line `input` writes.
    pub fn csv_deserialize(input: &[u8]) -> (r: Result<Self, ()>)
        ensures
            match r {
                Ok(d) => record_of(input@) == Some(d),
                Err(_) => record_of(input@).is_none(),
            },
    {
        assert(input@.skip(0) =~= input@);
        let len = input.len();
        let end = match read_column_str(input, 0) {
            Ok(end) => end,
            Err(_) => {
                return Err(());
            },
        };
        let timestamp = parse_i64(input, 0, end);
        let (payload, next) = match PacketPayload::csv_deserialize(input, end + 1) {
            Ok(found) => found,
            Err(_) => {
                return Err(());
            },
        };
        let timestamp = match timestamp {
            Some(timestamp) => timestamp,
            None => {
                return Err(());
            },
        };
        let ghost tail = input@.skip(next as int);
        if next == len {
            Ok(DataPacket { timestamp, payload })
        } else if next + 1 == len && input[next] == 10u8 {
            assert(tail =~= seq![10u8]);
            Ok(DataPacket { timestamp, payload })
        } else {
            proof {
                if tail == seq![10u8] {
                    assert(tail.len() == 1);
                    assert(tail[0] == input@[next as int]);
                }
            }
            Err(())
        }
    }

    /// Whether `input` is the header line.
    pub fn check_header(input: &[u8]) -> (r: bool)
        ensures
            r == (input@ == header_text()),
    {
        let mut reference_header: Vec<u8> = Vec::new();
        DataPacket::write_header(&mut reference_header);
        assert(reference_header@ =~= header_text());
        if input.len() != reference_header.len() {
            return false;
        }
        let mut i: usize = 0;
        while i < input.len()
            invariant
                i <= input@.len(),
                input@.len() == reference_header@.len(),
                reference_header@ == header_text(),
                forall|k: int| 0 <= k < i ==> input@[k] == reference_header@[k],
            decreases input.len() - i,
        {
            if input[i] != reference_header[i] {
                return false;
            }
            i = i + 1;
        }
        assert(input@ =~= reference_header@);
        true
    }
}

/// The columns of a payload hold no comma and write the payload.
pub proof fn lemma_payload_columns(p: PacketPayload)
    ensures
        payload_columns(p).len() == 7,
        forall|i: int| 0 <= i < 7 ==> comma_free(#[trigger] payload_columns(p)[i]),
        payload_of_columns(payload_columns(p)) == Some(p),
{
    let c = payload_columns(p);
    assert(comma_free(c[0]) && comma_free(c[3]) && status_of(c[3]) == Some(p->status)) by {
        reveal_strlit("piquote");
        reveal_strlit("OPEN");
        reveal_strlit("CLOSED");
        assert(ascii(Status::Open.text()).len() == 4);
        assert(ascii(Status::Closed.text()).len() == 6);
    }
    lemma_comma_free(p->id as nat, 0, p->trade_price);
    lemma_comma_free(p->market_id as nat, 0, p->bid_price);
    lemma_comma_free(0, 0, p->ask_price);
    lemma_u64_round_trip(p->id);
    lemma_u64_round_trip(p->market_id);
    lemma_price_round_trip(p->trade_price);
    lemma_price_round_trip(p->bid_price);
    lemma_price_round_trip(p->ask_price);
}

/// Reading back the text of a payload gives the payload and leaves what
/// follows.
pub proof fn lemma_payload_round_trip(p: PacketPayload, tail: Seq<u8>)
    ensures
        payload_of(payload_text(p) + tail) == Some((p, tail)),
{
    lemma_payload_columns(p);
    lemma_split_joined(payload_columns(p), tail);
}

/// Reading back the line of an event, with its line feed or without,
/// gives the event.
pub proof fn lemma_record_round_trip(d: DataPacket)
    ensures
        record_of(record_text(d)) == Some(d),
        record_of(record_text(d).drop_last()) == Some(d),
{
    let p = d.payload;
    let ts = i64_text(d.timestamp);
    lemma_comma_free(0, d.timestamp, 0);
    lemma_i64_round_trip(d.timestamp);
    lemma_payload_round_trip(p, seq![10u8]);
    lemma_payload_round_trip(p, Seq::empty());
    lemma_take_column(ts, payload_text(p) + seq![10u8]);
    lemma_take_column(ts, payload_text(p) + Seq::<u8>::empty());
    assert(record_text(d) =~= ts + seq![44u8] + (payload_text(p) + seq![10u8]));
    assert(record_text(d).drop_last() =~= ts + seq![44u8] + (payload_text(p) + Seq::<u8>::empty()));
}

} // verus!
