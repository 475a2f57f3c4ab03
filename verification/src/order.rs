//! The data model of the pipeline: order sides and types, client submissions,
//! sequenced orders, book-resident orders and execution events.
//!
//! All prices are integer counts of the venue's price tick; sizes are unit
//! counts. Both are exact, totally ordered values.

use vstd::prelude::*;

verus! {

/// Which side of the book an order belongs to.
#[derive(Debug, Clone, Copy, PartialEq, Eq, Structural)]
pub enum Side {
    ASK,
    BID,
}

/// The kind of an order: a priced limit order or an unpriced market order.
#[derive(Debug, Clone, Copy, PartialEq, Eq, Structural)]
pub enum OrderType {
    LIMIT,
    MARKET,
}

/// Ghost image of an order: the fields the contracts speak about,
/// with the strings as character sequences.
pub struct OrderView {
    pub seq_id: u128,
    pub order_id: Seq<char>,
    pub quote: Seq<char>,
    pub price: u64,
    pub size: u64,
    pub side: Side,
    pub order_type: OrderType,
}

/// A client order after sequencing: the submitted fields plus the sequence
/// id the sequencer stamped it with.
#[derive(Debug, Clone)]
pub struct RawOrder {
    pub seq_id: u128,
    pub order_id: String,
    pub quote: String,
    pub price: u64,
    pub size: u64,
    pub side: Side,
    pub order_type: OrderType,
}

impl View for RawOrder {
    type V = OrderView;

    open spec fn view(&self) -> OrderView {
        OrderView {
            seq_id: self.seq_id,
            order_id: self.order_id@,
            quote: self.quote@,
            price: self.price,
            size: self.size,
            side: self.side,
            order_type: self.order_type,
        }
    }
}

/// An order as it rests in the book. Identical to the sequenced order; the
/// level that owns it keeps arrival order, so no sibling links are needed.
#[derive(Debug, Clone)]
pub struct Order {
    pub seq_id: u128,
    pub order_id: String,
    pub quote: String,
    pub price: u64,
    pub size: u64,
    pub side: Side,
    pub order_type: OrderType,
}

impl View for Order {
    type V = OrderView;

    open spec fn view(&self) -> OrderView {
        OrderView {
            seq_id: self.seq_id,
            order_id: self.order_id@,
            quote: self.quote@,
            price: self.price,
            size: self.size,
            side: self.side,
            order_type: self.order_type,
        }
    }
}

impl From<RawOrder> for Order {
    fn from(value: RawOrder) -> (r: Order) {
        Order {
            seq_id: value.seq_id,
            order_id: value.order_id,
            quote: value.quote,
            price: value.price,
            size: value.size,
            side: value.side,
            order_type: value.order_type,
        }
    }
}

impl vstd::std_specs::convert::FromSpecImpl<RawOrder> for Order {
    open spec fn obeys_from_spec() -> bool {
        true
    }

    open spec fn from_spec(v: RawOrder) -> Order {
        Order {
            seq_id: v.seq_id,
            order_id: v.order_id,
            quote: v.quote,
            price: v.price,
            size: v.size,
            side: v.side,
            order_type: v.order_type,
        }
    }
}

/// An execution event, keyed by the sequence id of the order it describes.
///
/// A partial fill carries the trade price and the traded quantity. A fill —
/// the trade that brings an order's remaining size to zero — carries the
/// price and quantity of its final fragment as well.
#[derive(Debug, Clone, Copy, PartialEq, Eq, Structural)]
pub enum Execution {
    INSERTED,
    CANCELLED,
    FILL(u64, u64),
    PARTIAL(u64, u64),
}

/// An execution event bound to the sequence id of the order it describes.
#[derive(Debug, Clone, Copy, PartialEq, Eq, Structural)]
pub struct ExecuteMessage {
    pub seq_id: u128,
    pub execution: Execution,
}

impl ExecuteMessage {
    pub fn new(seq_id: u128, execution: Execution) -> (r: Self)
        ensures
            r == (ExecuteMessage { seq_id, execution }),
    {
        Self { seq_id, execution }
    }

    pub fn set_execution(&mut self, execution: Execution)
        ensures
            *final(self) == (ExecuteMessage { seq_id: old(self).seq_id, execution }),
    {
        self.execution = execution;
    }
}

/// A client submission before sequencing.
#[derive(Debug, Clone)]
pub struct OrderValue {
    pub quote: String,
    pub order_id: String,
    pub price: u64,
    pub size: u64,
    pub side: Side,
    pub order_type: OrderType,
}

/// Ghost image of a client submission.
pub struct OrderValueView {
    pub quote: Seq<char>,
    pub order_id: Seq<char>,
    pub price: u64,
    pub size: u64,
    pub side: Side,
    pub order_type: OrderType,
}

impl View for OrderValue {
    type V = OrderValueView;

    open spec fn view(&self) -> OrderValueView {
        OrderValueView {
            quote: self.quote@,
            order_id: self.order_id@,
            price: self.price,
            size: self.size,
            side: self.side,
            order_type: self.order_type,
        }
    }
}

/// What promoting a submission with a sequence id yields.
pub open spec fn spec_promote(v: OrderValueView, seq: u128) -> OrderView {
    OrderView {
        seq_id: seq,
        order_id: v.order_id,
        quote: v.quote,
        price: v.price,
        size: v.size,
        side: v.side,
        order_type: v.order_type,
    }
}

impl OrderValue {
    /// Promote this submission into a sequenced order carrying `seq`.
    pub fn into_raw(&self, seq: u128) -> (r: RawOrder)
        ensures
            r@ == spec_promote(self@, seq),
    {
        RawOrder {
            seq_id: seq,
            order_id: self.order_id.clone(),
            quote: self.quote.clone(),
            price: self.price,
            size: self.size,
            side: self.side,
            order_type: self.order_type,
        }
    }
}

impl Default for RawOrder {
    fn default() -> (r: Self)
        ensures
            r.seq_id == 0,
            r.order_id@ == "DEFAULT_ORDER"@,
            r.quote@ == "DEFAULT"@,
            r.price == 0,
            r.size == 0,
            r.side == Side::BID,
            r.order_type == OrderType::LIMIT,
    {
        RawOrder {
            seq_id: 0,
            order_id: "DEFAULT_ORDER".to_owned(),
            quote: "DEFAULT".to_owned(),
            price: 0,
            size: 0,
            side: Side::BID,
            order_type: OrderType::LIMIT,
        }
    }
}

impl RawOrder {
    pub fn with_seq_id(self, id: u128) -> (r: Self)
        ensures
            r == (RawOrder { seq_id: id, ..self }),
    {
        RawOrder { seq_id: id, ..self }
    }

    pub fn with_order_id(self, order_id: String) -> (r: Self)
        ensures
            r == (RawOrder { order_id, ..self }),
    {
        RawOrder { order_id, ..self }
    }

    pub fn with_quote(self, quote: String) -> (r: Self)
        ensures
            r == (RawOrder { quote, ..self }),
    {
        RawOrder { quote, ..self }
    }

    pub fn with_price(self, price: u64) -> (r: Self)
        ensures
            r == (RawOrder { price, ..self }),
    {
        RawOrder { price, ..self }
    }

    pub fn with_size(self, size: u64) -> (r: Self)
        ensures
            r == (RawOrder { size, ..self }),
    {
        RawOrder { size, ..self }
    }

    pub fn with_side(self, side: Side) -> (r: Self)
        ensures
            r == (RawOrder { side, ..self }),
    {
        RawOrder { side, ..self }
    }

    pub fn with_order_type(self, order_type: OrderType) -> (r: Self)
        ensures
            r == (RawOrder { order_type, ..self }),
    {
        RawOrder { order_type, ..self }
    }
}

/// Placeholder for the order-manager-to-sequencer envelope.
pub struct RawMessage {}

/// The sequenced-order record in the flat shape the wire uses: the side and
/// the order type are carried as booleans (`true` is BID, `true` is LIMIT).
#[derive(Debug, Clone, PartialEq)]
pub struct RawSequencedOrder {
    pub seq_id: u128,
    pub order_id: String,
    pub quote: String,
    pub price: u64,
    pub size: u64,
    pub side: bool,
    pub order_type: bool,
}

impl Default for RawSequencedOrder {
    fn default() -> (r: Self)
        ensures
            r.seq_id == 0,
            r.order_id@ == "DEFAULT_ORDER"@,
            r.quote@ == "DEFAULT"@,
            r.price == 0,
            r.size == 0,
            r.side == false,
            r.order_type == false,
    {
        RawSequencedOrder {
            seq_id: 0,
            order_id: "DEFAULT_ORDER".to_owned(),
            quote: "DEFAULT".to_owned(),
            price: 0,
            size: 0,
            side: false,
            order_type: false,
        }
    }
}

impl RawSequencedOrder {
    pub fn with_seq_id(self, id: u128) -> (r: Self)
        ensures
            r == (RawSequencedOrder { seq_id: id, ..self }),
    {
        RawSequencedOrder { seq_id: id, ..self }
    }

    pub fn with_order_id(self, order_id: String) -> (r: Self)
        ensures
            r == (RawSequencedOrder { order_id, ..self }),
    {
        RawSequencedOrder { order_id, ..self }
    }

    pub fn with_quote(self, quote: String) -> (r: Self)
        ensures
            r == (RawSequencedOrder { quote, ..self }),
    {
        RawSequencedOrder { quote, ..self }
    }

    pub fn with_price(self, price: u64) -> (r: Self)
        ensures
            r == (RawSequencedOrder { price, ..self }),
    {
        RawSequencedOrder { price, ..self }
    }

    pub fn with_size(self, size: u64) -> (r: Self)
        ensures
            r == (RawSequencedOrder { size, ..self }),
    {
        RawSequencedOrder { size, ..self }
    }

    pub fn with_side(self, side: bool) -> (r: Self)
        ensures
            r == (RawSequencedOrder { side, ..self }),
    {
        RawSequencedOrder { side, ..self }
    }

    pub fn with_order_type(self, order_type: bool) -> (r: Self)
        ensures
            r == (RawSequencedOrder { order_type, ..self }),
    {
        RawSequencedOrder { order_type, ..self }
    }
}

impl From<RawSequencedOrder> for RawOrder {
    fn from(value: RawSequencedOrder) -> (r: RawOrder) {
        let side = if value.side {
            Side::BID
        } else {
            Side::ASK
        };
        let order_type = if value.order_type {
            OrderType::LIMIT
        } else {
            OrderType::MARKET
        };
        RawOrder {
            seq_id: value.seq_id,
            order_id: value.order_id,
            quote: value.quote,
            price: value.price,
            size: value.size,
            side,
            order_type,
        }
    }
}

impl vstd::std_specs::convert::FromSpecImpl<RawSequencedOrder> for RawOrder {
    open spec fn obeys_from_spec() -> bool {
        true
    }

    open spec fn from_spec(v: RawSequencedOrder) -> RawOrder {
        RawOrder {
            seq_id: v.seq_id,
            order_id: v.order_id,
            quote: v.quote,
            price: v.price,
            size: v.size,
            side: if v.side {
                Side::BID
            } else {
                Side::ASK
            },
            order_type: if v.order_type {
                OrderType::LIMIT
            } else {
                OrderType::MARKET
            },
        }
    }
}

} // verus!
