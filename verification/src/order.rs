//! Orders, fills and the enumerations they are built from.
//!
//! Every executable type has a mathematical view (`OrderView`, `FillView`)
//! over which the contracts of the crate are stated.

use vstd::prelude::*;

verus! {

/// The side of the book an order belongs to.
#[derive(Clone, Copy, Debug, PartialEq, Eq, Structural)]
pub enum Side {
    Buy,
    Sell,
}

impl Side {
    /// The side an order of this side trades against.
    pub open spec fn spec_opposite(self) -> Side {
        match self {
            Side::Buy => Side::Sell,
            Side::Sell => Side::Buy,
        }
    }

    /// The side an order of this side trades against.
    #[verifier::when_used_as_spec(spec_opposite)]
    pub fn opposite(self) -> (r: Side)
        ensures
            r == self.spec_opposite(),
    {
        match self {
            Side::Buy => Side::Sell,
            Side::Sell => Side::Buy,
        }
    }
}

/// Whether an order is bound by its price.
#[derive(Clone, Copy, Debug, PartialEq, Eq, Structural)]
pub enum OrderType {
    /// Trades at its price or better.
    Limit,
    /// Trades at any price.
    Market,
}

/// The mathematical value of an [`Order`].
pub struct OrderView {
    pub quantity: nat,
    pub symbol: Seq<char>,
    pub price: nat,
    pub side: Side,
    pub order_type: OrderType,
    pub client_order_id: Seq<char>,
    pub sequence: nat,
}

impl OrderView {
    /// The worst price the order accepts. A limit order accepts its own
    /// price. A market order accepts every price, so a buyer's limit is the
    /// top of the price range and a seller's is zero.
    pub open spec fn limit(self) -> nat {
        match self.order_type {
            OrderType::Limit => self.price,
            OrderType::Market => match self.side {
                Side::Buy => u64::MAX as nat,
                Side::Sell => 0,
            },
        }
    }

    /// The order with `q` units taken off its quantity.
    pub open spec fn reduced(self, q: nat) -> OrderView {
        OrderView { quantity: (self.quantity - q) as nat, ..self }
    }

    /// The order carrying the arrival index `sequence`.
    pub open spec fn stamped(self, sequence: nat) -> OrderView {
        OrderView { sequence, ..self }
    }

    /// What the book demands of an order before it lets it rest: a positive
    /// quantity, and a positive price if the order is a limit order.
    pub open spec fn acceptable(self) -> bool {
        &&& self.quantity > 0
        &&& self.order_type == OrderType::Limit ==> self.price > 0
    }

    /// Price-time priority: `self` is served before `other`, both resting on
    /// the side of `self`. A better limit goes first; at equal limits the
    /// earlier arrival goes first.
    pub open spec fn precedes(self, other: OrderView) -> bool {
        ||| self.beats(other)
        ||| (self.limit() == other.limit() && self.sequence < other.sequence)
    }

    /// `self` and `other`, an order of the opposite side, can trade: the
    /// buyer's limit is at least the seller's.
    pub open spec fn meets(self, other: OrderView) -> bool {
        match self.side {
            Side::Buy => self.limit() >= other.limit(),
            Side::Sell => other.limit() >= self.limit(),
        }
    }

    /// `self` offers a strictly better price than `other`, both on the side
    /// of `self`: a higher bid or a lower ask.
    pub open spec fn beats(self, other: OrderView) -> bool {
        match self.side {
            Side::Buy => self.limit() > other.limit(),
            Side::Sell => self.limit() < other.limit(),
        }
    }
}

/// One submitted instruction. Only `quantity` changes after the order is
/// accepted by a book, and only a matcher changes it.
#[derive(Debug, PartialEq, Eq)]
pub struct Order {
    /// Quantity not yet matched.
    pub quantity: u64,
    /// Instrument identifier, carried for bookkeeping only.
    pub symbol: String,
    /// Price in ticks. Binding for limit orders only.
    pub price: u64,
    pub side: Side,
    pub order_type: OrderType,
    /// Identifier chosen by the submitter, echoed in fills.
    pub client_order_id: String,
    /// Arrival index, assigned by the book on insertion.
    pub sequence: u64,
}

impl View for Order {
    type V = OrderView;

    open spec fn view(&self) -> OrderView {
        OrderView {
            quantity: self.quantity as nat,
            symbol: self.symbol@,
            price: self.price as nat,
            side: self.side,
            order_type: self.order_type,
            client_order_id: self.client_order_id@,
            sequence: self.sequence as nat,
        }
    }
}

impl Clone for Order {
    fn clone(&self) -> (r: Order)
        ensures
            r == *self,
    {
        Order {
            quantity: self.quantity,
            symbol: self.symbol.clone(),
            price: self.price,
            side: self.side,
            order_type: self.order_type,
            client_order_id: self.client_order_id.clone(),
            sequence: self.sequence,
        }
    }
}

impl Order {
    /// An order that has not arrived at a book yet: its arrival index is 0
    /// until a book assigns one.
    pub fn new(
        quantity: u64,
        symbol: String,
        price: u64,
        side: Side,
        order_type: OrderType,
        client_order_id: String,
    ) -> (r: Order)
        ensures
            r == (Order {
                quantity,
                symbol,
                price,
                side,
                order_type,
                client_order_id,
                sequence: 0,
            }),
    {
        Order { quantity, symbol, price, side, order_type, client_order_id, sequence: 0 }
    }

    /// The worst price the order accepts.
    pub fn limit(&self) -> (r: u64)
        ensures
            r == self@.limit(),
    {
        match self.order_type {
            OrderType::Limit => self.price,
            OrderType::Market => match self.side {
                Side::Buy => u64::MAX,
                Side::Sell => 0,
            },
        }
    }

    /// Whether a book lets the order rest.
    pub fn is_acceptable(&self) -> (r: bool)
        ensures
            r == self@.acceptable(),
    {
        self.quantity > 0 && (match self.order_type {
            OrderType::Limit => self.price > 0,
            OrderType::Market => true,
        })
    }

    /// Whether the order is served before `other`, both resting on the side
    /// of `self`.
    pub fn precedes(&self, other: &Order) -> (r: bool)
        ensures
            r == self@.precedes(other@),
    {
        let mine: u64 = self.limit();
        let theirs: u64 = other.limit();
        let better = match self.side {
            Side::Buy => mine > theirs,
            Side::Sell => mine < theirs,
        };
        better || (mine == theirs && self.sequence < other.sequence)
    }
}

/// The mathematical value of a [`Fill`].
pub struct FillView {
    pub taker_order_id: Seq<char>,
    pub maker_order_id: Seq<char>,
    pub price: nat,
    pub quantity: nat,
    pub sequence: nat,
}

/// One matched quantity between a taker and a maker at one price.
#[derive(Debug, PartialEq, Eq)]
pub struct Fill {
    /// Client identifier of the order that drove the match.
    pub taker_order_id: String,
    /// Client identifier of the resting order that was matched.
    pub maker_order_id: String,
    /// The price of the trade: the maker's limit.
    pub price: u64,
    pub quantity: u64,
    /// Position of the fill within its matching pass, from 0.
    pub sequence: u64,
}

impl View for Fill {
    type V = FillView;

    open spec fn view(&self) -> FillView {
        FillView {
            taker_order_id: self.taker_order_id@,
            maker_order_id: self.maker_order_id@,
            price: self.price as nat,
            quantity: self.quantity as nat,
            sequence: self.sequence as nat,
        }
    }
}

impl Clone for Fill {
    fn clone(&self) -> (r: Fill)
        ensures
            r == *self,
    {
        Fill {
            taker_order_id: self.taker_order_id.clone(),
            maker_order_id: self.maker_order_id.clone(),
            price: self.price,
            quantity: self.quantity,
            sequence: self.sequence,
        }
    }
}

/// The views of a sequence of orders, in order.
pub open spec fn order_views(s: Seq<Order>) -> Seq<OrderView> {
    Seq::new(s.len(), |i: int| s[i]@)
}

/// The views of a sequence of fills, in order.
pub open spec fn fill_views(s: Seq<Fill>) -> Seq<FillView> {
    Seq::new(s.len(), |i: int| s[i]@)
}

} // verus!
