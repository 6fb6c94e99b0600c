//! Value types of the engine: orders, trades, events and reasons.

use vstd::prelude::*;

verus! {

/// A price in fixed-point ticks: the decimal price scaled by a fixed power of ten.
/// Comparison and equality are those of the integers.
pub type Price = u64;

/// A caller-assigned order identifier, unique over the lifetime of a book.
pub type OrderId = u64;

/// An engine-assigned trade identifier.
pub type TradeId = u64;

/// An amount in minor units.
pub type Amount = u64;

/// A 128-bit user identifier (the bits of a UUID).
pub type UserId = u128;

#[derive(Debug, Clone, Copy, PartialEq, Eq, Structural)]
pub enum OrderSide {
    Buy,
    Sell,
}

#[derive(Debug, Clone, Copy, PartialEq, Eq, Structural)]
pub enum TimeInForce {
    /// Good till cancelled: the residual rests on the book.
    GTC,
    /// Immediate or cancel: the residual is cancelled.
    IOC,
    /// Fill or kill: executes in full or not at all.
    FOK,
}

#[derive(Debug, Clone, Copy, PartialEq, Eq, Structural)]
pub enum OrderType {
    Market,
    Limit { post_only: bool, price: Price, tif: TimeInForce },
}

#[derive(Debug, Clone, Copy, PartialEq, Eq, Structural)]
pub enum CancelReason {
    UserRequest,
    IocExpired,
    FokLiquidityShortage,
}

#[derive(Debug, Clone, Copy, PartialEq, Eq, Structural)]
pub enum RejectReason {
    PostOnlyViolation,
    InvalidPrice,
    InvalidAmount,
    SymbolNotFound,
}

pub open spec fn cancel_reason_name(r: CancelReason) -> Seq<char> {
    match r {
        CancelReason::UserRequest => "UserRequest"@,
        CancelReason::IocExpired => "IocExpired"@,
        CancelReason::FokLiquidityShortage => "FokLiquidityShortage"@,
    }
}

pub open spec fn reject_reason_name(r: RejectReason) -> Seq<char> {
    match r {
        RejectReason::PostOnlyViolation => "PostOnlyViolation"@,
        RejectReason::InvalidPrice => "InvalidPrice"@,
        RejectReason::InvalidAmount => "InvalidAmount"@,
        RejectReason::SymbolNotFound => "SymbolNotFound"@,
    }
}

impl CancelReason {
    /// The reason's name, as it is shown to users.
    pub fn as_str(&self) -> (r: &'static str)
        ensures
            r@ == cancel_reason_name(*self),
    {
        proof {
            reveal_strlit("UserRequest");
            reveal_strlit("IocExpired");
            reveal_strlit("FokLiquidityShortage");
        }
        match self {
            CancelReason::UserRequest => "UserRequest",
            CancelReason::IocExpired => "IocExpired",
            CancelReason::FokLiquidityShortage => "FokLiquidityShortage",
        }
    }
}

impl RejectReason {
    /// The reason's name, as it is shown to users.
    pub fn as_str(&self) -> (r: &'static str)
        ensures
            r@ == reject_reason_name(*self),
    {
        proof {
            reveal_strlit("PostOnlyViolation");
            reveal_strlit("InvalidPrice");
            reveal_strlit("InvalidAmount");
            reveal_strlit("SymbolNotFound");
        }
        match self {
            RejectReason::PostOnlyViolation => "PostOnlyViolation",
            RejectReason::InvalidPrice => "InvalidPrice",
            RejectReason::InvalidAmount => "InvalidAmount",
            RejectReason::SymbolNotFound => "SymbolNotFound",
        }
    }
}

/// An order as it arrives at the engine.
#[derive(Debug, Clone, Copy, PartialEq, Eq, Structural)]
pub struct IncomingOrder {
    pub order_id: OrderId,
    pub user_id: UserId,
    pub side: OrderSide,
    pub amount: Amount,
    pub order_type: OrderType,
}

/// The normalized working form of an order. For a market order `price` is the
/// sentinel 0 and is never consulted.
#[derive(Debug, Clone, Copy, PartialEq, Eq, Structural)]
pub struct ProcessOrder {
    pub order_id: OrderId,
    pub user_id: UserId,
    pub side: OrderSide,
    pub amount: Amount,
    pub price: Price,
    pub post_only: bool,
    pub is_market: bool,
    pub tif: TimeInForce,
}

/// The working form of an incoming order: a market order becomes
/// `{price: 0, is_market, !post_only, GTC}`, a limit order keeps its fields.
pub open spec fn normalize(o: IncomingOrder) -> ProcessOrder {
    match o.order_type {
        OrderType::Market => ProcessOrder {
            order_id: o.order_id,
            user_id: o.user_id,
            side: o.side,
            amount: o.amount,
            price: 0,
            post_only: false,
            is_market: true,
            tif: TimeInForce::GTC,
        },
        OrderType::Limit { post_only, price, tif } => ProcessOrder {
            order_id: o.order_id,
            user_id: o.user_id,
            side: o.side,
            amount: o.amount,
            price,
            post_only,
            is_market: false,
            tif,
        },
    }
}

impl From<IncomingOrder> for ProcessOrder {
    fn from(order: IncomingOrder) -> (r: ProcessOrder) {
        let (price, is_market, post_only, tif) = match order.order_type {
            OrderType::Market => (0u64, true, false, TimeInForce::GTC),
            OrderType::Limit { post_only, price, tif } => (price, false, post_only, tif),
        };
        ProcessOrder {
            order_id: order.order_id,
            user_id: order.user_id,
            side: order.side,
            amount: order.amount,
            price,
            post_only,
            is_market,
            tif,
        }
    }
}

impl vstd::std_specs::convert::FromSpecImpl<IncomingOrder> for ProcessOrder {
    open spec fn obeys_from_spec() -> bool {
        true
    }

    open spec fn from_spec(order: IncomingOrder) -> ProcessOrder {
        normalize(order)
    }
}

/// A resting order on one side of the book.
#[derive(Debug, Clone, Copy, PartialEq, Eq, Structural)]
pub struct BookOrder {
    pub order_id: OrderId,
    pub user_id: UserId,
    pub price: Price,
    pub amount: Amount,
}

#[derive(Debug, Clone, Copy, PartialEq, Eq, Structural)]
pub struct Trade {
    pub amount: Amount,
    pub buyer_id: UserId,
    pub price: Price,
    pub seller_id: UserId,
    pub trade_id: TradeId,
    pub maker_order_id: OrderId,
    pub taker_order_id: OrderId,
}

#[allow(inconsistent_fields)]
#[derive(Debug, Clone, Copy, PartialEq, Eq, Structural)]
pub enum EngineEvent {
    OrderPlaced { order: BookOrder, side: OrderSide },
    TradeExecuted(Trade),
    OrderCancelled { order_id: OrderId, remaining_amount: Amount, reason: CancelReason },
    OrderRejected { order_id: OrderId, reason: RejectReason },
}

/// The side opposite to `s`: the side whose resting orders an aggressor on `s` meets.
pub open spec fn opposite(s: OrderSide) -> OrderSide {
    match s {
        OrderSide::Buy => OrderSide::Sell,
        OrderSide::Sell => OrderSide::Buy,
    }
}

} // verus!
