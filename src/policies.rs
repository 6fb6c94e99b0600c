//! The order policy gate: post-only, fill-or-kill liquidity and price-cross
//! checks. None of them changes the book.

use vstd::prelude::*;

use crate::model::{CancelReason, EngineEvent, OrderSide, Price, ProcessOrder, RejectReason, TimeInForce};
use crate::storage::{at_or_better, order_sum, BookSide};

verus! {

/// Whether an aggressor on `side` with limit `aggressor_price` reaches a
/// maker resting at `maker_price`. A market aggressor reaches every price.
pub open spec fn price_match(side: OrderSide, maker_price: Price, aggressor_price: Price, is_market: bool) -> bool {
    is_market || match side {
        OrderSide::Buy => maker_price <= aggressor_price,
        OrderSide::Sell => maker_price >= aggressor_price,
    }
}

/// A post-only order is admissible only as a good-till-cancelled limit.
pub open spec fn post_only_violation(o: ProcessOrder) -> bool {
    o.post_only && (o.is_market || o.tif != TimeInForce::GTC)
}

/// A fill-or-kill order that the resting liquidity `book` of `book_side`
/// cannot fill in full at its limit.
pub open spec fn fok_shortage(o: ProcessOrder, book_side: OrderSide, book: Seq<crate::model::BookOrder>) -> bool {
    o.tif == TimeInForce::FOK && o.amount > order_sum(book, at_or_better(book_side, o.price))
}

pub open spec fn post_only_rejection(o: ProcessOrder) -> EngineEvent {
    EngineEvent::OrderRejected { order_id: o.order_id, reason: RejectReason::PostOnlyViolation }
}

pub open spec fn fok_cancellation(o: ProcessOrder) -> EngineEvent {
    EngineEvent::OrderCancelled {
        order_id: o.order_id,
        remaining_amount: o.amount,
        reason: CancelReason::FokLiquidityShortage,
    }
}

pub struct PolicyChecker;

impl PolicyChecker {
    pub fn check_price_match(side: OrderSide, maker_price: Price, aggressor_price: Price, is_market: bool) -> (r: bool)
        ensures
            r == price_match(side, maker_price, aggressor_price, is_market),
    {
        if is_market {
            return true;
        }
        match side {
            OrderSide::Buy => maker_price <= aggressor_price,
            OrderSide::Sell => maker_price >= aggressor_price,
        }
    }

    /// Cancels a fill-or-kill order that `book`, the opposite side, cannot
    /// fill in full; every other order passes.
    pub fn check_liquidity(order: &ProcessOrder, book: &BookSide) -> (r: Result<(), EngineEvent>)
        requires
            book.wf(),
        ensures
            r == (if fok_shortage(*order, book.spec_side(), book@) {
                Err(fok_cancellation(*order))
            } else {
                Ok(())
            }),
    {
        match order.tif {
            TimeInForce::FOK => {},
            TimeInForce::GTC => return Ok(()),
            TimeInForce::IOC => return Ok(()),
        }
        if order.amount > book.get_liquidity(order.price) {
            return Err(
                EngineEvent::OrderCancelled {
                    order_id: order.order_id,
                    remaining_amount: order.amount,
                    reason: CancelReason::FokLiquidityShortage,
                },
            );
        }
        Ok(())
    }

    /// Rejects a post-only order that is a market order or not good till cancelled.
    pub fn check_post_only(order: &ProcessOrder) -> (r: Result<(), EngineEvent>)
        ensures
            r == (if post_only_violation(*order) {
                Err(post_only_rejection(*order))
            } else {
                Ok(())
            }),
    {
        if !order.post_only {
            return Ok(());
        }
        if order.is_market {
            return Err(
                EngineEvent::OrderRejected { order_id: order.order_id, reason: RejectReason::PostOnlyViolation },
            );
        }
        match order.tif {
            TimeInForce::GTC => Ok(()),
            _ => Err(
                EngineEvent::OrderRejected { order_id: order.order_id, reason: RejectReason::PostOnlyViolation },
            ),
        }
    }
}

} // verus!
