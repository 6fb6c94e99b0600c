use match_engine::matcher::Matcher;
use match_engine::model::{BookOrder, CancelReason, EngineEvent, IncomingOrder, OrderSide, OrderType, ProcessOrder, RejectReason, TimeInForce};
use match_engine::policies::PolicyChecker;
use match_engine::storage::{BookSide, LiquidityIndex, OrderIndex};

fn bo(order_id: u64, price: u64, amount: u64) -> BookOrder {
    BookOrder { order_id, user_id: 7, price, amount }
}

fn working(side: OrderSide, amount: u64, price: u64, tif: TimeInForce, post_only: bool, is_market: bool) -> ProcessOrder {
    ProcessOrder { order_id: 50, user_id: 9, side, amount, price, post_only, is_market, tif }
}

#[test]
fn asks_ordered_by_price_then_id() {
    let mut asks = BookSide::new(OrderSide::Sell);
    asks.insert(bo(3, 101, 1));
    asks.insert(bo(2, 100, 1));
    asks.insert(bo(1, 100, 1));
    let ids: Vec<u64> = asks.iter().iter().map(|o| o.order_id).collect();
    assert_eq!(ids, vec![1, 2, 3]);
    assert_eq!(asks.best_price(), Some(100));
    assert_eq!(asks.peek_best(), Some(&bo(1, 100, 1)));
}

#[test]
fn bids_ordered_by_descending_price() {
    let mut bids = BookSide::new(OrderSide::Buy);
    bids.insert(bo(1, 99, 1));
    bids.insert(bo(2, 101, 1));
    bids.insert(bo(3, 100, 1));
    let prices: Vec<u64> = bids.iter().iter().map(|o| o.price).collect();
    assert_eq!(prices, vec![101, 100, 99]);
}

#[test]
fn cumulative_liquidity_per_side() {
    let mut asks = BookSide::new(OrderSide::Sell);
    asks.insert(bo(1, 100, 4));
    asks.insert(bo(2, 100, 1));
    asks.insert(bo(3, 101, 7));
    assert_eq!(asks.get_liquidity(99), 0);
    assert_eq!(asks.get_liquidity(100), 5);
    assert_eq!(asks.get_liquidity(101), 12);
    assert_eq!(asks.total_amount(), 12);
    let mut bids = BookSide::new(OrderSide::Buy);
    bids.insert(bo(4, 100, 4));
    bids.insert(bo(5, 98, 2));
    assert_eq!(bids.get_liquidity(101), 0);
    assert_eq!(bids.get_liquidity(99), 4);
    assert_eq!(bids.get_liquidity(98), 6);
}

#[test]
fn insert_then_remove_restores_side() {
    let mut asks = BookSide::new(OrderSide::Sell);
    asks.insert(bo(1, 100, 4));
    asks.insert(bo(3, 102, 2));
    let before = asks.iter();
    asks.insert(bo(2, 101, 5));
    assert_eq!(asks.remove(2), Some(bo(2, 101, 5)));
    assert_eq!(asks.iter(), before);
    assert_eq!(asks.get_liquidity(101), 4);
    assert_eq!(asks.total_amount(), 6);
    assert!(!asks.contains(2));
}

#[test]
fn remove_unknown_id_is_absent() {
    let mut asks = BookSide::new(OrderSide::Sell);
    asks.insert(bo(1, 100, 4));
    assert_eq!(asks.remove(9), None);
    assert_eq!(asks.len(), 1);
}

#[test]
fn pop_best_equals_peek_then_remove() {
    let mut a = BookSide::new(OrderSide::Buy);
    let mut b = BookSide::new(OrderSide::Buy);
    for o in [bo(1, 100, 4), bo(2, 102, 1), bo(3, 102, 3)] {
        a.insert(o);
        b.insert(o);
    }
    let popped = a.pop_best();
    let peeked = *b.peek_best().unwrap();
    let removed = b.remove(peeked.order_id);
    assert_eq!(popped, Some(bo(2, 102, 1)));
    assert_eq!(popped, removed);
    assert_eq!(a.iter(), b.iter());
    assert_eq!(a.get_liquidity(102), 3);
}

#[test]
fn empty_side() {
    let mut asks = BookSide::new(OrderSide::Sell);
    assert_eq!(asks.peek_best(), None);
    assert_eq!(asks.pop_best(), None);
    assert_eq!(asks.best_price(), None);
    assert_eq!(asks.get_liquidity(u64::MAX), 0);
    assert_eq!(asks.side(), OrderSide::Sell);
}

#[test]
fn liquidity_index_levels() {
    let mut li = LiquidityIndex::new();
    li.add_liquidity(100, 3);
    li.add_liquidity(101, 2);
    li.add_liquidity(100, 4);
    assert_eq!(li.get_liquidity(OrderSide::Sell, 100), 7);
    assert_eq!(li.get_liquidity(OrderSide::Buy, 101), 2);
    assert_eq!(li.total(), 9);
    li.remove_liquidity(100, 7);
    assert_eq!(li.get_liquidity(OrderSide::Sell, 100), 0);
    assert_eq!(li.total(), 2);
}

#[test]
fn order_index_maps_ids_to_prices() {
    let mut idx = OrderIndex::new();
    assert_eq!(idx.get(5), None);
    idx.insert(5, 123);
    idx.insert(6, 77);
    assert_eq!(idx.get(5), Some(123));
    assert_eq!(idx.get(6), Some(77));
    idx.remove(5);
    assert_eq!(idx.get(5), None);
    assert_eq!(idx.get(6), Some(77));
}

#[test]
fn price_match_rules() {
    assert!(PolicyChecker::check_price_match(OrderSide::Buy, 100, 101, false));
    assert!(PolicyChecker::check_price_match(OrderSide::Buy, 101, 101, false));
    assert!(!PolicyChecker::check_price_match(OrderSide::Buy, 102, 101, false));
    assert!(PolicyChecker::check_price_match(OrderSide::Sell, 102, 101, false));
    assert!(!PolicyChecker::check_price_match(OrderSide::Sell, 100, 101, false));
    assert!(PolicyChecker::check_price_match(OrderSide::Sell, 1, 0, true));
    assert!(PolicyChecker::check_price_match(OrderSide::Buy, 500, 0, true));
}

#[test]
fn post_only_rules() {
    let ok = working(OrderSide::Buy, 1, 100, TimeInForce::GTC, true, false);
    assert_eq!(PolicyChecker::check_post_only(&ok), Ok(()));
    let plain = working(OrderSide::Buy, 1, 100, TimeInForce::IOC, false, false);
    assert_eq!(PolicyChecker::check_post_only(&plain), Ok(()));
    let rejected = EngineEvent::OrderRejected { order_id: 50, reason: RejectReason::PostOnlyViolation };
    for (tif, is_market) in [(TimeInForce::IOC, false), (TimeInForce::FOK, false), (TimeInForce::GTC, true)] {
        let o = working(OrderSide::Buy, 1, 100, tif, true, is_market);
        assert_eq!(PolicyChecker::check_post_only(&o), Err(rejected));
    }
}

#[test]
fn liquidity_check_only_for_fok() {
    let mut asks = BookSide::new(OrderSide::Sell);
    asks.insert(bo(1, 100, 5));
    let fok = working(OrderSide::Buy, 6, 100, TimeInForce::FOK, false, false);
    assert_eq!(
        PolicyChecker::check_liquidity(&fok, &asks),
        Err(EngineEvent::OrderCancelled { order_id: 50, remaining_amount: 6, reason: CancelReason::FokLiquidityShortage })
    );
    let fok_ok = working(OrderSide::Buy, 5, 100, TimeInForce::FOK, false, false);
    assert_eq!(PolicyChecker::check_liquidity(&fok_ok, &asks), Ok(()));
    let gtc = working(OrderSide::Buy, 600, 100, TimeInForce::GTC, false, false);
    assert_eq!(PolicyChecker::check_liquidity(&gtc, &asks), Ok(()));
}

#[test]
fn hard_match_reinserts_partial_maker_at_head() {
    let mut asks = BookSide::new(OrderSide::Sell);
    asks.insert(bo(1, 100, 5));
    asks.insert(bo(2, 100, 5));
    let mut aggressor = working(OrderSide::Buy, 3, 100, TimeInForce::GTC, false, false);
    let mut next: u64 = 10;
    let trades = Matcher::hard_match(&mut aggressor, &mut asks, &mut next).to_vec();
    assert_eq!(trades.len(), 1);
    assert_eq!((trades[0].trade_id, trades[0].amount, trades[0].maker_order_id, trades[0].taker_order_id), (10, 3, 1, 50));
    assert_eq!(next, 11);
    assert_eq!(aggressor.amount, 0);
    assert_eq!(asks.iter(), vec![bo(1, 100, 2), bo(2, 100, 5)]);
}

#[test]
fn hard_match_stops_at_price() {
    let mut asks = BookSide::new(OrderSide::Sell);
    asks.insert(bo(1, 100, 1));
    asks.insert(bo(2, 105, 1));
    let mut aggressor = working(OrderSide::Buy, 5, 101, TimeInForce::GTC, false, false);
    let mut next: u64 = 0;
    let trades = Matcher::hard_match(&mut aggressor, &mut asks, &mut next).to_vec();
    assert_eq!(trades.len(), 1);
    assert_eq!(aggressor.amount, 4);
    assert_eq!(asks.iter(), vec![bo(2, 105, 1)]);
}

#[test]
fn normalizes_incoming_orders() {
    let m = IncomingOrder { order_id: 1, user_id: 2, side: OrderSide::Sell, amount: 3, order_type: OrderType::Market };
    let w = ProcessOrder::from(m);
    assert_eq!((w.price, w.is_market, w.post_only, w.tif), (0, true, false, TimeInForce::GTC));
    let l = IncomingOrder {
        order_id: 1,
        user_id: 2,
        side: OrderSide::Buy,
        amount: 3,
        order_type: OrderType::Limit { post_only: true, price: 42, tif: TimeInForce::IOC },
    };
    let w = ProcessOrder::from(l);
    assert_eq!((w.price, w.is_market, w.post_only, w.tif, w.side, w.amount), (42, false, true, TimeInForce::IOC, OrderSide::Buy, 3));
}

#[test]
fn reason_names() {
    assert_eq!(CancelReason::IocExpired.as_str(), "IocExpired");
    assert_eq!(CancelReason::FokLiquidityShortage.as_str(), "FokLiquidityShortage");
    assert_eq!(CancelReason::UserRequest.as_str(), "UserRequest");
    assert_eq!(RejectReason::PostOnlyViolation.as_str(), "PostOnlyViolation");
    assert_eq!(RejectReason::SymbolNotFound.as_str(), "SymbolNotFound");
}

#[test]
fn inline_vectors_keep_order() {
    let mut v = match_engine::inline_vec::Events::new();
    let e1 = EngineEvent::OrderRejected { order_id: 1, reason: RejectReason::InvalidPrice };
    let e2 = EngineEvent::OrderCancelled { order_id: 2, remaining_amount: 3, reason: CancelReason::UserRequest };
    v.push(e1);
    v.push(e2);
    assert_eq!(v.len(), 2);
    assert_eq!(v.get(1), e2);
    assert_eq!(v.to_vec(), vec![e1, e2]);
    let t = match_engine::inline_vec::Trades::new();
    assert_eq!(t.len(), 0);
    assert!(t.to_vec().is_empty());
}
