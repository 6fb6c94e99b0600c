use match_engine::engine::MatchEngine;
use match_engine::model::{
    BookOrder, CancelReason, EngineEvent, IncomingOrder, OrderSide, OrderType, RejectReason, TimeInForce, Trade,
};

const A: u128 = 0xA;
const B: u128 = 0xB;

fn limit(order_id: u64, user_id: u128, side: OrderSide, amount: u64, price: u64, tif: TimeInForce, post_only: bool) -> IncomingOrder {
    IncomingOrder { order_id, user_id, side, amount, order_type: OrderType::Limit { post_only, price, tif } }
}

fn market(order_id: u64, user_id: u128, side: OrderSide, amount: u64) -> IncomingOrder {
    IncomingOrder { order_id, user_id, side, amount, order_type: OrderType::Market }
}

fn gtc(order_id: u64, user_id: u128, side: OrderSide, amount: u64, price: u64) -> IncomingOrder {
    limit(order_id, user_id, side, amount, price, TimeInForce::GTC, false)
}

fn run(engine: &mut MatchEngine, order: IncomingOrder) -> Vec<EngineEvent> {
    assert!(engine.accepts(&order));
    engine.process(order).to_vec()
}

fn trade(e: &EngineEvent) -> Trade {
    match e {
        EngineEvent::TradeExecuted(t) => *t,
        other => panic!("not a trade: {:?}", other),
    }
}

#[test]
fn simple_cross() {
    let mut engine = MatchEngine::new();
    let placed = run(&mut engine, gtc(1, A, OrderSide::Sell, 10, 100));
    assert_eq!(
        placed,
        vec![EngineEvent::OrderPlaced {
            order: BookOrder { order_id: 1, user_id: A, price: 100, amount: 10 },
            side: OrderSide::Sell,
        }]
    );
    let events = run(&mut engine, market(2, B, OrderSide::Buy, 6));
    assert_eq!(
        events,
        vec![EngineEvent::TradeExecuted(Trade {
            amount: 6,
            buyer_id: B,
            price: 100,
            seller_id: A,
            trade_id: 0,
            maker_order_id: 1,
            taker_order_id: 2,
        })]
    );
    assert_eq!(engine.asks().iter(), vec![BookOrder { order_id: 1, user_id: A, price: 100, amount: 4 }]);
}

#[test]
fn walk_the_book() {
    let mut engine = MatchEngine::new();
    run(&mut engine, gtc(1, A, OrderSide::Sell, 5, 100));
    run(&mut engine, gtc(2, A, OrderSide::Sell, 3, 100));
    run(&mut engine, gtc(3, A, OrderSide::Sell, 10, 101));
    let events = run(&mut engine, gtc(4, B, OrderSide::Buy, 12, 101));
    assert_eq!(events.len(), 3);
    let got: Vec<(u64, u64, u64)> = events.iter().map(|e| {
        let t = trade(e);
        (t.price, t.amount, t.maker_order_id)
    }).collect();
    assert_eq!(got, vec![(100, 5, 1), (100, 3, 2), (101, 4, 3)]);
    assert!(engine.bids().iter().is_empty());
    assert_eq!(engine.asks().iter(), vec![BookOrder { order_id: 3, user_id: A, price: 101, amount: 6 }]);
}

#[test]
fn post_only_crossing_limit_matches() {
    let mut engine = MatchEngine::new();
    run(&mut engine, gtc(1, A, OrderSide::Sell, 5, 100));
    let events = run(&mut engine, limit(2, B, OrderSide::Buy, 1, 101, TimeInForce::GTC, true));
    assert_eq!(events.len(), 1);
    let t = trade(&events[0]);
    assert_eq!((t.price, t.amount, t.buyer_id, t.seller_id), (100, 1, B, A));
    assert_eq!(engine.asks().iter(), vec![BookOrder { order_id: 1, user_id: A, price: 100, amount: 4 }]);
}

#[test]
fn fok_insufficient_liquidity() {
    let mut engine = MatchEngine::new();
    run(&mut engine, gtc(1, A, OrderSide::Sell, 5, 100));
    let events = run(&mut engine, limit(2, B, OrderSide::Buy, 10, 100, TimeInForce::FOK, false));
    assert_eq!(
        events,
        vec![EngineEvent::OrderCancelled {
            order_id: 2,
            remaining_amount: 10,
            reason: CancelReason::FokLiquidityShortage,
        }]
    );
    assert_eq!(engine.asks().iter(), vec![BookOrder { order_id: 1, user_id: A, price: 100, amount: 5 }]);
    assert_eq!(engine.next_trade_id(), 0);
}

#[test]
fn fok_sufficient() {
    let mut engine = MatchEngine::new();
    run(&mut engine, gtc(1, A, OrderSide::Sell, 4, 100));
    run(&mut engine, gtc(2, A, OrderSide::Sell, 7, 101));
    let events = run(&mut engine, limit(3, B, OrderSide::Buy, 10, 101, TimeInForce::FOK, false));
    let got: Vec<(u64, u64)> = events.iter().map(|e| {
        let t = trade(e);
        (t.price, t.amount)
    }).collect();
    assert_eq!(got, vec![(100, 4), (101, 6)]);
    assert_eq!(engine.asks().iter(), vec![BookOrder { order_id: 2, user_id: A, price: 101, amount: 1 }]);
}

#[test]
fn ioc_residual_cancelled() {
    let mut engine = MatchEngine::new();
    run(&mut engine, gtc(1, A, OrderSide::Sell, 3, 100));
    let events = run(&mut engine, limit(2, B, OrderSide::Buy, 5, 100, TimeInForce::IOC, false));
    assert_eq!(events.len(), 2);
    assert_eq!(trade(&events[0]).amount, 3);
    assert_eq!(
        events[1],
        EngineEvent::OrderCancelled { order_id: 2, remaining_amount: 2, reason: CancelReason::IocExpired }
    );
    assert!(engine.bids().iter().is_empty());
    assert!(engine.asks().iter().is_empty());
}

#[test]
fn post_only_ioc_and_fok_rejected() {
    for tif in [TimeInForce::IOC, TimeInForce::FOK] {
        let mut engine = MatchEngine::new();
        run(&mut engine, gtc(1, A, OrderSide::Sell, 5, 100));
        let events = run(&mut engine, limit(2, B, OrderSide::Buy, 1, 100, tif, true));
        assert_eq!(
            events,
            vec![EngineEvent::OrderRejected { order_id: 2, reason: RejectReason::PostOnlyViolation }]
        );
        assert_eq!(engine.asks().iter(), vec![BookOrder { order_id: 1, user_id: A, price: 100, amount: 5 }]);
    }
}

#[test]
fn trade_ids_increase_across_calls() {
    let mut engine = MatchEngine::new();
    run(&mut engine, gtc(1, A, OrderSide::Sell, 2, 100));
    run(&mut engine, gtc(2, A, OrderSide::Sell, 2, 101));
    run(&mut engine, gtc(3, A, OrderSide::Sell, 2, 102));
    let first = run(&mut engine, market(4, B, OrderSide::Buy, 3));
    let second = run(&mut engine, market(5, B, OrderSide::Buy, 3));
    let ids: Vec<u64> = first.iter().chain(second.iter()).map(|e| trade(e).trade_id).collect();
    assert_eq!(ids, vec![0, 1, 2, 3]);
    assert_eq!(engine.next_trade_id(), 4);
}

#[test]
fn market_residual_is_dropped() {
    let mut engine = MatchEngine::new();
    run(&mut engine, gtc(1, A, OrderSide::Buy, 3, 100));
    let events = run(&mut engine, market(2, B, OrderSide::Sell, 5));
    assert_eq!(events.len(), 1);
    let t = trade(&events[0]);
    assert_eq!((t.amount, t.buyer_id, t.seller_id, t.price), (3, A, B, 100));
    assert!(engine.asks().iter().is_empty());
    assert!(engine.bids().iter().is_empty());
}

#[test]
fn gtc_residual_rests_and_book_stays_uncrossed() {
    let mut engine = MatchEngine::new();
    run(&mut engine, gtc(1, A, OrderSide::Buy, 4, 99));
    run(&mut engine, gtc(2, A, OrderSide::Sell, 4, 101));
    let events = run(&mut engine, gtc(3, B, OrderSide::Sell, 6, 99));
    assert_eq!(events.len(), 2);
    assert_eq!(trade(&events[0]).amount, 4);
    assert_eq!(
        events[1],
        EngineEvent::OrderPlaced {
            order: BookOrder { order_id: 3, user_id: B, price: 99, amount: 2 },
            side: OrderSide::Sell,
        }
    );
    assert_eq!(engine.asks().best_price(), Some(99));
    assert_eq!(engine.bids().best_price(), None);
    let traded: u64 = events.iter().filter_map(|e| match e {
        EngineEvent::TradeExecuted(t) => Some(t.amount),
        _ => None,
    }).sum();
    assert_eq!(traded + 2, 6);
}

#[test]
fn sell_aggressor_walks_bids_best_first() {
    let mut engine = MatchEngine::new();
    run(&mut engine, gtc(1, A, OrderSide::Buy, 1, 98));
    run(&mut engine, gtc(2, A, OrderSide::Buy, 1, 100));
    run(&mut engine, gtc(3, A, OrderSide::Buy, 1, 99));
    let events = run(&mut engine, gtc(4, B, OrderSide::Sell, 2, 99));
    let prices: Vec<u64> = events.iter().map(|e| trade(e).price).collect();
    assert_eq!(prices, vec![100, 99]);
    assert_eq!(engine.bids().iter(), vec![BookOrder { order_id: 1, user_id: A, price: 98, amount: 1 }]);
}

#[test]
fn accepts_refuses_duplicate_resting_id() {
    let mut engine = MatchEngine::new();
    run(&mut engine, gtc(1, A, OrderSide::Buy, 1, 98));
    assert!(!engine.accepts(&gtc(1, A, OrderSide::Buy, 1, 97)));
    assert!(engine.accepts(&gtc(2, A, OrderSide::Buy, 1, 97)));
    assert!(!engine.accepts(&gtc(2, A, OrderSide::Buy, u64::MAX, 97)));
}

#[test]
fn filled_makers_leave_both_indices() {
    let mut engine = MatchEngine::new();
    run(&mut engine, gtc(1, A, OrderSide::Sell, 5, 100));
    run(&mut engine, gtc(2, A, OrderSide::Sell, 5, 101));
    run(&mut engine, gtc(3, B, OrderSide::Buy, 7, 101));
    let asks = engine.asks();
    assert!(!asks.contains(1));
    assert!(asks.contains(2));
    assert!(asks.iter().iter().all(|o| o.amount > 0));
    assert_eq!(asks.total_amount(), 3);
    assert_eq!(asks.get_liquidity(100), 0);
    assert_eq!(asks.get_liquidity(101), 3);
}
