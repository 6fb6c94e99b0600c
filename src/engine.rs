//! The engine: owns both sides of the book and the trade-id counter, and
//! processes one incoming order at a time.

use vstd::prelude::*;

use crate::inline_vec::{Events, Trades};
use crate::matcher::{
    book_after, can_take, filled, fills, lemma_fills, lemma_fills_len, lemma_match_end, min_amount, residual, trades_of,
    with_amount, Matcher,
};
use crate::model::{
    normalize, opposite, Amount, BookOrder, CancelReason, EngineEvent, IncomingOrder, OrderSide, OrderType,
    ProcessOrder, TimeInForce, Trade, TradeId,
};
use crate::policies::{fok_cancellation, fok_shortage, post_only_rejection, post_only_violation, PolicyChecker};
use crate::storage::{
    any_price, at_or_better, has_id, order_sum, order_weight, place, precedes, total, valid_book, BookSide,
};
use crate::sums::{
    lemma_wsum_concat, lemma_wsum_le, lemma_wsum_push, lemma_wsum_single, lemma_wsum_split, lemma_wsum_zero,
    wsum,
};

verus! {

/// The state of an engine: asks and bids, each best first, and the next trade id.
pub struct EngineState {
    pub asks: Seq<BookOrder>,
    pub bids: Seq<BookOrder>,
    pub next_trade_id: TradeId,
}

/// The resting orders of `side` (asks for `Sell`, bids for `Buy`).
pub open spec fn resting(s: EngineState, side: OrderSide) -> Seq<BookOrder> {
    match side {
        OrderSide::Sell => s.asks,
        OrderSide::Buy => s.bids,
    }
}

pub open spec fn with_resting(s: EngineState, side: OrderSide, b: Seq<BookOrder>) -> EngineState {
    match side {
        OrderSide::Sell => EngineState { asks: b, ..s },
        OrderSide::Buy => EngineState { bids: b, ..s },
    }
}

/// No bid at or above the best ask.
pub open spec fn uncrossed(s: EngineState) -> bool {
    s.asks.len() > 0 && s.bids.len() > 0 ==> s.bids[0].price < s.asks[0].price
}

pub open spec fn valid_state(s: EngineState) -> bool {
    &&& valid_book(OrderSide::Sell, s.asks)
    &&& valid_book(OrderSide::Buy, s.bids)
    &&& uncrossed(s)
}

/// What `process` asks of its input beyond the engine's validity: trade ids
/// and resting totals stay within 64 bits, and the order's id does not rest
/// on its own side already.
pub open spec fn can_process(s: EngineState, o: IncomingOrder) -> bool {
    &&& s.next_trade_id + resting(s, opposite(o.side)).len() <= u64::MAX
    &&& resting(s, opposite(o.side)).len() < usize::MAX
    &&& total(resting(s, o.side)) + o.amount <= u64::MAX
    &&& !has_id(resting(s, o.side), o.order_id)
}

pub open spec fn trade_events(ts: Seq<Trade>) -> Seq<EngineEvent> {
    Seq::new(ts.len(), |k: int| EngineEvent::TradeExecuted(ts[k]))
}

/// The residual of `w` as a resting order.
pub open spec fn resting_order(w: ProcessOrder, amount: u64) -> BookOrder {
    BookOrder { order_id: w.order_id, user_id: w.user_id, price: w.price, amount }
}

/// The state after, and the events of, processing the working order `w` in
/// state `s`: the post-only gate, then the fill-or-kill gate, then the match
/// against the opposite side, then the residual per time in force.
pub open spec fn process_working(s: EngineState, w: ProcessOrder) -> (EngineState, Seq<EngineEvent>) {
    let opp_side = opposite(w.side);
    let opp = resting(s, opp_side);
    if post_only_violation(w) {
        (s, seq![post_only_rejection(w)])
    } else if fok_shortage(w, opp_side, opp) {
        (s, seq![fok_cancellation(w)])
    } else {
        let fs = fills(w, opp);
        let rem = residual(w, opp);
        let matched = EngineState {
            next_trade_id: (s.next_trade_id + fs.len()) as TradeId,
            ..with_resting(s, opp_side, book_after(w, opp))
        };
        let evs = trade_events(trades_of(w, s.next_trade_id, fs));
        if w.is_market || rem == 0 {
            (matched, evs)
        } else {
            match w.tif {
                TimeInForce::GTC => {
                    let bo = resting_order(w, rem);
                    (
                        with_resting(matched, w.side, place(w.side, resting(s, w.side), bo)),
                        evs.push(EngineEvent::OrderPlaced { order: bo, side: w.side }),
                    )
                },
                TimeInForce::IOC => (
                    matched,
                    evs.push(
                        EngineEvent::OrderCancelled {
                            order_id: w.order_id,
                            remaining_amount: rem,
                            reason: CancelReason::IocExpired,
                        },
                    ),
                ),
                TimeInForce::FOK => (matched, evs),
            }
        }
    }
}

/// The state after, and the events of, processing incoming order `o` in state `s`.
pub open spec fn process_spec(s: EngineState, o: IncomingOrder) -> (EngineState, Seq<EngineEvent>) {
    process_working(s, normalize(o))
}

pub open spec fn is_trade(e: EngineEvent) -> bool {
    e is TradeExecuted
}

pub open spec fn trade_amount(e: EngineEvent) -> nat {
    match e {
        EngineEvent::TradeExecuted(t) => t.amount as nat,
        _ => 0,
    }
}

pub open spec fn placed_amount(e: EngineEvent) -> nat {
    match e {
        EngineEvent::OrderPlaced { order, .. } => order.amount as nat,
        _ => 0,
    }
}

/// Total traded amount of a sequence of events.
pub open spec fn traded(evs: Seq<EngineEvent>) -> nat {
    wsum(evs, |e: EngineEvent| trade_amount(e))
}

/// Total placed amount of a sequence of events.
pub open spec fn placed(evs: Seq<EngineEvent>) -> nat {
    wsum(evs, |e: EngineEvent| placed_amount(e))
}

pub proof fn lemma_trade_events_sums(w: ProcessOrder, first_id: TradeId, fs: Seq<(BookOrder, Amount)>)
    ensures
        traded(trade_events(trades_of(w, first_id, fs))) == filled(fs),
        placed(trade_events(trades_of(w, first_id, fs))) == 0,
    decreases fs.len(),
{
    let evs = trade_events(trades_of(w, first_id, fs));
    if fs.len() > 0 {
        lemma_trade_events_sums(w, first_id, fs.drop_last());
        assert(evs.drop_last() =~= trade_events(trades_of(w, first_id, fs.drop_last())));
    }
}

/// A limit that does not reach the opposite best in full has taken every
/// order it reaches: what it filled is all the liquidity at its limit.
pub proof fn lemma_unfilled_takes_all(a: ProcessOrder, book: Seq<BookOrder>)
    requires
        !a.is_market,
        valid_book(opposite(a.side), book),
        residual(a, book) > 0,
    ensures
        filled(fills(a, book)) == order_sum(book, at_or_better(opposite(a.side), a.price)),
    decreases book.len(),
{
    let f = at_or_better(opposite(a.side), a.price);
    let w = order_weight(f);
    if book.len() > 0 {
        lemma_wsum_split(book, 0, w);
        assert(book.subrange(0, 0) =~= Seq::<BookOrder>::empty());
        assert(book.subrange(1, book.len() as int) =~= book.drop_first());
    }
    if can_take(a, book) {
        let q = min_amount(a.amount, book[0].amount);
        let a2 = with_amount(a, (a.amount - q) as Amount);
        let rest = book.drop_first();
        assert forall|i: int, j: int| 0 <= i < j < rest.len() implies precedes(opposite(a.side), #[trigger] rest[i], #[trigger] rest[j]) by {
            assert(rest[i] == book[i + 1]);
            assert(rest[j] == book[j + 1]);
        }
        assert forall|i: int| 0 <= i < rest.len() implies (#[trigger] rest[i]).amount > 0 by {
            assert(rest[i] == book[i + 1]);
        }
        assert forall|i: int, j: int|
            0 <= i < rest.len() && 0 <= j < rest.len() && i != j implies (#[trigger] rest[i]).order_id
            != (#[trigger] rest[j]).order_id by {
            assert(rest[i] == book[i + 1]);
            assert(rest[j] == book[j + 1]);
        }
        lemma_wsum_split(book, 0, order_weight(any_price()));
        assert(book.subrange(1, book.len() as int) =~= rest);
        lemma_wsum_le(rest, order_weight(any_price()), order_weight(any_price()));
        if a2.amount == 0 {
            assert(residual(a2, rest) == 0);
        }
        lemma_unfilled_takes_all(a2, rest);
        let fw = |x: (BookOrder, Amount)| x.1 as nat;
        lemma_wsum_concat(seq![(book[0], q)], fills(a2, rest), fw);
        lemma_wsum_single((book[0], q), fw);
    } else {
        assert(fills(a, book) =~= Seq::<(BookOrder, Amount)>::empty());
        if book.len() > 0 {
            assert forall|i: int| 0 <= i < book.len() implies w(#[trigger] book[i]) == 0 by {
                if i > 0 {
                    assert(precedes(opposite(a.side), book[0], book[i]));
                }
            }
            lemma_wsum_zero(book, w);
        }
    }
}

/// The trades of one `process` call carry the ids from the engine's next
/// trade id on, one per position, all below the next trade id after the call.
pub proof fn lemma_process_trade_ids(s: EngineState, o: IncomingOrder)
    requires
        can_process(s, o),
    ensures
        process_spec(s, o).0.next_trade_id >= s.next_trade_id,
        forall|k: int|
            0 <= k < process_spec(s, o).1.len() && is_trade(#[trigger] process_spec(s, o).1[k]) ==> {
                &&& process_spec(s, o).1[k]->TradeExecuted_0.trade_id == s.next_trade_id + k
                &&& process_spec(s, o).1[k]->TradeExecuted_0.trade_id < process_spec(s, o).0.next_trade_id
            },
{
    let w = normalize(o);
    lemma_fills_len(w, resting(s, opposite(w.side)));
}

/// Trade ids strictly increase over the lifetime of an engine: within the
/// events of one call, and from one call to the next.
pub proof fn lemma_trade_ids_increase(s: EngineState, o1: IncomingOrder, o2: IncomingOrder)
    requires
        can_process(s, o1),
        can_process(process_spec(s, o1).0, o2),
    ensures
        forall|i: int, j: int|
            0 <= i < j < process_spec(s, o1).1.len() && is_trade(#[trigger] process_spec(s, o1).1[i])
                && is_trade(#[trigger] process_spec(s, o1).1[j])
                ==> process_spec(s, o1).1[i]->TradeExecuted_0.trade_id
                < process_spec(s, o1).1[j]->TradeExecuted_0.trade_id,
        forall|i: int, j: int|
            0 <= i < process_spec(s, o1).1.len() && 0 <= j < process_spec(process_spec(s, o1).0, o2).1.len()
                && is_trade(#[trigger] process_spec(s, o1).1[i])
                && is_trade(#[trigger] process_spec(process_spec(s, o1).0, o2).1[j])
                ==> process_spec(s, o1).1[i]->TradeExecuted_0.trade_id
                < process_spec(process_spec(s, o1).0, o2).1[j]->TradeExecuted_0.trade_id,
{
    lemma_process_trade_ids(s, o1);
    lemma_process_trade_ids(process_spec(s, o1).0, o2);
}

/// The events of one `process` call: what was traded and what was placed
/// add up to at most the order's amount; trades never exceed it.
pub proof fn lemma_traded_at_most_amount(s: EngineState, o: IncomingOrder)
    requires
        valid_state(s),
        can_process(s, o),
    ensures
        traded(process_spec(s, o).1) + placed(process_spec(s, o).1) <= o.amount,
        traded(process_spec(s, o).1) <= o.amount,
{
    lemma_process_sums(s, o);
}

proof fn lemma_process_sums(s: EngineState, o: IncomingOrder)
    requires
        valid_state(s),
        can_process(s, o),
    ensures
        traded(process_spec(s, o).1) + placed(process_spec(s, o).1) <= o.amount,
        !post_only_violation(normalize(o)) && !fok_shortage(
            normalize(o),
            opposite(o.side),
            resting(s, opposite(o.side)),
        ) ==> traded(process_spec(s, o).1) == filled(fills(normalize(o), resting(s, opposite(o.side)))),
        !post_only_violation(normalize(o)) && !fok_shortage(
            normalize(o),
            opposite(o.side),
            resting(s, opposite(o.side)),
        ) && !normalize(o).is_market && normalize(o).tif == TimeInForce::GTC ==> traded(process_spec(s, o).1)
            + placed(process_spec(s, o).1) == o.amount,
{
    let w = normalize(o);
    let opp = resting(s, opposite(w.side));
    let evs = process_spec(s, o).1;
    let te = |e: EngineEvent| trade_amount(e);
    let pe = |e: EngineEvent| placed_amount(e);
    if post_only_violation(w) {
        lemma_wsum_single(post_only_rejection(w), te);
        lemma_wsum_single(post_only_rejection(w), pe);
    } else if fok_shortage(w, opposite(w.side), opp) {
        lemma_wsum_single(fok_cancellation(w), te);
        lemma_wsum_single(fok_cancellation(w), pe);
    } else {
        lemma_fills(w, opp);
        let fs = fills(w, opp);
        let base = trade_events(trades_of(w, s.next_trade_id, fs));
        lemma_trade_events_sums(w, s.next_trade_id, fs);
        if evs.len() > base.len() {
            let last = evs[evs.len() - 1];
            assert(evs == base.push(last));
            lemma_wsum_push(base, last, te);
            lemma_wsum_push(base, last, pe);
        }
    }
}

/// A good-till-cancelled limit either trades or rests, in full: the traded
/// amount and the placed amount add up to the order's amount.
pub proof fn lemma_gtc_conserves_amount(s: EngineState, o: IncomingOrder)
    requires
        valid_state(s),
        can_process(s, o),
        o.order_type is Limit,
        o.order_type->Limit_tif == TimeInForce::GTC,
    ensures
        traded(process_spec(s, o).1) + placed(process_spec(s, o).1) == o.amount,
{
    lemma_process_sums(s, o);
}

/// A fill-or-kill limit that trades at all trades its whole amount, and is
/// not cancelled.
pub proof fn lemma_fok_fills_in_full(s: EngineState, o: IncomingOrder)
    requires
        valid_state(s),
        can_process(s, o),
        o.order_type is Limit,
        o.order_type->Limit_tif == TimeInForce::FOK,
        exists|k: int| 0 <= k < process_spec(s, o).1.len() && is_trade(#[trigger] process_spec(s, o).1[k]),
    ensures
        traded(process_spec(s, o).1) == o.amount,
        forall|k: int| 0 <= k < process_spec(s, o).1.len() ==> !(#[trigger] process_spec(s, o).1[k] is OrderCancelled),
{
    let w = normalize(o);
    let opp = resting(s, opposite(w.side));
    lemma_process_sums(s, o);
    lemma_fills(w, opp);
    if !post_only_violation(w) && !fok_shortage(w, opposite(w.side), opp) {
        if residual(w, opp) > 0 {
            lemma_unfilled_takes_all(w, opp);
        }
    }
}

/// An immediate-or-cancel limit never rests on the book.
pub proof fn lemma_ioc_never_placed(s: EngineState, o: IncomingOrder)
    requires
        o.order_type is Limit,
        o.order_type->Limit_tif == TimeInForce::IOC,
    ensures
        forall|k: int| 0 <= k < process_spec(s, o).1.len() ==> !(#[trigger] process_spec(s, o).1[k] is OrderPlaced),
{
}

pub struct MatchEngine {
    asks: BookSide,
    bids: BookSide,
    next_trade_id: TradeId,
}

impl View for MatchEngine {
    type V = EngineState;

    closed spec fn view(&self) -> EngineState {
        EngineState { asks: self.asks@, bids: self.bids@, next_trade_id: self.next_trade_id }
    }
}

impl MatchEngine {
    /// The ask side.
    pub closed spec fn asks_book(&self) -> BookSide {
        self.asks
    }

    /// The bid side.
    pub closed spec fn bids_book(&self) -> BookSide {
        self.bids
    }

    pub closed spec fn wf(&self) -> bool {
        &&& self.asks.wf()
        &&& self.bids.wf()
        &&& self.asks.spec_side() == OrderSide::Sell
        &&& self.bids.spec_side() == OrderSide::Buy
        &&& uncrossed(self@)
    }

    /// What a well-formed engine states of its two sides.
    pub proof fn lemma_valid(&self)
        requires
            self.wf(),
        ensures
            valid_state(self@),
            self.asks_book().wf(),
            self.bids_book().wf(),
            self.asks_book()@ == self@.asks,
            self.bids_book()@ == self@.bids,
            self.asks_book().spec_side() == OrderSide::Sell,
            self.bids_book().spec_side() == OrderSide::Buy,
    {
        self.asks.lemma_valid();
        self.bids.lemma_valid();
    }

    pub fn new() -> (r: MatchEngine)
        ensures
            r.wf(),
            r@ == (EngineState { asks: Seq::empty(), bids: Seq::empty(), next_trade_id: 0 }),
    {
        MatchEngine { asks: BookSide::new(OrderSide::Sell), bids: BookSide::new(OrderSide::Buy), next_trade_id: 0 }
    }

    /// The resting asks, best first.
    pub fn asks(&self) -> (r: &BookSide)
        ensures
            *r == self.asks_book(),
    {
        &self.asks
    }

    /// The resting bids, best first.
    pub fn bids(&self) -> (r: &BookSide)
        ensures
            *r == self.bids_book(),
    {
        &self.bids
    }

    pub fn next_trade_id(&self) -> (r: TradeId)
        ensures
            r == self@.next_trade_id,
    {
        self.next_trade_id
    }

    /// Whether `process` may be called on `order`.
    pub fn accepts(&self, order: &IncomingOrder) -> (r: bool)
        requires
            self.wf(),
        ensures
            r == can_process(self@, *order),
    {
        let (own, opp) = match order.side {
            OrderSide::Buy => (&self.bids, &self.asks),
            OrderSide::Sell => (&self.asks, &self.bids),
        };
        if opp.len() == usize::MAX {
            return false;
        }
        let opp_len = opp.len() as u64;
        if self.next_trade_id > u64::MAX - opp_len {
            return false;
        }
        if own.total_amount() > u64::MAX - order.amount {
            return false;
        }
        !own.contains(order.order_id)
    }

    /// Processes one incoming order and returns its events in execution
    /// order: trades first, then at most one placement or cancellation.
    pub fn process(&mut self, order: IncomingOrder) -> (r: Events)
        requires
            old(self).wf(),
            can_process(old(self)@, order),
        ensures
            final(self).wf(),
            valid_state(final(self)@),
            uncrossed(final(self)@),
            final(self)@ == process_spec(old(self)@, order).0,
            r@ == process_spec(old(self)@, order).1,
    {
        let mut w = ProcessOrder::from(order);
        let r = match order.order_type {
            OrderType::Market => self.handle_market(&mut w),
            OrderType::Limit { .. } => self.handle_limit(&mut w),
        };
        proof {
            self.lemma_valid();
        }
        r
    }

    fn single(e: EngineEvent) -> (r: Events)
        ensures
            r@ == seq![e],
    {
        let mut r = Events::new();
        r.push(e);
        proof {
            assert(r@ =~= seq![e]);
        }
        r
    }

    fn trade_events_of(trades: Trades) -> (r: Events)
        ensures
            r@ == trade_events(trades@),
    {
        let n = trades.len();
        let mut r = Events::new();
        let mut i: usize = 0;
        while i < n
            invariant
                n == trades@.len(),
                i <= trades@.len(),
                r@ == trade_events(trades@.subrange(0, i as int)),
            decreases trades@.len() - i,
        {
            r.push(EngineEvent::TradeExecuted(trades.get(i)));
            i = i + 1;
            proof {
                assert(r@ =~= trade_events(trades@.subrange(0, i as int)));
            }
        }
        proof {
            assert(trades@.subrange(0, trades@.len() as int) =~= trades@);
        }
        r
    }

    /// Matches `order` against the side opposite to it.
    fn match_opposite(&mut self, order: &mut ProcessOrder) -> (r: Trades)
        requires
            old(self).wf(),
            old(self)@.next_trade_id + resting(old(self)@, opposite(old(order).side)).len() <= u64::MAX,
        ensures
            final(self).asks.wf(),
            final(self).bids.wf(),
            final(self).asks.spec_side() == OrderSide::Sell,
            final(self).bids.spec_side() == OrderSide::Buy,
            final(self)@ == (EngineState {
                next_trade_id: (old(self)@.next_trade_id + fills(
                    *old(order),
                    resting(old(self)@, opposite(old(order).side)),
                ).len()) as TradeId,
                ..with_resting(
                    old(self)@,
                    opposite(old(order).side),
                    book_after(*old(order), resting(old(self)@, opposite(old(order).side))),
                )
            }),
            r@ == trades_of(
                *old(order),
                old(self)@.next_trade_id,
                fills(*old(order), resting(old(self)@, opposite(old(order).side))),
            ),
            *final(order) == with_amount(
                *old(order),
                residual(*old(order), resting(old(self)@, opposite(old(order).side))),
            ),
    {
        match order.side {
            OrderSide::Buy => Matcher::hard_match(order, &mut self.asks, &mut self.next_trade_id),
            OrderSide::Sell => Matcher::hard_match(order, &mut self.bids, &mut self.next_trade_id),
        }
    }

    fn handle_market(&mut self, order: &mut ProcessOrder) -> (r: Events)
        requires
            old(self).wf(),
            old(order).is_market,
            old(order).tif == TimeInForce::GTC,
            old(self)@.next_trade_id + resting(old(self)@, opposite(old(order).side)).len() <= u64::MAX,
        ensures
            final(self).wf(),
            final(self)@ == process_working(old(self)@, *old(order)).0,
            r@ == process_working(old(self)@, *old(order)).1,
    {
        match PolicyChecker::check_post_only(order) {
            Ok(_) => {},
            Err(event) => return Self::single(event),
        }
        let ghost s0 = self@;
        let ghost w = *order;
        proof {
            self.lemma_valid();
        }
        let trades = self.match_opposite(order);
        proof {
            self.lemma_uncrossed_after_match(s0, w);
        }
        Self::trade_events_of(trades)
    }

    fn handle_limit(&mut self, order: &mut ProcessOrder) -> (r: Events)
        requires
            old(self).wf(),
            !old(order).is_market,
            can_process(
                old(self)@,
                IncomingOrder {
                    order_id: old(order).order_id,
                    user_id: old(order).user_id,
                    side: old(order).side,
                    amount: old(order).amount,
                    order_type: OrderType::Market,
                },
            ),
        ensures
            final(self).wf(),
            final(self)@ == process_working(old(self)@, *old(order)).0,
            r@ == process_working(old(self)@, *old(order)).1,
    {
        match PolicyChecker::check_post_only(order) {
            Ok(_) => {},
            Err(event) => return Self::single(event),
        }
        let liquidity_check_result = match order.side {
            OrderSide::Buy => PolicyChecker::check_liquidity(order, &self.asks),
            OrderSide::Sell => PolicyChecker::check_liquidity(order, &self.bids),
        };
        match liquidity_check_result {
            Ok(_) => {},
            Err(event) => return Self::single(event),
        }
        let ghost s0 = self@;
        let ghost w = *order;
        proof {
            self.lemma_valid();
        }
        let trades = self.match_opposite(order);
        proof {
            self.lemma_uncrossed_after_match(s0, w);
        }
        let mut executed_events = Self::trade_events_of(trades);
        proof {
            lemma_fills(w, resting(s0, opposite(w.side)));
        }
        if order.amount > 0 {
            match order.tif {
                TimeInForce::GTC => {
                    let book_order = BookOrder {
                        user_id: order.user_id,
                        order_id: order.order_id,
                        price: order.price,
                        amount: order.amount,
                    };
                    proof {
                        self.lemma_uncrossed_after_place(s0, w, book_order);
                    }
                    match order.side {
                        OrderSide::Buy => self.bids.insert(book_order),
                        OrderSide::Sell => self.asks.insert(book_order),
                    }
                    executed_events.push(EngineEvent::OrderPlaced { order: book_order, side: order.side });
                },
                TimeInForce::IOC => {
                    executed_events.push(
                        EngineEvent::OrderCancelled {
                            order_id: order.order_id,
                            remaining_amount: order.amount,
                            reason: CancelReason::IocExpired,
                        },
                    );
                },
                TimeInForce::FOK => {},
            }
        }
        executed_events
    }

    /// After a match, the side that was matched against starts no better than before.
    proof fn lemma_uncrossed_after_match(&self, s0: EngineState, w: ProcessOrder)
        requires
            valid_state(s0),
            self.asks.wf(),
            self.bids.wf(),
            self.asks.spec_side() == OrderSide::Sell,
            self.bids.spec_side() == OrderSide::Buy,
            self@.asks == (if w.side == OrderSide::Buy {
                book_after(w, s0.asks)
            } else {
                s0.asks
            }),
            self@.bids == (if w.side == OrderSide::Sell {
                book_after(w, s0.bids)
            } else {
                s0.bids
            }),
        ensures
            self.wf(),
            self@.asks.len() > 0 && s0.asks.len() > 0 ==> self@.asks[0].price >= s0.asks[0].price,
            self@.bids.len() > 0 && s0.bids.len() > 0 ==> self@.bids[0].price <= s0.bids[0].price,
            self@.asks.len() > 0 ==> s0.asks.len() > 0,
            self@.bids.len() > 0 ==> s0.bids.len() > 0,
    {
        lemma_match_end(w, resting(s0, opposite(w.side)));
        if w.side == OrderSide::Buy {
            if self@.asks.len() > 0 {
                let k = choose|k: int| 0 <= k < s0.asks.len() && #[trigger] s0.asks[k].price == self@.asks[0].price;
                if k > 0 {
                    assert(precedes(OrderSide::Sell, s0.asks[0], s0.asks[k]));
                }
            }
        } else {
            if self@.bids.len() > 0 {
                let k = choose|k: int| 0 <= k < s0.bids.len() && #[trigger] s0.bids[k].price == self@.bids[0].price;
                if k > 0 {
                    assert(precedes(OrderSide::Buy, s0.bids[0], s0.bids[k]));
                }
            }
        }
    }

    /// Placing the residual of a limit that no longer reaches the opposite
    /// best keeps the book uncrossed.
    proof fn lemma_uncrossed_after_place(&self, s0: EngineState, w: ProcessOrder, bo: BookOrder)
        requires
            valid_state(s0),
            self.wf(),
            !w.is_market,
            bo.price == w.price,
            bo.amount == residual(w, resting(s0, opposite(w.side))),
            bo.amount > 0,
            self@.asks.len() > 0 && s0.asks.len() > 0 ==> self@.asks[0].price >= s0.asks[0].price,
            self@.bids.len() > 0 && s0.bids.len() > 0 ==> self@.bids[0].price <= s0.bids[0].price,
            self@.asks.len() > 0 ==> s0.asks.len() > 0,
            self@.bids.len() > 0 ==> s0.bids.len() > 0,
            resting(self@, opposite(w.side)) == book_after(w, resting(s0, opposite(w.side))),
            resting(self@, w.side) == resting(s0, w.side),
        ensures
            uncrossed(with_resting(self@, w.side, place(w.side, resting(self@, w.side), bo))),
    {
        let opp = resting(s0, opposite(w.side));
        lemma_match_end(w, opp);
        assert(with_amount(w, bo.amount).amount == bo.amount);
        let own = resting(self@, w.side);
        let placed = place(w.side, own, bo);
        let pos = crate::storage::insert_pos(w.side, own, bo);
        crate::storage::lemma_insert_pos_bounds(w.side, own, bo);
        if pos == 0 {
            assert(placed[0] == bo);
        } else {
            assert(placed[0] == own[0]);
        }
    }
}

} // verus!
