//! The aggressor-versus-book matching loop.

use vstd::prelude::*;

use crate::inline_vec::Trades;
use crate::model::{opposite, Amount, BookOrder, OrderSide, ProcessOrder, Trade, TradeId};
use crate::policies::{price_match, PolicyChecker};
use crate::storage::{any_price, insert_pos, order_weight, precedes, valid_book, BookSide};
use crate::sums::{lemma_wsum_remove, wsum};

verus! {

/// `a` with its open amount set to `x`.
pub open spec fn with_amount(a: ProcessOrder, x: Amount) -> ProcessOrder {
    ProcessOrder { amount: x, ..a }
}

/// Whether aggressor `a` trades with the best order of `book`.
pub open spec fn can_take(a: ProcessOrder, book: Seq<BookOrder>) -> bool {
    a.amount > 0 && book.len() > 0 && price_match(a.side, book[0].price, a.price, a.is_market)
}

pub open spec fn min_amount(x: Amount, y: Amount) -> Amount {
    if x <= y {
        x
    } else {
        y
    }
}

/// The fills of aggressor `a` against the best-first `book`: each maker met,
/// with the amount traded.
pub open spec fn fills(a: ProcessOrder, book: Seq<BookOrder>) -> Seq<(BookOrder, Amount)>
    decreases book.len(),
{
    if can_take(a, book) {
        let q = min_amount(a.amount, book[0].amount);
        seq![(book[0], q)] + fills(with_amount(a, (a.amount - q) as Amount), book.drop_first())
    } else {
        seq![]
    }
}

/// The book after aggressor `a` has matched against it: makers filled in
/// full are gone, a maker filled in part keeps its place with what is left.
pub open spec fn book_after(a: ProcessOrder, book: Seq<BookOrder>) -> Seq<BookOrder>
    decreases book.len(),
{
    if can_take(a, book) {
        if a.amount < book[0].amount {
            book.update(0, BookOrder { amount: (book[0].amount - a.amount) as Amount, ..book[0] })
        } else {
            book_after(with_amount(a, (a.amount - book[0].amount) as Amount), book.drop_first())
        }
    } else {
        book
    }
}

/// The amount of `a` left once it has matched against `book`.
pub open spec fn residual(a: ProcessOrder, book: Seq<BookOrder>) -> Amount
    decreases book.len(),
{
    if can_take(a, book) {
        let q = min_amount(a.amount, book[0].amount);
        residual(with_amount(a, (a.amount - q) as Amount), book.drop_first())
    } else {
        a.amount
    }
}

/// The trade of taker `a` against `maker` for amount `q`, at the maker's price.
pub open spec fn trade_of(a: ProcessOrder, trade_id: TradeId, maker: BookOrder, q: Amount) -> Trade {
    Trade {
        amount: q,
        buyer_id: if a.side == OrderSide::Buy {
            a.user_id
        } else {
            maker.user_id
        },
        price: maker.price,
        seller_id: if a.side == OrderSide::Buy {
            maker.user_id
        } else {
            a.user_id
        },
        trade_id,
        maker_order_id: maker.order_id,
        taker_order_id: a.order_id,
    }
}

/// The trades of taker `a` for `fs`, numbered from `first_id` on.
pub open spec fn trades_of(a: ProcessOrder, first_id: TradeId, fs: Seq<(BookOrder, Amount)>) -> Seq<Trade> {
    Seq::new(fs.len(), |k: int| trade_of(a, (first_id + k) as TradeId, fs[k].0, fs[k].1))
}

/// Total amount of a sequence of fills.
pub open spec fn filled(fs: Seq<(BookOrder, Amount)>) -> nat {
    wsum(fs, |f: (BookOrder, Amount)| f.1 as nat)
}

/// A match meets each resting order at most once.
pub proof fn lemma_fills_len(a: ProcessOrder, book: Seq<BookOrder>)
    ensures
        fills(a, book).len() <= book.len(),
    decreases book.len(),
{
    if can_take(a, book) {
        let q = min_amount(a.amount, book[0].amount);
        lemma_fills_len(with_amount(a, (a.amount - q) as Amount), book.drop_first());
    }
}

/// Facts of every match: the k-th fill is against the k-th best maker, for a
/// positive amount no larger than the maker's or the aggressor's; what was
/// filled and what is left add up to the aggressor's amount.
pub proof fn lemma_fills(a: ProcessOrder, book: Seq<BookOrder>)
    requires
        forall|i: int| 0 <= i < book.len() ==> (#[trigger] book[i]).amount > 0,
    ensures
        fills(a, book).len() <= book.len(),
        forall|k: int|
            0 <= k < fills(a, book).len() ==> (#[trigger] fills(a, book)[k]).0 == book[k] && 0
                < fills(a, book)[k].1 <= book[k].amount && fills(a, book)[k].1 <= a.amount,
        filled(fills(a, book)) + residual(a, book) == a.amount,
        residual(a, book) <= a.amount,
    decreases book.len(),
{
    let fs = fills(a, book);
    if can_take(a, book) {
        let q = min_amount(a.amount, book[0].amount);
        let a2 = with_amount(a, (a.amount - q) as Amount);
        let rest = book.drop_first();
        assert forall|i: int| 0 <= i < rest.len() implies (#[trigger] rest[i]).amount > 0 by {
            assert(rest[i] == book[i + 1]);
        }
        lemma_fills(a2, rest);
        let tail = fills(a2, rest);
        assert(fs == seq![(book[0], q)] + tail);
        assert forall|k: int| 0 <= k < fs.len() implies (#[trigger] fs[k]).0 == book[k] && 0 < fs[k].1
            <= book[k].amount && fs[k].1 <= a.amount by {
            if k > 0 {
                assert(fs[k] == tail[k - 1]);
                assert(rest[k - 1] == book[k]);
            }
        }
        let w = |f: (BookOrder, Amount)| f.1 as nat;
        crate::sums::lemma_wsum_concat(seq![(book[0], q)], tail, w);
        crate::sums::lemma_wsum_single((book[0], q), w);
    } else {
        assert(fs =~= Seq::<(BookOrder, Amount)>::empty());
    }
}

/// Where every match ends: the aggressor, with what is left of it, no longer
/// trades with the book that is left; that book is no longer than before,
/// and its best order sits at a price of the book before.
pub proof fn lemma_match_end(a: ProcessOrder, book: Seq<BookOrder>)
    ensures
        !can_take(with_amount(a, residual(a, book)), book_after(a, book)),
        book_after(a, book).len() <= book.len(),
        book_after(a, book).len() > 0 ==> exists|k: int|
            0 <= k < book.len() && #[trigger] book[k].price == book_after(a, book)[0].price,
        residual(a, book) > 0 ==> fills(a, book).len() == book.len() - book_after(a, book).len(),
    decreases book.len(),
{
    if can_take(a, book) {
        let q = min_amount(a.amount, book[0].amount);
        let a2 = with_amount(a, (a.amount - q) as Amount);
        lemma_match_end(a2, book.drop_first());
        if a.amount < book[0].amount {
            assert(book[0].price == book_after(a, book)[0].price);
        } else {
            if book_after(a, book).len() > 0 {
                let k = choose|k: int|
                    0 <= k < book.drop_first().len() && #[trigger] book.drop_first()[k].price
                        == book_after(a2, book.drop_first())[0].price;
                assert(book[k + 1].price == book_after(a, book)[0].price);
            }
        }
    } else if book.len() > 0 {
        assert(book[0].price == book_after(a, book)[0].price);
    }
}

/// Every trade of a match is at the price of its maker, the k-th best
/// resting order, for no more than the smaller of the aggressor's and the
/// maker's amounts before the match.
pub proof fn lemma_trades_at_maker_price(a: ProcessOrder, book: Seq<BookOrder>, first_id: TradeId)
    requires
        forall|i: int| 0 <= i < book.len() ==> (#[trigger] book[i]).amount > 0,
    ensures
        forall|k: int|
            0 <= k < trades_of(a, first_id, fills(a, book)).len() ==> {
                let t = #[trigger] trades_of(a, first_id, fills(a, book))[k];
                &&& t.price == book[k].price
                &&& t.maker_order_id == book[k].order_id
                &&& t.amount <= a.amount
                &&& t.amount <= book[k].amount
            },
{
    lemma_fills(a, book);
}

pub struct Matcher;

impl Matcher {
    /// Matches `aggressor` against `book`, the opposite side, best maker
    /// first, while the aggressor has amount left and reaches the best price.
    /// Each trade is at the maker's price and takes the next trade id.
    pub fn hard_match(aggressor: &mut ProcessOrder, book: &mut BookSide, next_trade_id: &mut TradeId) -> (r: Trades)
        requires
            old(book).wf(),
            old(book).spec_side() == opposite(old(aggressor).side),
            *old(next_trade_id) + old(book)@.len() <= u64::MAX,
        ensures
            final(book).wf(),
            final(book).spec_side() == old(book).spec_side(),
            final(book)@ == book_after(*old(aggressor), old(book)@),
            r@ == trades_of(*old(aggressor), *old(next_trade_id), fills(*old(aggressor), old(book)@)),
            *final(aggressor) == with_amount(*old(aggressor), residual(*old(aggressor), old(book)@)),
            *final(next_trade_id) == *old(next_trade_id) + fills(*old(aggressor), old(book)@).len(),
    {
        let ghost a0 = *aggressor;
        let ghost b0 = book@;
        let ghost n0 = *next_trade_id;
        let ghost mut done: Seq<(BookOrder, Amount)> = seq![];
        let book_len: usize = book.len();
        let mut executed_trades = Trades::new();
        while aggressor.amount > 0
            invariant
                book.wf(),
                book.spec_side() == opposite(a0.side),
                *aggressor == with_amount(a0, aggressor.amount),
                fills(a0, b0) == done + fills(*aggressor, book@),
                book_after(a0, b0) == book_after(*aggressor, book@),
                residual(a0, b0) == residual(*aggressor, book@),
                executed_trades@ == trades_of(a0, n0, done),
                *next_trade_id == n0 + done.len(),
                aggressor.amount > 0 ==> *next_trade_id + book@.len() <= u64::MAX,
                aggressor.amount > 0 ==> done.len() + book@.len() <= book_len,
            ensures
                !can_take(*aggressor, book@),
            decreases aggressor.amount,
        {
            let maker_price = match book.peek_best() {
                Some(o) => o.price,
                None => break,
            };
            if !PolicyChecker::check_price_match(
                aggressor.side,
                maker_price,
                aggressor.price,
                aggressor.is_market,
            ) {
                break;
            }
            let ghost s = book@;
            proof {
                book.lemma_valid();
            }
            let mut maker_order = match book.pop_best() {
                Some(o) => o,
                None => break,
            };
            let trade_amount = if aggressor.amount <= maker_order.amount {
                aggressor.amount
            } else {
                maker_order.amount
            };
            proof {
                assert(s[0].amount > 0);
            }
            let trade = Trade {
                trade_id: *next_trade_id,
                maker_order_id: maker_order.order_id,
                taker_order_id: aggressor.order_id,
                amount: trade_amount,
                buyer_id: match aggressor.side {
                    OrderSide::Buy => aggressor.user_id,
                    OrderSide::Sell => maker_order.user_id,
                },
                seller_id: match aggressor.side {
                    OrderSide::Buy => maker_order.user_id,
                    OrderSide::Sell => aggressor.user_id,
                },
                price: maker_order.price,
            };
            *next_trade_id = *next_trade_id + 1;
            executed_trades.push(trade);
            let ghost a_before = *aggressor;
            aggressor.amount = aggressor.amount - trade_amount;
            maker_order.amount = maker_order.amount - trade_amount;
            proof {
                let fill = (s[0], trade_amount);
                assert(fills(a_before, s) == seq![fill] + fills(*aggressor, s.drop_first()));
                assert(s.remove(0) =~= s.drop_first());
                assert(done + fills(a_before, s) =~= done.push(fill) + fills(*aggressor, s.drop_first()));
                assert(executed_trades@ =~= trades_of(a0, n0, done.push(fill)));
                done = done.push(fill);
            }
            if maker_order.amount > 0 {
                let ghost rest = book@;
                proof {
                    assert(valid_book(opposite(a0.side), s));
                    assert forall|k: int| 0 <= k < rest.len() implies #[trigger] rest[k].order_id != maker_order.order_id by {
                        assert(rest[k] == s[k + 1]);
                    }
                    lemma_wsum_remove(s, 0, order_weight(any_price()));
                }
                book.insert(maker_order);
                proof {
                    let t = book@;
                    book.lemma_valid();
                    let i = insert_pos(opposite(a0.side), rest, maker_order);
                    assert(t == rest.insert(i, maker_order));
                    if i > 0 {
                        assert(t[0] == rest[0]);
                        assert(t[i] == maker_order);
                        assert(precedes(opposite(a0.side), t[0], t[i]));
                        assert(rest[0] == s[1]);
                        assert(precedes(opposite(a0.side), s[0], s[1]));
                    }
                    assert(t =~= s.update(0, maker_order));
                    assert(fills(*aggressor, book@) =~= Seq::<(BookOrder, Amount)>::empty());
                    assert(fills(*aggressor, s.drop_first()) =~= Seq::<(BookOrder, Amount)>::empty());
                    assert(residual(*aggressor, book@) == aggressor.amount);
                    assert(residual(*aggressor, s.drop_first()) == aggressor.amount);
                }
            }
        }
        proof {
            assert(fills(*aggressor, book@) =~= Seq::<(BookOrder, Amount)>::empty());
            assert(done + fills(*aggressor, book@) =~= done);
        }
        executed_trades
    }
}

} // verus!
