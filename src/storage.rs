//! Resting liquidity of one side of the book, with its two derived indices:
//! the liquidity index (price to total amount) and the order index
//! (order id to price).

use rustc_hash::{FxBuildHasher, FxHashMap};
use vstd::prelude::*;

use crate::model::{Amount, BookOrder, OrderId, OrderSide, Price};
use crate::sums::{
    lemma_wsum_ge, lemma_wsum_insert, lemma_wsum_le, lemma_wsum_prefix, lemma_wsum_prefix_step,
    lemma_wsum_push, lemma_wsum_remove, lemma_wsum_update, lemma_wsum_zero, wsum,
};

verus! {

#[verifier::external_type_specification]
#[verifier::external_body]
pub struct ExFxBuildHasher(FxBuildHasher);

// ---------------------------------------------------------------------------
// Price filters and sums

/// Every price.
pub open spec fn any_price() -> spec_fn(Price) -> bool {
    |q: Price| true
}

/// Exactly the price `p`.
pub open spec fn at_price(p: Price) -> spec_fn(Price) -> bool {
    |q: Price| q == p
}

/// The prices of a book holding orders of `side` that an aggressor with limit
/// `limit` reaches: asks at or below it, bids at or above it.
pub open spec fn at_or_better(side: OrderSide, limit: Price) -> spec_fn(Price) -> bool {
    |q: Price|
        match side {
            OrderSide::Sell => q <= limit,
            OrderSide::Buy => q >= limit,
        }
}

pub open spec fn order_weight(f: spec_fn(Price) -> bool) -> spec_fn(BookOrder) -> nat {
    |o: BookOrder|
        if f(o.price) {
            o.amount as nat
        } else {
            0nat
        }
}

pub open spec fn level_weight(f: spec_fn(Price) -> bool) -> spec_fn((Price, Amount)) -> nat {
    |l: (Price, Amount)|
        if f(l.0) {
            l.1 as nat
        } else {
            0nat
        }
}

/// Total amount of the orders of `s` whose price passes `f`.
pub open spec fn order_sum(s: Seq<BookOrder>, f: spec_fn(Price) -> bool) -> nat {
    wsum(s, order_weight(f))
}

/// Total amount of the levels of `s` whose price passes `f`.
pub open spec fn level_sum(s: Seq<(Price, Amount)>, f: spec_fn(Price) -> bool) -> nat {
    wsum(s, level_weight(f))
}

/// Total resting amount of `s`.
pub open spec fn total(s: Seq<BookOrder>) -> nat {
    order_sum(s, any_price())
}

// ---------------------------------------------------------------------------
// Priority order

/// `a` strictly precedes `b` in a book holding orders of `side`: a better
/// price (lower for asks, higher for bids), or the same price and a lower id.
pub open spec fn precedes(side: OrderSide, a: BookOrder, b: BookOrder) -> bool {
    (a.price == b.price && a.order_id < b.order_id) || match side {
        OrderSide::Sell => a.price < b.price,
        OrderSide::Buy => a.price > b.price,
    }
}

pub open spec fn priority_sorted(side: OrderSide, s: Seq<BookOrder>) -> bool {
    forall|i: int, j: int| 0 <= i < j < s.len() ==> precedes(side, #[trigger] s[i], #[trigger] s[j])
}

pub open spec fn ids_unique(s: Seq<BookOrder>) -> bool {
    forall|i: int, j: int|
        0 <= i < s.len() && 0 <= j < s.len() && i != j ==> (#[trigger] s[i]).order_id != (#[trigger] s[j]).order_id
}

pub open spec fn has_id(s: Seq<BookOrder>, id: OrderId) -> bool {
    exists|i: int| 0 <= i < s.len() && (#[trigger] s[i]).order_id == id
}

/// A well-formed book of `side`: best first, every amount positive, ids
/// unique, and a total that fits in an amount.
pub open spec fn valid_book(side: OrderSide, s: Seq<BookOrder>) -> bool {
    &&& priority_sorted(side, s)
    &&& forall|i: int| 0 <= i < s.len() ==> (#[trigger] s[i]).amount > 0
    &&& ids_unique(s)
    &&& total(s) <= u64::MAX
}

/// Where `o` goes in the best-first book `s`: after every order that precedes it.
pub open spec fn insert_pos(side: OrderSide, s: Seq<BookOrder>, o: BookOrder) -> int
    decreases s.len(),
{
    if s.len() > 0 && precedes(side, s[0], o) {
        1 + insert_pos(side, s.drop_first(), o)
    } else {
        0
    }
}

/// `s` with `o` inserted at its place in priority order.
pub open spec fn place(side: OrderSide, s: Seq<BookOrder>, o: BookOrder) -> Seq<BookOrder> {
    s.insert(insert_pos(side, s, o), o)
}

pub proof fn lemma_insert_pos_bounds(side: OrderSide, s: Seq<BookOrder>, o: BookOrder)
    ensures
        0 <= insert_pos(side, s, o) <= s.len(),
    decreases s.len(),
{
    if s.len() > 0 {
        lemma_insert_pos_bounds(side, s.drop_first(), o);
    }
}

pub proof fn lemma_insert_pos(side: OrderSide, s: Seq<BookOrder>, o: BookOrder, i: int)
    requires
        0 <= i <= s.len(),
        forall|j: int| 0 <= j < i ==> precedes(side, #[trigger] s[j], o),
        i < s.len() ==> !precedes(side, s[i], o),
    ensures
        insert_pos(side, s, o) == i,
    decreases i,
{
    if i > 0 {
        let t = s.drop_first();
        assert forall|j: int| 0 <= j < i - 1 implies precedes(side, #[trigger] t[j], o) by {
            assert(t[j] == s[j + 1]);
        }
        if i < s.len() {
            assert(t[i - 1] == s[i]);
        }
        lemma_insert_pos(side, t, o, i - 1);
        assert(precedes(side, s[0], o));
    }
}

/// Inserting an order and then removing it by id gives back the book: the
/// inserted order is the only one with its id, and removing it restores `s`.
pub proof fn lemma_insert_remove_round_trip(side: OrderSide, s: Seq<BookOrder>, o: BookOrder)
    requires
        valid_book(side, s),
        !has_id(s, o.order_id),
    ensures
        forall|i: int|
            0 <= i < place(side, s, o).len() && (#[trigger] place(side, s, o)[i]).order_id == o.order_id
                ==> i == insert_pos(side, s, o) && place(side, s, o).remove(i) == s,
{
    lemma_insert_pos_bounds(side, s, o);
    let p = insert_pos(side, s, o);
    let t = place(side, s, o);
    assert forall|i: int| 0 <= i < t.len() && (#[trigger] t[i]).order_id == o.order_id implies i == p
        && t.remove(i) == s by {
        if i < p {
            assert(t[i] == s[i]);
        } else if i > p {
            assert(t[i] == s[i - 1]);
        }
        assert(t.remove(p) =~= s);
    }
}

/// Popping the best order is peeking at it and removing it by its id: no
/// other order carries that id.
pub proof fn lemma_pop_is_peek_then_remove(side: OrderSide, s: Seq<BookOrder>)
    requires
        valid_book(side, s),
        s.len() > 0,
    ensures
        forall|i: int| 0 <= i < s.len() && (#[trigger] s[i]).order_id == s[0].order_id ==> i == 0,
{
}

pub fn precedes_exec(side: OrderSide, a: &BookOrder, b: &BookOrder) -> (r: bool)
    ensures
        r == precedes(side, *a, *b),
{
    if a.price == b.price {
        a.order_id < b.order_id
    } else {
        match side {
            OrderSide::Sell => a.price < b.price,
            OrderSide::Buy => a.price > b.price,
        }
    }
}

// ---------------------------------------------------------------------------
// LiquidityIndex

/// Total resting amount per price level.
pub struct LiquidityIndex {
    levels: Vec<(Price, Amount)>,
}

impl View for LiquidityIndex {
    type V = Seq<(Price, Amount)>;

    closed spec fn view(&self) -> Seq<(Price, Amount)> {
        self.levels@
    }
}

impl LiquidityIndex {
    /// Each price appears once, with a positive amount.
    pub closed spec fn wf(&self) -> bool {
        &&& forall|i: int| 0 <= i < self.levels@.len() ==> (#[trigger] self.levels@[i]).1 > 0
        &&& forall|i: int, j: int|
            0 <= i < self.levels@.len() && 0 <= j < self.levels@.len() && i != j
                ==> (#[trigger] self.levels@[i]).0 != (#[trigger] self.levels@[j]).0
    }

    pub fn new() -> (r: LiquidityIndex)
        ensures
            r.wf(),
            r@ == Seq::<(Price, Amount)>::empty(),
    {
        LiquidityIndex { levels: Vec::new() }
    }

    fn find(&self, price: Price) -> (r: usize)
        ensures
            r <= self@.len(),
            r < self@.len() ==> self@[r as int].0 == price,
            r == self@.len() ==> forall|j: int| 0 <= j < self@.len() ==> (#[trigger] self@[j]).0 != price,
    {
        let mut i: usize = 0;
        while i < self.levels.len() && self.levels[i].0 != price
            invariant
                i <= self.levels@.len(),
                forall|j: int| 0 <= j < i ==> (#[trigger] self.levels@[j]).0 != price,
            decreases self.levels@.len() - i,
        {
            i = i + 1;
        }
        i
    }

    proof fn lemma_level_amount(&self, i: int)
        requires
            self.wf(),
            0 <= i < self@.len(),
        ensures
            level_sum(self@, at_price(self@[i].0)) == self@[i].1,
    {
        let s = self@;
        let w = level_weight(at_price(s[i].0));
        lemma_wsum_remove(s, i, w);
        assert forall|j: int| 0 <= j < s.remove(i).len() implies w(#[trigger] s.remove(i)[j]) == 0 by {
            if j < i {
                assert(s.remove(i)[j] == s[j]);
            } else {
                assert(s.remove(i)[j] == s[j + 1]);
            }
        }
        lemma_wsum_zero(s.remove(i), w);
    }

    /// Adds `amount` to the level at `price`, creating the level if needed.
    pub fn add_liquidity(&mut self, price: Price, amount: Amount)
        requires
            old(self).wf(),
            amount > 0,
            level_sum(old(self)@, any_price()) + amount <= u64::MAX,
        ensures
            final(self).wf(),
            forall|f: spec_fn(Price) -> bool|
                #[trigger] level_sum(final(self)@, f) == level_sum(old(self)@, f) + (if f(price) {
                    amount as nat
                } else {
                    0nat
                }),
    {
        let i = self.find(price);
        let ghost s = self@;
        if i < self.levels.len() {
            let (p, a) = self.levels[i];
            proof {
                lemma_wsum_ge(s, i as int, level_weight(any_price()));
            }
            self.levels.set(i, (p, a + amount));
            proof {
                assert forall|f: spec_fn(Price) -> bool|
                    #[trigger] level_sum(self@, f) == level_sum(s, f) + (if f(price) {
                        amount as nat
                    } else {
                        0nat
                    }) by {
                    lemma_wsum_update(s, i as int, (p, (a + amount) as u64), level_weight(f));
                }
            }
        } else {
            self.levels.push((price, amount));
            proof {
                assert forall|f: spec_fn(Price) -> bool|
                    #[trigger] level_sum(self@, f) == level_sum(s, f) + (if f(price) {
                        amount as nat
                    } else {
                        0nat
                    }) by {
                    lemma_wsum_push(s, (price, amount), level_weight(f));
                }
            }
        }
    }

    /// Takes `amount` from the level at `price`, dropping the level when it
    /// reaches zero.
    pub fn remove_liquidity(&mut self, price: Price, amount: Amount)
        requires
            old(self).wf(),
            level_sum(old(self)@, at_price(price)) >= amount,
        ensures
            final(self).wf(),
            forall|f: spec_fn(Price) -> bool|
                #[trigger] level_sum(final(self)@, f) + (if f(price) {
                    amount as nat
                } else {
                    0nat
                }) == level_sum(old(self)@, f),
    {
        let i = self.find(price);
        let ghost s = self@;
        if i < self.levels.len() {
            let (p, a) = self.levels[i];
            proof {
                self.lemma_level_amount(i as int);
            }
            if a - amount == 0 {
                self.levels.remove(i);
                proof {
                    assert forall|f: spec_fn(Price) -> bool|
                        #[trigger] level_sum(self@, f) + (if f(price) {
                            amount as nat
                        } else {
                            0nat
                        }) == level_sum(s, f) by {
                        lemma_wsum_remove(s, i as int, level_weight(f));
                    }
                    assert forall|k: int, j: int|
                        0 <= k < self.levels@.len() && 0 <= j < self.levels@.len() && k != j
                            implies (#[trigger] self.levels@[k]).0 != (#[trigger] self.levels@[j]).0 by {
                        let k2 = if k < i { k } else { k + 1 };
                        let j2 = if j < i { j } else { j + 1 };
                        assert(self.levels@[k] == s[k2]);
                        assert(self.levels@[j] == s[j2]);
                    }
                }
            } else {
                self.levels.set(i, (p, a - amount));
                proof {
                    assert forall|f: spec_fn(Price) -> bool|
                        #[trigger] level_sum(self@, f) + (if f(price) {
                            amount as nat
                        } else {
                            0nat
                        }) == level_sum(s, f) by {
                        lemma_wsum_update(s, i as int, (p, (a - amount) as u64), level_weight(f));
                    }
                }
            }
        } else {
            proof {
                assert forall|j: int| 0 <= j < s.len() implies level_weight(at_price(price))(
                    #[trigger] s[j],
                ) == 0 by {}
                lemma_wsum_zero(s, level_weight(at_price(price)));
            }
        }
    }

    /// Sum of the levels whose price passes `at_or_better(side, price)`.
    pub fn get_liquidity(&self, side: OrderSide, price: Price) -> (r: Amount)
        requires
            self.wf(),
            level_sum(self@, any_price()) <= u64::MAX,
        ensures
            r == level_sum(self@, at_or_better(side, price)),
    {
        let ghost f = at_or_better(side, price);
        let ghost s = self@;
        proof {
            lemma_wsum_le(s, level_weight(f), level_weight(any_price()));
        }
        let mut acc: Amount = 0;
        let mut i: usize = 0;
        while i < self.levels.len()
            invariant
                s == self@,
                f == at_or_better(side, price),
                i <= s.len(),
                acc == level_sum(s.subrange(0, i as int), f),
                level_sum(s, f) <= u64::MAX,
            decreases s.len() - i,
        {
            let (p, a) = self.levels[i];
            proof {
                lemma_wsum_prefix_step(s, i as int, level_weight(f));
                lemma_wsum_prefix(s, i + 1, level_weight(f));
            }
            let hit = match side {
                OrderSide::Sell => p <= price,
                OrderSide::Buy => p >= price,
            };
            if hit {
                acc = acc + a;
            }
            i = i + 1;
        }
        proof {
            assert(s.subrange(0, s.len() as int) =~= s);
        }
        acc
    }

    /// Sum of all levels.
    pub fn total(&self) -> (r: Amount)
        requires
            self.wf(),
            level_sum(self@, any_price()) <= u64::MAX,
        ensures
            r == level_sum(self@, any_price()),
    {
        let ghost s = self@;
        let ghost f = any_price();
        let mut acc: Amount = 0;
        let mut i: usize = 0;
        while i < self.levels.len()
            invariant
                s == self@,
                f == any_price(),
                i <= s.len(),
                acc == level_sum(s.subrange(0, i as int), f),
                level_sum(s, f) <= u64::MAX,
            decreases s.len() - i,
        {
            let (_, a) = self.levels[i];
            proof {
                lemma_wsum_prefix_step(s, i as int, level_weight(f));
                lemma_wsum_prefix(s, i + 1, level_weight(f));
            }
            acc = acc + a;
            i = i + 1;
        }
        proof {
            assert(s.subrange(0, s.len() as int) =~= s);
        }
        acc
    }
}

// ---------------------------------------------------------------------------
// OrderIndex

/// Relies on `HashMap::insert` for a map hashed with rustc-hash's
/// `FxBuildHasher`: afterwards the key is bound to the value.
#[verifier::external_body]
fn fx_insert(m: &mut FxHashMap<OrderId, Price>, k: OrderId, v: Price)
    ensures
        final(m)@ == old(m)@.insert(k, v),
{
    m.insert(k, v);
}

/// Relies on `HashMap::remove` for a map hashed with rustc-hash's
/// `FxBuildHasher`: afterwards the key is unbound.
#[verifier::external_body]
fn fx_remove(m: &mut FxHashMap<OrderId, Price>, k: OrderId)
    ensures
        final(m)@ == old(m)@.remove(k),
{
    m.remove(&k);
}

/// Relies on `HashMap::get` for a map hashed with rustc-hash's
/// `FxBuildHasher`: the value bound to the key, if any.
#[verifier::external_body]
fn fx_get(m: &FxHashMap<OrderId, Price>, k: OrderId) -> (r: Option<Price>)
    ensures
        r == (if m@.contains_key(k) {
            Some(m@[k])
        } else {
            None
        }),
{
    m.get(&k).copied()
}

/// The price at which each resting order id sits.
pub struct OrderIndex {
    index: FxHashMap<OrderId, Price>,
}

impl View for OrderIndex {
    type V = Map<OrderId, Price>;

    closed spec fn view(&self) -> Map<OrderId, Price> {
        self.index@
    }
}

impl OrderIndex {
    pub fn new() -> (r: OrderIndex)
        ensures
            r@ == Map::<OrderId, Price>::empty(),
    {
        OrderIndex { index: FxHashMap::default() }
    }

    pub fn insert(&mut self, order_id: OrderId, price: Price)
        ensures
            final(self)@ == old(self)@.insert(order_id, price),
    {
        fx_insert(&mut self.index, order_id, price);
    }

    pub fn remove(&mut self, order_id: OrderId)
        ensures
            final(self)@ == old(self)@.remove(order_id),
    {
        fx_remove(&mut self.index, order_id);
    }

    pub fn get(&self, order_id: OrderId) -> (r: Option<Price>)
        ensures
            r == (if self@.contains_key(order_id) {
                Some(self@[order_id])
            } else {
                None
            }),
    {
        fx_get(&self.index, order_id)
    }
}

// ---------------------------------------------------------------------------
// BookSide

/// The resting orders of one side of the book, best first, with the
/// liquidity index and the order index kept in step with them.
pub struct BookSide {
    side: OrderSide,
    orders: Vec<BookOrder>,
    liquidity_index: LiquidityIndex,
    index: OrderIndex,
}

impl View for BookSide {
    type V = Seq<BookOrder>;

    /// The resting orders, best first.
    closed spec fn view(&self) -> Seq<BookOrder> {
        self.orders@
    }
}

impl BookSide {
    /// The side of the orders this book holds: `Sell` for asks, `Buy` for bids.
    pub closed spec fn spec_side(&self) -> OrderSide {
        self.side
    }

    /// The levels of the liquidity index.
    pub closed spec fn liquidity_levels(&self) -> Seq<(Price, Amount)> {
        self.liquidity_index@
    }

    /// The order index: resting order id to price.
    pub closed spec fn order_index(&self) -> Map<OrderId, Price> {
        self.index@
    }

    pub closed spec fn wf(&self) -> bool {
        &&& valid_book(self.side, self.orders@)
        &&& self.liquidity_index.wf()
        &&& forall|f: spec_fn(Price) -> bool|
            #[trigger] level_sum(self.liquidity_index@, f) == order_sum(self.orders@, f)
        &&& forall|id: OrderId| #[trigger] self.index@.contains_key(id) <==> has_id(self.orders@, id)
        &&& forall|i: int|
            0 <= i < self.orders@.len() ==> self.index@[(#[trigger] self.orders@[i]).order_id]
                == self.orders@[i].price
    }

    /// What a well-formed side states of its orders.
    pub proof fn lemma_valid(&self)
        requires
            self.wf(),
        ensures
            valid_book(self.spec_side(), self@),
    {
    }

    /// The liquidity index holds exactly the resting amount: over every set
    /// of prices its levels sum to what the orders at those prices hold, in
    /// particular in total; and no level is empty.
    pub proof fn lemma_liquidity_index_agrees(&self)
        requires
            self.wf(),
        ensures
            level_sum(self.liquidity_levels(), any_price()) == total(self@),
            forall|f: spec_fn(Price) -> bool|
                #[trigger] level_sum(self.liquidity_levels(), f) == order_sum(self@, f),
            forall|i: int|
                0 <= i < self.liquidity_levels().len() ==> (#[trigger] self.liquidity_levels()[i]).1 > 0,
    {
        assert(level_sum(self.liquidity_index@, any_price()) == order_sum(self.orders@, any_price()));
    }

    /// Every id in the order index belongs to a resting order at the indexed
    /// price, and every resting order is indexed.
    pub proof fn lemma_order_index_agrees(&self)
        requires
            self.wf(),
        ensures
            forall|id: OrderId|
                #[trigger] self.order_index().contains_key(id) ==> exists|i: int|
                    0 <= i < self@.len() && (#[trigger] self@[i]).order_id == id && self@[i].price
                        == self.order_index()[id],
            forall|i: int|
                0 <= i < self@.len() ==> self.order_index().contains_key((#[trigger] self@[i]).order_id),
    {
        assert forall|id: OrderId| #[trigger] self.order_index().contains_key(id) implies exists|i: int|
            0 <= i < self@.len() && (#[trigger] self@[i]).order_id == id && self@[i].price
                == self.order_index()[id] by {
            assert(has_id(self.orders@, id));
            let i = choose|i: int| 0 <= i < self.orders@.len() && (#[trigger] self.orders@[i]).order_id == id;
            assert(self.index@[self.orders@[i].order_id] == self.orders@[i].price);
            assert(self@[i].order_id == id && self@[i].price == self.order_index()[id]);
        }
        assert forall|i: int| 0 <= i < self@.len() implies self.order_index().contains_key(
            (#[trigger] self@[i]).order_id,
        ) by {
            assert(has_id(self.orders@, self.orders@[i].order_id));
        }
    }

    /// No resting order has a zero amount.
    pub proof fn lemma_amounts_positive(&self)
        requires
            self.wf(),
        ensures
            forall|i: int| 0 <= i < self@.len() ==> (#[trigger] self@[i]).amount > 0,
    {
    }

    pub fn new(side: OrderSide) -> (r: BookSide)
        ensures
            r.wf(),
            r.spec_side() == side,
            r@ == Seq::<BookOrder>::empty(),
    {
        let r = BookSide {
            side,
            orders: Vec::new(),
            liquidity_index: LiquidityIndex::new(),
            index: OrderIndex::new(),
        };
        proof {
            assert forall|f: spec_fn(Price) -> bool|
                #[trigger] level_sum(r.liquidity_index@, f) == order_sum(r.orders@, f) by {
                assert(r.liquidity_index@.len() == 0);
                assert(r.orders@.len() == 0);
            }
        }
        r
    }

    pub fn side(&self) -> (r: OrderSide)
        ensures
            r == self.spec_side(),
    {
        self.side
    }

    pub fn len(&self) -> (r: usize)
        ensures
            r == self@.len(),
    {
        self.orders.len()
    }

    /// Whether an order with `order_id` rests here.
    pub fn contains(&self, order_id: OrderId) -> (r: bool)
        requires
            self.wf(),
        ensures
            r == has_id(self@, order_id),
    {
        match self.index.get(order_id) {
            Some(_) => true,
            None => false,
        }
    }

    /// Inserts a resting order at its place in price-time priority.
    pub fn insert(&mut self, order: BookOrder)
        requires
            old(self).wf(),
            order.amount > 0,
            !has_id(old(self)@, order.order_id),
            total(old(self)@) + order.amount <= u64::MAX,
        ensures
            final(self).wf(),
            final(self).spec_side() == old(self).spec_side(),
            final(self)@ == place(old(self).spec_side(), old(self)@, order),
    {
        let ghost s = self.orders@;
        let side = self.side;
        let mut i: usize = 0;
        while i < self.orders.len() && !precedes_exec(side, &order, &self.orders[i])
            invariant
                s == self.orders@,
                side == self.side,
                i <= s.len(),
                !has_id(s, order.order_id),
                forall|j: int| 0 <= j < i ==> precedes(side, #[trigger] s[j], order),
            decreases s.len() - i,
        {
            proof {
                // distinct ids make the priority order total
                assert(s[i as int].order_id != order.order_id);
            }
            i = i + 1;
        }
        proof {
            assert(level_sum(self.liquidity_index@, any_price()) == order_sum(s, any_price()));
            if i < s.len() {
                assert(precedes(side, order, s[i as int]));
            }
            lemma_insert_pos(side, s, order, i as int);
        }
        self.index.insert(order.order_id, order.price);
        self.liquidity_index.add_liquidity(order.price, order.amount);
        self.orders.insert(i, order);
        proof {
            let t = self.orders@;
            assert(t == s.insert(i as int, order));
            assert forall|a: int, b: int| 0 <= a < b < t.len() implies precedes(side, #[trigger] t[a], #[trigger] t[b]) by {
                if b < i {
                } else if b == i {
                    assert(t[a] == s[a]);
                } else if a < i {
                    assert(t[b] == s[b - 1]);
                    if i < s.len() {
                        assert(precedes(side, order, s[i as int]));
                        if b - 1 > i {
                            assert(precedes(side, s[i as int], s[b - 1]));
                        }
                    }
                } else if a == i {
                    assert(t[b] == s[b - 1]);
                    assert(precedes(side, order, s[i as int]));
                    if b - 1 > i {
                        assert(precedes(side, s[i as int], s[b - 1]));
                    }
                } else {
                    assert(t[a] == s[a - 1]);
                    assert(t[b] == s[b - 1]);
                }
            }
            assert forall|a: int, b: int|
                0 <= a < t.len() && 0 <= b < t.len() && a != b implies (#[trigger] t[a]).order_id
                != (#[trigger] t[b]).order_id by {
                if a != i && b != i {
                    let a2 = if a < i { a } else { a - 1 };
                    let b2 = if b < i { b } else { b - 1 };
                    assert(t[a] == s[a2]);
                    assert(t[b] == s[b2]);
                } else if a == i {
                    let b2 = if b < i { b } else { b - 1 };
                    assert(t[b] == s[b2]);
                } else {
                    let a2 = if a < i { a } else { a - 1 };
                    assert(t[a] == s[a2]);
                }
            }
            assert forall|k: int| 0 <= k < t.len() implies (#[trigger] t[k]).amount > 0 by {
                if k < i {
                } else if k > i {
                    assert(t[k] == s[k - 1]);
                }
            }
            assert forall|f: spec_fn(Price) -> bool|
                #[trigger] level_sum(self.liquidity_index@, f) == order_sum(t, f) by {
                lemma_wsum_insert(s, i as int, order, order_weight(f));
            }
            assert(total(t) == total(s) + order.amount) by {
                lemma_wsum_insert(s, i as int, order, order_weight(any_price()));
            }
            assert forall|id: OrderId| #[trigger] self.index@.contains_key(id) <==> has_id(t, id) by {
                if has_id(t, id) {
                    let k = choose|k: int| 0 <= k < t.len() && (#[trigger] t[k]).order_id == id;
                    if k < i {
                        assert(s[k] == t[k]);
                    } else if k > i {
                        assert(s[k - 1] == t[k]);
                    }
                }
                if id != order.order_id && has_id(s, id) {
                    let k = choose|k: int| 0 <= k < s.len() && (#[trigger] s[k]).order_id == id;
                    if k < i {
                        assert(t[k] == s[k]);
                    } else {
                        assert(t[k + 1] == s[k]);
                    }
                }
                if id == order.order_id {
                    assert(t[i as int] == order);
                }
            }
            assert forall|k: int| 0 <= k < t.len() implies self.index@[(#[trigger] t[k]).order_id]
                == t[k].price by {
                if k < i {
                    assert(t[k] == s[k]);
                } else if k > i {
                    assert(t[k] == s[k - 1]);
                }
            }
        }
    }

    /// Removes the order at position `i`, keeping both indices in step.
    fn remove_at(&mut self, i: usize) -> (r: BookOrder)
        requires
            old(self).wf(),
            i < old(self)@.len(),
        ensures
            final(self).wf(),
            final(self).spec_side() == old(self).spec_side(),
            r == old(self)@[i as int],
            final(self)@ == old(self)@.remove(i as int),
    {
        let ghost s = self.orders@;
        let order = self.orders.remove(i);
        self.index.remove(order.order_id);
        proof {
            lemma_wsum_ge(s, i as int, order_weight(at_price(order.price)));
            assert(level_sum(self.liquidity_index@, at_price(order.price)) == order_sum(
                s,
                at_price(order.price),
            ));
        }
        self.liquidity_index.remove_liquidity(order.price, order.amount);
        proof {
            let t = self.orders@;
            assert forall|a: int, b: int| 0 <= a < b < t.len() implies precedes(self.side, #[trigger] t[a], #[trigger] t[b]) by {
                let a2 = if a < i { a } else { a + 1 };
                let b2 = if b < i { b } else { b + 1 };
                assert(t[a] == s[a2]);
                assert(t[b] == s[b2]);
            }
            assert forall|a: int, b: int|
                0 <= a < t.len() && 0 <= b < t.len() && a != b implies (#[trigger] t[a]).order_id
                != (#[trigger] t[b]).order_id by {
                let a2 = if a < i { a } else { a + 1 };
                let b2 = if b < i { b } else { b + 1 };
                assert(t[a] == s[a2]);
                assert(t[b] == s[b2]);
            }
            assert forall|k: int| 0 <= k < t.len() implies (#[trigger] t[k]).amount > 0 by {
                let k2 = if k < i { k } else { k + 1 };
                assert(t[k] == s[k2]);
            }
            assert forall|f: spec_fn(Price) -> bool|
                #[trigger] level_sum(self.liquidity_index@, f) == order_sum(t, f) by {
                lemma_wsum_remove(s, i as int, order_weight(f));
            }
            assert(total(t) <= total(s)) by {
                lemma_wsum_remove(s, i as int, order_weight(any_price()));
            }
            assert forall|id: OrderId| #[trigger] self.index@.contains_key(id) <==> has_id(t, id) by {
                if has_id(t, id) {
                    let k = choose|k: int| 0 <= k < t.len() && (#[trigger] t[k]).order_id == id;
                    let k2 = if k < i { k } else { k + 1 };
                    assert(t[k] == s[k2]);
                }
                if id != order.order_id && has_id(s, id) {
                    let k = choose|k: int| 0 <= k < s.len() && (#[trigger] s[k]).order_id == id;
                    if k < i {
                        assert(t[k] == s[k]);
                    } else {
                        assert(t[k - 1] == s[k]);
                    }
                }
            }
            assert forall|k: int| 0 <= k < t.len() implies self.index@[(#[trigger] t[k]).order_id]
                == t[k].price by {
                let k2 = if k < i { k } else { k + 1 };
                assert(t[k] == s[k2]);
            }
        }
        order
    }

    /// Removes the order with `order_id`, if it rests here.
    pub fn remove(&mut self, order_id: OrderId) -> (r: Option<BookOrder>)
        requires
            old(self).wf(),
        ensures
            final(self).wf(),
            final(self).spec_side() == old(self).spec_side(),
            match r {
                Some(o) => exists|i: int|
                    0 <= i < old(self)@.len() && #[trigger] old(self)@[i] == o && o.order_id == order_id
                        && final(self)@ == old(self)@.remove(i),
                None => !has_id(old(self)@, order_id) && final(self)@ == old(self)@,
            },
    {
        match self.index.get(order_id) {
            None => None,
            Some(_) => {
                let ghost s = self.orders@;
                let mut i: usize = 0;
                while i < self.orders.len() && self.orders[i].order_id != order_id
                    invariant
                        s == self.orders@,
                        i <= s.len(),
                        has_id(s, order_id),
                        forall|j: int| 0 <= j < i ==> (#[trigger] s[j]).order_id != order_id,
                    decreases s.len() - i,
                {
                    i = i + 1;
                }
                if i == self.orders.len() {
                    proof {
                        let k = choose|k: int| 0 <= k < s.len() && (#[trigger] s[k]).order_id == order_id;
                        assert(s[k].order_id != order_id);
                    }
                }
                let o = self.remove_at(i);
                Some(o)
            },
        }
    }

    /// The best resting order, if any.
    pub fn peek_best(&self) -> (r: Option<&BookOrder>)
        ensures
            match r {
                Some(o) => self@.len() > 0 && *o == self@[0],
                None => self@.len() == 0,
            },
    {
        if self.orders.len() == 0 {
            None
        } else {
            Some(&self.orders[0])
        }
    }

    /// Removes and returns the best resting order, if any.
    pub fn pop_best(&mut self) -> (r: Option<BookOrder>)
        requires
            old(self).wf(),
        ensures
            final(self).wf(),
            final(self).spec_side() == old(self).spec_side(),
            match r {
                Some(o) => old(self)@.len() > 0 && o == old(self)@[0] && final(self)@ == old(self)@.remove(0),
                None => old(self)@.len() == 0 && final(self)@ == old(self)@,
            },
    {
        if self.orders.len() == 0 {
            None
        } else {
            Some(self.remove_at(0))
        }
    }

    /// The price of the best resting order, if any.
    pub fn best_price(&self) -> (r: Option<Price>)
        ensures
            match r {
                Some(p) => self@.len() > 0 && p == self@[0].price,
                None => self@.len() == 0,
            },
    {
        if self.orders.len() == 0 {
            None
        } else {
            Some(self.orders[0].price)
        }
    }

    /// Total resting amount that an aggressor with limit `price` can reach:
    /// for asks the orders priced at or below it, for bids at or above it.
    pub fn get_liquidity(&self, price: Price) -> (r: Amount)
        requires
            self.wf(),
        ensures
            r == order_sum(self@, at_or_better(self.spec_side(), price)),
    {
        proof {
            assert(level_sum(self.liquidity_index@, any_price()) == order_sum(self.orders@, any_price()));
            assert(level_sum(self.liquidity_index@, at_or_better(self.side, price)) == order_sum(
                self.orders@,
                at_or_better(self.side, price),
            ));
        }
        self.liquidity_index.get_liquidity(self.side, price)
    }

    /// Total resting amount on this side.
    pub fn total_amount(&self) -> (r: Amount)
        requires
            self.wf(),
        ensures
            r == total(self@),
    {
        proof {
            assert(level_sum(self.liquidity_index@, any_price()) == order_sum(self.orders@, any_price()));
        }
        self.liquidity_index.total()
    }

    /// The resting orders, best first.
    pub fn iter(&self) -> (r: Vec<BookOrder>)
        ensures
            r@ == self@,
    {
        let mut r: Vec<BookOrder> = Vec::new();
        let mut i: usize = 0;
        while i < self.orders.len()
            invariant
                i <= self.orders@.len(),
                r@ == self.orders@.subrange(0, i as int),
            decreases self.orders@.len() - i,
        {
            r.push(self.orders[i]);
            i = i + 1;
            proof {
                assert(r@ =~= self.orders@.subrange(0, i as int));
            }
        }
        proof {
            assert(r@ =~= self.orders@);
        }
        r
    }
}

} // verus!
