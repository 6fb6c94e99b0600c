//! The small inline vectors (from the smallvec crate) in which the matcher
//! returns trades and the engine returns events.

use smallvec::SmallVec;
use vstd::prelude::*;

use crate::model::{EngineEvent, Trade};

verus! {

/// The trades of one match, in execution order, held inline up to sixteen.
#[verifier::external_body]
pub struct Trades {
    items: SmallVec<[Trade; 16]>,
}

/// The events of one processed order, in execution order, held inline up to sixteen.
#[verifier::external_body]
pub struct Events {
    items: SmallVec<[EngineEvent; 16]>,
}

/// The trades a `Trades` holds, first to last.
pub uninterp spec fn trade_items(v: Trades) -> Seq<Trade>;

/// The events an `Events` holds, first to last.
pub uninterp spec fn event_items(v: Events) -> Seq<EngineEvent>;

/// Relies on `SmallVec::new`: a new vector holds nothing.
#[verifier::external_body]
fn trades_new() -> (r: Trades)
    ensures
        trade_items(r) == Seq::<Trade>::empty(),
{
    Trades { items: SmallVec::new() }
}

/// Relies on `SmallVec::push`: the item is appended after the others; it
/// panics only when the length would overflow.
#[verifier::external_body]
fn trades_push(v: &mut Trades, t: Trade)
    requires
        trade_items(*old(v)).len() < usize::MAX,
    ensures
        trade_items(*final(v)) == trade_items(*old(v)).push(t),
{
    v.items.push(t)
}

/// Relies on `SmallVec::len`: the number of items held.
#[verifier::external_body]
fn trades_len(v: &Trades) -> (r: usize)
    ensures
        r == trade_items(*v).len(),
{
    v.items.len()
}

/// Relies on `SmallVec`'s `Index`: the item at position `i`.
#[verifier::external_body]
fn trades_index(v: &Trades, i: usize) -> (r: Trade)
    requires
        i < trade_items(*v).len(),
    ensures
        r == trade_items(*v)[i as int],
{
    v.items[i]
}

/// Relies on `SmallVec::new`: a new vector holds nothing.
#[verifier::external_body]
fn events_new() -> (r: Events)
    ensures
        event_items(r) == Seq::<EngineEvent>::empty(),
{
    Events { items: SmallVec::new() }
}

/// Relies on `SmallVec::push`: the item is appended after the others; it
/// panics only when the length would overflow.
#[verifier::external_body]
fn events_push(v: &mut Events, e: EngineEvent)
    requires
        event_items(*old(v)).len() < usize::MAX,
    ensures
        event_items(*final(v)) == event_items(*old(v)).push(e),
{
    v.items.push(e)
}

/// Relies on `SmallVec::len`: the number of items held.
#[verifier::external_body]
fn events_len(v: &Events) -> (r: usize)
    ensures
        r == event_items(*v).len(),
{
    v.items.len()
}

/// Relies on `SmallVec`'s `Index`: the item at position `i`.
#[verifier::external_body]
fn events_index(v: &Events, i: usize) -> (r: EngineEvent)
    requires
        i < event_items(*v).len(),
    ensures
        r == event_items(*v)[i as int],
{
    v.items[i]
}

impl Trades {
    pub fn new() -> (r: Trades)
        ensures
            r@ == Seq::<Trade>::empty(),
    {
        trades_new()
    }

    pub fn push(&mut self, t: Trade)
        requires
            old(self)@.len() < usize::MAX,
        ensures
            final(self)@ == old(self)@.push(t),
    {
        trades_push(self, t)
    }

    pub fn len(&self) -> (r: usize)
        ensures
            r == self@.len(),
    {
        trades_len(self)
    }

    pub fn get(&self, i: usize) -> (r: Trade)
        requires
            i < self@.len(),
        ensures
            r == self@[i as int],
    {
        trades_index(self, i)
    }

    /// The trades, first to last.
    pub fn to_vec(&self) -> (r: Vec<Trade>)
        ensures
            r@ == self@,
    {
        let n = self.len();
        let mut r: Vec<Trade> = Vec::new();
        let mut i: usize = 0;
        while i < n
            invariant
                n == self@.len(),
                i <= n,
                r@ == self@.subrange(0, i as int),
            decreases n - i,
        {
            r.push(self.get(i));
            i = i + 1;
            proof {
                assert(r@ =~= self@.subrange(0, i as int));
            }
        }
        proof {
            assert(r@ =~= self@);
        }
        r
    }
}

impl View for Trades {
    type V = Seq<Trade>;

    open spec fn view(&self) -> Seq<Trade> {
        trade_items(*self)
    }
}

impl Events {
    pub fn new() -> (r: Events)
        ensures
            r@ == Seq::<EngineEvent>::empty(),
    {
        events_new()
    }

    pub fn push(&mut self, e: EngineEvent)
        requires
            old(self)@.len() < usize::MAX,
        ensures
            final(self)@ == old(self)@.push(e),
    {
        events_push(self, e)
    }

    pub fn len(&self) -> (r: usize)
        ensures
            r == self@.len(),
    {
        events_len(self)
    }

    pub fn get(&self, i: usize) -> (r: EngineEvent)
        requires
            i < self@.len(),
        ensures
            r == self@[i as int],
    {
        events_index(self, i)
    }

    /// The events, first to last.
    pub fn to_vec(&self) -> (r: Vec<EngineEvent>)
        ensures
            r@ == self@,
    {
        let n = self.len();
        let mut r: Vec<EngineEvent> = Vec::new();
        let mut i: usize = 0;
        while i < n
            invariant
                n == self@.len(),
                i <= n,
                r@ == self@.subrange(0, i as int),
            decreases n - i,
        {
            r.push(self.get(i));
            i = i + 1;
            proof {
                assert(r@ =~= self@.subrange(0, i as int));
            }
        }
        proof {
            assert(r@ =~= self@);
        }
        r
    }
}

impl View for Events {
    type V = Seq<EngineEvent>;

    open spec fn view(&self) -> Seq<EngineEvent> {
        event_items(*self)
    }
}

} // verus!
