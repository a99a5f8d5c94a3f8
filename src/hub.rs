//! The price broadcast hub: the set of symbols with live market data, and a
//! bounded queue of price updates per subscriber. When a queue is full the
//! oldest update in it is dropped, so a slow reader never holds up the
//! publisher.

use vstd::prelude::*;

use crate::keyed::lemma_contains_push;
use crate::model::{listed, texts};

verus! {

/// The queue bound of the reference configuration.
pub const DEFAULT_QUEUE_CAPACITY: usize = 100;

/// One price observation. Times are milliseconds since the Unix epoch.
#[derive(Debug)]
pub struct PriceUpdate {
    pub symbol: String,
    pub price: u64,
    pub timestamp: u64,
}

impl PriceUpdate {
    /// A field-for-field copy.
    pub fn duplicate(&self) -> (r: PriceUpdate)
        ensures
            r == *self,
    {
        PriceUpdate { symbol: self.symbol.clone(), price: self.price, timestamp: self.timestamp }
    }
}

/// A queue after `update` arrives at a queue bounded by `capacity`.
pub open spec fn delivered(queue: Seq<PriceUpdate>, update: PriceUpdate, capacity: nat) -> Seq<
    PriceUpdate,
> {
    if queue.len() >= capacity {
        queue.drop_first().push(update)
    } else {
        queue.push(update)
    }
}

#[derive(Debug)]
pub struct PriceHub {
    capacity: usize,
    symbols: Vec<String>,
    queues: Vec<Vec<PriceUpdate>>,
}

impl PriceHub {
    pub closed spec fn bound(&self) -> nat {
        self.capacity as nat
    }

    /// The symbols with live market data.
    pub closed spec fn subscriptions(&self) -> Set<Seq<char>> {
        texts(self.symbols@).to_set()
    }

    /// The updates waiting for each subscriber, oldest first.
    pub closed spec fn pending(&self) -> Seq<Seq<PriceUpdate>> {
        self.queues@.map_values(|q: Vec<PriceUpdate>| q@)
    }

    pub closed spec fn wf(&self) -> bool {
        &&& self.capacity > 0
        &&& texts(self.symbols@).no_duplicates()
        &&& forall|i: int| 0 <= i < self.queues.len() ==> (#[trigger] self.queues[i]).len() <= self.capacity
    }

    /// A hub with no subscription and no subscriber, whose queues hold at
    /// most `capacity` updates each.
    pub fn new(capacity: usize) -> (r: PriceHub)
        requires
            capacity > 0,
        ensures
            r.wf(),
            r.bound() == capacity,
            r.subscriptions() == Set::<Seq<char>>::empty(),
            r.pending() == Seq::<Seq<PriceUpdate>>::empty(),
    {
        let r = PriceHub { capacity, symbols: Vec::new(), queues: Vec::new() };
        assert(r.subscriptions() =~= Set::<Seq<char>>::empty());
        assert(r.pending() =~= Seq::<Seq<PriceUpdate>>::empty());
        r
    }

    fn find_symbol(&self, symbol: &String) -> (r: Option<usize>)
        ensures
            r matches Some(i) ==> i < self.symbols.len() && self.symbols@[i as int]@ == symbol@,
            r is None ==> !listed(self.symbols@, symbol@),
    {
        let mut i: usize = 0;
        while i < self.symbols.len()
            invariant
                i <= self.symbols.len(),
                forall|k: int| 0 <= k < i ==> #[trigger] self.symbols@[k]@ != symbol@,
            decreases self.symbols.len() - i,
        {
            if self.symbols[i] == *symbol {
                return Some(i);
            }
            i = i + 1;
        }
        None
    }

    pub fn is_subscribed(&self, symbol: &String) -> (r: bool)
        requires
            self.wf(),
        ensures
            r == self.subscriptions().contains(symbol@),
    {
        let found = self.find_symbol(symbol);
        proof {
            if let Some(i) = found {
                assert(texts(self.symbols@)[i as int] == symbol@);
            } else {
                if texts(self.symbols@).contains(symbol@) {
                    let k = choose|k: int| 0 <= k < self.symbols.len() && texts(self.symbols@)[k] == symbol@;
                    assert(self.symbols@[k]@ == symbol@);
                }
            }
        }
        found.is_some()
    }

    /// Starts live data for `symbol`; subscribing twice is the same as once.
    pub fn subscribe_symbol(&mut self, symbol: &String)
        requires
            old(self).wf(),
        ensures
            final(self).wf(),
            final(self).bound() == old(self).bound(),
            final(self).pending() == old(self).pending(),
            final(self).subscriptions() == old(self).subscriptions().insert(symbol@),
    {
        let ghost before = self.symbols@;
        if self.is_subscribed(symbol) {
            assert(self.subscriptions() =~= self.subscriptions().insert(symbol@));
        } else {
            self.symbols.push(symbol.clone());
            proof {
                assert(texts(self.symbols@) =~= texts(before).push(symbol@));
                assert forall|a: int, b: int|
                    0 <= a < self.symbols.len() && 0 <= b < self.symbols.len() && a != b implies texts(
                    self.symbols@,
                )[a] != texts(self.symbols@)[b] by {
                    if a == before.len() {
                        assert(texts(before).contains(texts(self.symbols@)[b]));
                    } else if b == before.len() {
                        assert(texts(before).contains(texts(self.symbols@)[a]));
                    }
                }
                assert forall|x: Seq<char>| #[trigger] texts(self.symbols@).to_set().contains(x)
                    <==> texts(before).to_set().insert(symbol@).contains(x) by {
                    lemma_contains_push(texts(before), symbol@, x);
                }
                assert(texts(self.symbols@).to_set() =~= texts(before).to_set().insert(symbol@));
            }
        }
    }

    /// Stops live data for `symbol`; unsubscribing twice is the same as once.
    pub fn unsubscribe_symbol(&mut self, symbol: &String)
        requires
            old(self).wf(),
        ensures
            final(self).wf(),
            final(self).bound() == old(self).bound(),
            final(self).pending() == old(self).pending(),
            final(self).subscriptions() == old(self).subscriptions().remove(symbol@),
    {
        let ghost before = self.symbols@;
        match self.find_symbol(symbol) {
            None => {
                proof {
                    if texts(before).contains(symbol@) {
                        let k = choose|k: int| 0 <= k < before.len() && texts(before)[k] == symbol@;
                        assert(before[k]@ == symbol@);
                    }
                    assert(self.subscriptions() =~= self.subscriptions().remove(symbol@));
                }
            },
            Some(i) => {
                self.symbols.remove(i);
                proof {
                    let t = texts(self.symbols@);
                    let b = texts(before);
                    assert(t =~= b.remove(i as int));
                    assert(b[i as int] == symbol@);
                    assert forall|x: Seq<char>| #[trigger] t.to_set().contains(x) <==> b.to_set().remove(
                        symbol@,
                    ).contains(x) by {
                        if t.contains(x) {
                            let k = choose|k: int| 0 <= k < t.len() && t[k] == x;
                            let k2 = if k < i { k } else { k + 1 };
                            assert(b[k2] == x);
                            assert(k2 != i);
                            assert(b[k2] != b[i as int]);
                        }
                        if b.contains(x) && x != symbol@ {
                            let k = choose|k: int| 0 <= k < b.len() && b[k] == x;
                            assert(k != i);
                            let k2 = if k < i { k } else { k - 1 };
                            assert(t[k2] == x);
                        }
                    }
                    assert(t.to_set() =~= b.to_set().remove(symbol@));
                }
            },
        }
    }

    /// The symbols with live market data, each once.
    pub fn subscribed_symbols(&self) -> (r: Vec<String>)
        requires
            self.wf(),
        ensures
            texts(r@).to_set() == self.subscriptions(),
            texts(r@).no_duplicates(),
    {
        crate::model::copy_strings(&self.symbols)
    }

    /// Adds a subscriber with an empty queue; returns its number.
    pub fn add_subscriber(&mut self) -> (r: usize)
        requires
            old(self).wf(),
        ensures
            final(self).wf(),
            final(self).bound() == old(self).bound(),
            final(self).subscriptions() == old(self).subscriptions(),
            r == old(self).pending().len(),
            final(self).pending() == old(self).pending().push(Seq::<PriceUpdate>::empty()),
    {
        let r = self.queues.len();
        let ghost before = self.pending();
        self.queues.push(Vec::new());
        assert(self.pending() =~= before.push(Seq::<PriceUpdate>::empty()));
        r
    }

    /// Hands `update` to every subscriber, dropping a full queue's oldest update first.
    pub fn publish(&mut self, update: &PriceUpdate)
        requires
            old(self).wf(),
        ensures
            final(self).wf(),
            final(self).bound() == old(self).bound(),
            final(self).subscriptions() == old(self).subscriptions(),
            final(self).pending().len() == old(self).pending().len(),
            forall|i: int|
                0 <= i < old(self).pending().len() ==> #[trigger] final(self).pending()[i] == delivered(
                    old(self).pending()[i],
                    *update,
                    old(self).bound(),
                ),
    {
        let ghost before = self.pending();
        let mut i: usize = 0;
        while i < self.queues.len()
            invariant
                self.wf(),
                i <= self.queues.len(),
                self.capacity == old(self).capacity,
                self.symbols == old(self).symbols,
                self.pending().len() == before.len(),
                before == old(self).pending(),
                forall|k: int| 0 <= k < i ==> #[trigger] self.pending()[k] == delivered(
                    before[k],
                    *update,
                    self.capacity as nat,
                ),
                forall|k: int| i <= k < self.queues.len() ==> #[trigger] self.pending()[k] == before[k],
            decreases self.queues.len() - i,
        {
            let ghost old_q = self.queues[i as int]@;
            let ghost qs_before = self.queues@;
            let ghost pend_before = self.pending();
            assert(pend_before[i as int] == old_q);
            assert(old_q == before[i as int]);
            if self.queues[i].len() >= self.capacity {
                self.queues[i].remove(0);
            }
            self.queues[i].push(update.duplicate());
            let ghost new_q = self.queues[i as int]@;
            assert(new_q =~= delivered(old_q, *update, self.capacity as nat));
            proof {
                assert(self.queues@ =~= qs_before.update(i as int, self.queues@[i as int]));
                assert(self.pending() =~= pend_before.update(i as int, new_q));
                assert(self.pending()[i as int] == new_q);
                assert forall|k: int| 0 <= k < i + 1 implies #[trigger] self.pending()[k] == delivered(
                    before[k],
                    *update,
                    self.capacity as nat,
                ) by {}
            }
            i = i + 1;
        }
    }

    /// Takes the oldest waiting update of `subscriber`, if any.
    pub fn receive(&mut self, subscriber: usize) -> (r: Option<PriceUpdate>)
        requires
            old(self).wf(),
            subscriber < old(self).pending().len(),
        ensures
            final(self).wf(),
            final(self).bound() == old(self).bound(),
            final(self).subscriptions() == old(self).subscriptions(),
            old(self).pending()[subscriber as int].len() == 0 ==> r is None && final(self).pending()
                == old(self).pending(),
            old(self).pending()[subscriber as int].len() > 0 ==> r == Some(
                old(self).pending()[subscriber as int][0],
            ) && final(self).pending() == old(self).pending().update(
                subscriber as int,
                old(self).pending()[subscriber as int].drop_first(),
            ),
    {
        let ghost before = self.pending();
        if self.queues[subscriber].len() == 0 {
            return None;
        }
        let first = self.queues[subscriber].remove(0);
        proof {
            assert(self.pending() =~= before.update(subscriber as int, before[subscriber as int].drop_first()));
        }
        Some(first)
    }
}

} // verus!
