//! The in-memory index of active strategies: for each symbol the strategies
//! that follow it, and a cache of the strategies themselves. Activation and
//! deactivation report which symbols gained their first follower (to be
//! subscribed to) and which lost their last one (to be unsubscribed from).
//! Moving an active strategy to a new symbol list reports every symbol only
//! the new list has, since subscribing twice is harmless.

use vstd::prelude::*;

use crate::keyed::{
    keyed_map, lemma_contains_push, lemma_keyed_at, lemma_keyed_push, lemma_keyed_remove,
    lemma_keyed_update, unique_keys,
};
use crate::model::{listed, texts, Strategy, StrategyStatus};

verus! {

/// The strategies that follow one symbol.
#[derive(Debug)]
pub struct SymbolEntry {
    pub symbol: String,
    pub strategy_ids: Vec<u64>,
}

pub open spec fn entry_symbol() -> spec_fn(SymbolEntry) -> Seq<char> {
    |e: SymbolEntry| e.symbol@
}

pub open spec fn entry_ids() -> spec_fn(SymbolEntry) -> Set<u64> {
    |e: SymbolEntry| e.strategy_ids@.to_set()
}

pub open spec fn strategy_key() -> spec_fn(Strategy) -> u64 {
    |s: Strategy| s.id
}

pub open spec fn strategy_itself() -> spec_fn(Strategy) -> Strategy {
    |s: Strategy| s
}

/// The strategies following `t`, none if it has no entry.
pub open spec fn followers(index: Map<Seq<char>, Set<u64>>, t: Seq<char>) -> Set<u64> {
    if index.contains_key(t) {
        index[t]
    } else {
        Set::empty()
    }
}

/// The index after `id` starts following each symbol in `member`.
pub open spec fn with_follower(
    index: Map<Seq<char>, Set<u64>>,
    member: spec_fn(Seq<char>) -> bool,
    id: u64,
) -> Map<Seq<char>, Set<u64>> {
    Map::new(
        |t: Seq<char>| index.contains_key(t) || member(t),
        |t: Seq<char>|
            if member(t) {
                followers(index, t).insert(id)
            } else {
                index[t]
            },
    )
}

/// Whether `t` is followed by `id` and by no other strategy.
pub open spec fn only_follower(index: Map<Seq<char>, Set<u64>>, t: Seq<char>, id: u64) -> bool {
    index.contains_key(t) && index[t].remove(id) == Set::<u64>::empty()
}

/// The index after `id` stops following each symbol in `member`; a symbol
/// left with no follower loses its entry.
pub open spec fn without_follower(
    index: Map<Seq<char>, Set<u64>>,
    member: spec_fn(Seq<char>) -> bool,
    id: u64,
) -> Map<Seq<char>, Set<u64>> {
    Map::new(
        |t: Seq<char>| index.contains_key(t) && !(member(t) && only_follower(index, t, id)),
        |t: Seq<char>|
            if member(t) {
                index[t].remove(id)
            } else {
                index[t]
            },
    )
}

/// The index after `remove_from_symbol(t, id)`.
pub open spec fn removed_from(index: Map<Seq<char>, Set<u64>>, t: Seq<char>, id: u64) -> Map<
    Seq<char>,
    Set<u64>,
> {
    if !index.contains_key(t) {
        index
    } else if only_follower(index, t, id) {
        index.remove(t)
    } else {
        index.insert(t, index[t].remove(id))
    }
}

proof fn lemma_with_follower_step(
    start: Map<Seq<char>, Set<u64>>,
    p: spec_fn(Seq<char>) -> bool,
    q: spec_fn(Seq<char>) -> bool,
    s: Seq<char>,
    id: u64,
)
    requires
        forall|t: Seq<char>| #[trigger] q(t) <==> p(t) || t == s,
    ensures
        with_follower(start, q, id) == ({
            let cur = with_follower(start, p, id);
            cur.insert(s, followers(cur, s).insert(id))
        }),
{
    let cur = with_follower(start, p, id);
    let next = cur.insert(s, followers(cur, s).insert(id));
    assert forall|t: Seq<char>| #[trigger] with_follower(start, q, id).contains_key(t)
        implies with_follower(start, q, id)[t] == next[t] by {
        if t == s && p(t) {
            assert(followers(start, t).insert(id).insert(id) =~= followers(start, t).insert(id));
        }
    }
    assert(with_follower(start, q, id) =~= next);
}

proof fn lemma_with_follower_same(
    start: Map<Seq<char>, Set<u64>>,
    p: spec_fn(Seq<char>) -> bool,
    q: spec_fn(Seq<char>) -> bool,
    id: u64,
)
    requires
        forall|t: Seq<char>| #[trigger] q(t) <==> p(t),
    ensures
        with_follower(start, q, id) == with_follower(start, p, id),
{
    assert(with_follower(start, q, id) =~= with_follower(start, p, id));
}

proof fn lemma_without_follower_step(
    start: Map<Seq<char>, Set<u64>>,
    p: spec_fn(Seq<char>) -> bool,
    q: spec_fn(Seq<char>) -> bool,
    s: Seq<char>,
    id: u64,
)
    requires
        forall|t: Seq<char>| #[trigger] q(t) <==> p(t) || t == s,
    ensures
        without_follower(start, q, id) == removed_from(without_follower(start, p, id), s, id),
        only_follower(without_follower(start, p, id), s, id) <==> only_follower(start, s, id)
            && !p(s),
{
    let cur = without_follower(start, p, id);
    if p(s) && cur.contains_key(s) {
        assert(cur[s].remove(id) =~= start[s].remove(id));
    }
    let next = removed_from(cur, s, id);
    assert forall|t: Seq<char>| #[trigger] without_follower(start, q, id).contains_key(t)
        <==> next.contains_key(t) by {}
    assert forall|t: Seq<char>| #[trigger] without_follower(start, q, id).contains_key(t)
        implies without_follower(start, q, id)[t] == next[t] by {
        if t == s && p(t) {
            assert(start[t].remove(id).remove(id) =~= start[t].remove(id));
        }
    }
    assert(without_follower(start, q, id) =~= next);
}

proof fn lemma_without_follower_same(
    start: Map<Seq<char>, Set<u64>>,
    p: spec_fn(Seq<char>) -> bool,
    q: spec_fn(Seq<char>) -> bool,
    id: u64,
)
    requires
        forall|t: Seq<char>| #[trigger] q(t) <==> p(t),
    ensures
        without_follower(start, q, id) == without_follower(start, p, id),
{
    assert(without_follower(start, q, id) =~= without_follower(start, p, id));
}

proof fn lemma_texts_push(v: Seq<String>, x: String, t: Seq<char>)
    ensures
        texts(v.push(x)) == texts(v).push(x@),
        texts(v.push(x)).contains(t) <==> texts(v).contains(t) || t == x@,
{
    assert(texts(v.push(x)) =~= texts(v).push(x@));
    lemma_contains_push(texts(v), x@, t);
}

proof fn lemma_texts_push_unique(v: Seq<String>, x: String)
    requires
        texts(v).no_duplicates(),
        !texts(v).contains(x@),
    ensures
        texts(v.push(x)).no_duplicates(),
{
    let w = texts(v.push(x));
    assert(w =~= texts(v).push(x@));
    assert forall|a: int, b: int| 0 <= a < w.len() && 0 <= b < w.len() && a != b implies w[a]
        != w[b] by {
        if a == w.len() - 1 {
            assert(texts(v)[b] == w[b]);
        } else if b == w.len() - 1 {
            assert(texts(v)[a] == w[a]);
        }
    }
}

proof fn lemma_listed_texts(v: Seq<String>, t: Seq<char>)
    ensures
        listed(v, t) <==> texts(v).contains(t),
{
    if listed(v, t) {
        let i = choose|i: int| 0 <= i < v.len() && #[trigger] v[i]@ == t;
        assert(texts(v)[i] == t);
    }
    if texts(v).contains(t) {
        let i = choose|i: int| 0 <= i < texts(v).len() && texts(v)[i] == t;
        assert(v[i]@ == t);
    }
}

/// How many times `t` occurs.
pub open spec fn occurrences(s: Seq<Seq<char>>, t: Seq<char>) -> nat
    decreases s.len(),
{
    if s.len() == 0 {
        0
    } else {
        occurrences(s.drop_last(), t) + if s.last() == t {
            1nat
        } else {
            0nat
        }
    }
}

proof fn lemma_occurs_once(s: Seq<Seq<char>>, t: Seq<char>)
    requires
        s.no_duplicates(),
        s.contains(t),
    ensures
        occurrences(s, t) == 1,
    decreases s.len(),
{
    let r = s.drop_last();
    if s.last() == t {
        lemma_occurs_never(r, t);
    } else {
        let i = choose|i: int| 0 <= i < s.len() && s[i] == t;
        assert(r[i] == t);
        lemma_occurs_once(r, t);
    }
}

proof fn lemma_occurs_never(s: Seq<Seq<char>>, t: Seq<char>)
    requires
        forall|i: int| 0 <= i < s.len() ==> s[i] != t,
    ensures
        occurrences(s, t) == 0,
    decreases s.len(),
{
    if s.len() > 0 {
        lemma_occurs_never(s.drop_last(), t);
    }
}

proof fn lemma_listed_push(v: Seq<String>, k: int, t: Seq<char>)
    requires
        0 <= k < v.len(),
    ensures
        listed(v.take(k + 1), t) <==> listed(v.take(k), t) || v[k]@ == t,
{
    if listed(v.take(k + 1), t) {
        let i = choose|i: int| 0 <= i < k + 1 && #[trigger] v.take(k + 1)[i]@ == t;
        if i < k {
            assert(v.take(k)[i]@ == t);
        }
    }
    if listed(v.take(k), t) {
        let i = choose|i: int| 0 <= i < k && #[trigger] v.take(k)[i]@ == t;
        assert(v.take(k + 1)[i]@ == t);
    }
    if v[k]@ == t {
        assert(v.take(k + 1)[k]@ == t);
    }
}

/// Whether `id` is among `ids`.
fn contains_id(ids: &Vec<u64>, id: u64) -> (r: bool)
    ensures
        r == ids@.contains(id),
{
    let mut i: usize = 0;
    while i < ids.len()
        invariant
            i <= ids.len(),
            forall|k: int| 0 <= k < i ==> ids[k] != id,
        decreases ids.len() - i,
    {
        if ids[i] == id {
            return true;
        }
        i = i + 1;
    }
    false
}

/// `ids` without `id`.
fn without_id(ids: &Vec<u64>, id: u64) -> (r: Vec<u64>)
    requires
        ids@.no_duplicates(),
    ensures
        r@.no_duplicates(),
        r@.to_set() == ids@.to_set().remove(id),
{
    let mut r: Vec<u64> = Vec::new();
    let mut i: usize = 0;
    while i < ids.len()
        invariant
            i <= ids.len(),
            ids@.no_duplicates(),
            r@.no_duplicates(),
            forall|y: u64| #[trigger] r@.contains(y) <==> ids@.take(i as int).contains(y) && y != id,
        decreases ids.len() - i,
    {
        let x = ids[i];
        let ghost before = r@;
        proof {
            assert(ids@.take(i as int + 1) =~= ids@.take(i as int).push(x));
            assert(!ids@.take(i as int).contains(x)) by {
                if ids@.take(i as int).contains(x) {
                    let j = choose|j: int| 0 <= j < i && ids@.take(i as int)[j] == x;
                    assert(ids[j] == ids[i as int]);
                }
            }
        }
        if x != id {
            r.push(x);
            proof {
                assert forall|y: u64| #[trigger] r@.contains(y) <==> ids@.take(i as int + 1).contains(y)
                    && y != id by {
                    lemma_contains_push(before, x, y);
                    lemma_contains_push(ids@.take(i as int), x, y);
                }
                assert forall|a: int, b: int| 0 <= a < r.len() && 0 <= b < r.len() && a != b implies r@[a]
                    != r@[b] by {
                    if a == r.len() - 1 {
                        assert(before.contains(r@[b]));
                    } else if b == r.len() - 1 {
                        assert(before.contains(r@[a]));
                    }
                }
            }
        } else {
            proof {
                assert forall|y: u64| #[trigger] r@.contains(y) <==> ids@.take(i as int + 1).contains(y)
                    && y != id by {
                    lemma_contains_push(ids@.take(i as int), x, y);
                }
            }
        }
        i = i + 1;
    }
    proof {
        assert(ids@.take(ids.len() as int) =~= ids@);
        assert(r@.to_set() =~= ids@.to_set().remove(id));
    }
    r
}

/// Whether `name` is among `names`.
pub fn contains_text(names: &Vec<String>, name: &String) -> (r: bool)
    ensures
        r == listed(names@, name@),
{
    let mut i: usize = 0;
    while i < names.len()
        invariant
            i <= names.len(),
            forall|k: int| 0 <= k < i ==> #[trigger] names@[k]@ != name@,
        decreases names.len() - i,
    {
        if names[i] == *name {
            return true;
        }
        i = i + 1;
    }
    false
}

/// Symbol changes that the market data source has to follow.
#[derive(Debug)]
pub struct HubChanges {
    pub subscribe: Vec<String>,
    pub unsubscribe: Vec<String>,
}

/// Symbols in `a` but not in `b`.
pub open spec fn only_in(a: Seq<String>, b: Seq<String>) -> spec_fn(Seq<char>) -> bool {
    |t: Seq<char>| listed(a, t) && !listed(b, t)
}

/// Symbols in `v`.
pub open spec fn among(v: Seq<String>) -> spec_fn(Seq<char>) -> bool {
    |t: Seq<char>| listed(v, t)
}

/// Symbols with their followers, and the strategies they follow for.
#[derive(Debug)]
pub struct StrategyRegistry {
    entries: Vec<SymbolEntry>,
    cache: Vec<Strategy>,
}

impl StrategyRegistry {
    /// Each symbol to the ids of the strategies that follow it.
    pub closed spec fn index(&self) -> Map<Seq<char>, Set<u64>> {
        keyed_map(self.entries@, entry_symbol(), entry_ids())
    }

    /// Each cached strategy by id.
    pub closed spec fn cached(&self) -> Map<u64, Strategy> {
        keyed_map(self.cache@, strategy_key(), strategy_itself())
    }

    pub closed spec fn wf(&self) -> bool {
        &&& unique_keys(self.entries@, entry_symbol())
        &&& unique_keys(self.cache@, strategy_key())
        &&& forall|i: int|
            0 <= i < self.entries.len() ==> {
                &&& (#[trigger] self.entries[i]).strategy_ids@.no_duplicates()
                &&& self.entries[i].strategy_ids.len() > 0
            }
    }

    /// No symbol stays in the index without a follower.
    pub proof fn lemma_followed(&self)
        requires
            self.wf(),
        ensures
            forall|t: Seq<char>| #[trigger]
                self.index().contains_key(t) ==> self.index()[t] != Set::<u64>::empty(),
    {
        assert forall|t: Seq<char>| #[trigger] self.index().contains_key(t) implies self.index()[t]
            != Set::<u64>::empty() by {
            let i = choose|i: int|
                0 <= i < self.entries.len() && (entry_symbol())(#[trigger] self.entries@[i]) == t;
            lemma_keyed_at(self.entries@, entry_symbol(), entry_ids(), i);
            assert(self.entries[i].strategy_ids@.to_set().contains(self.entries[i].strategy_ids@[0]));
        }
    }

    pub fn new() -> (r: StrategyRegistry)
        ensures
            r.wf(),
            r.index() == Map::<Seq<char>, Set<u64>>::empty(),
            r.cached() == Map::<u64, Strategy>::empty(),
    {
        let r = StrategyRegistry { entries: Vec::new(), cache: Vec::new() };
        assert(r.index() =~= Map::<Seq<char>, Set<u64>>::empty());
        assert(r.cached() =~= Map::<u64, Strategy>::empty());
        r
    }

    fn find_symbol(&self, symbol: &String) -> (r: Option<usize>)
        requires
            self.wf(),
        ensures
            r matches Some(i) ==> i < self.entries.len() && self.entries[i as int].symbol@
                == symbol@,
            r is None ==> !self.index().contains_key(symbol@),
    {
        let mut i: usize = 0;
        while i < self.entries.len()
            invariant
                i <= self.entries.len(),
                forall|k: int| 0 <= k < i ==> #[trigger] self.entries[k].symbol@ != symbol@,
            decreases self.entries.len() - i,
        {
            if self.entries[i].symbol == *symbol {
                return Some(i);
            }
            i = i + 1;
        }
        None
    }

    fn find_cached(&self, id: u64) -> (r: Option<usize>)
        requires
            self.wf(),
        ensures
            r matches Some(i) ==> i < self.cache.len() && self.cache[i as int].id == id,
            r is None ==> !self.cached().contains_key(id),
    {
        let mut i: usize = 0;
        while i < self.cache.len()
            invariant
                i <= self.cache.len(),
                forall|k: int| 0 <= k < i ==> #[trigger] self.cache[k].id != id,
            decreases self.cache.len() - i,
        {
            if self.cache[i].id == id {
                return Some(i);
            }
            i = i + 1;
        }
        None
    }

    /// The ids of the strategies that follow `symbol`.
    pub fn strategies_for_symbol(&self, symbol: &String) -> (r: Vec<u64>)
        requires
            self.wf(),
        ensures
            r@.to_set() == followers(self.index(), symbol@),
            r@.no_duplicates(),
    {
        match self.find_symbol(symbol) {
            Some(i) => {
                proof {
                    lemma_keyed_at(self.entries@, entry_symbol(), entry_ids(), i as int);
                }
                let ids = &self.entries[i].strategy_ids;
                let mut r: Vec<u64> = Vec::new();
                let mut k: usize = 0;
                while k < ids.len()
                    invariant
                        k <= ids.len(),
                        r@ == ids@.take(k as int),
                    decreases ids.len() - k,
                {
                    r.push(ids[k]);
                    proof {
                        assert(ids@.take(k as int + 1) =~= ids@.take(k as int).push(ids[k as int]));
                    }
                    k = k + 1;
                }
                proof {
                    assert(ids@.take(ids.len() as int) =~= ids@);
                }
                r
            },
            None => {
                let r: Vec<u64> = Vec::new();
                assert(r@.to_set() =~= Set::<u64>::empty());
                r
            },
        }
    }

    /// The cached strategy with `id`, if any.
    pub fn cached_strategy(&self, id: u64) -> (r: Option<&Strategy>)
        requires
            self.wf(),
        ensures
            r matches Some(s) ==> self.cached().contains_key(id) && *s == self.cached()[id],
            r is None ==> !self.cached().contains_key(id),
    {
        match self.find_cached(id) {
            Some(i) => {
                proof {
                    lemma_keyed_at(self.cache@, strategy_key(), strategy_itself(), i as int);
                }
                Some(&self.cache[i])
            },
            None => None,
        }
    }

    /// Replaces the cached copy of `strategy`, if it is cached; the index
    /// does not change.
    pub fn refresh(&mut self, strategy: Strategy)
        requires
            old(self).wf(),
        ensures
            final(self).wf(),
            final(self).index() == old(self).index(),
            old(self).cached().contains_key(strategy.id) ==> final(self).cached() == old(
                self,
            ).cached().insert(strategy.id, strategy),
            !old(self).cached().contains_key(strategy.id) ==> final(self).cached() == old(
                self,
            ).cached(),
    {
        if self.find_cached(strategy.id).is_some() {
            self.cache_strategy(strategy);
        }
    }

    /// Puts `strategy` in the cache, replacing one with the same id.
    fn cache_strategy(&mut self, strategy: Strategy)
        requires
            old(self).wf(),
        ensures
            final(self).wf(),
            final(self).index() == old(self).index(),
            final(self).cached() == old(self).cached().insert(strategy.id, strategy),
    {
        let ghost cs = self.cache@;
        let ghost s = strategy;
        match self.find_cached(strategy.id) {
            Some(i) => {
                self.cache[i] = strategy;
                proof {
                    assert(self.cache@ == cs.update(i as int, s));
                    lemma_keyed_update(cs, strategy_key(), strategy_itself(), i as int, s);
                }
            },
            None => {
                self.cache.push(strategy);
                proof {
                    lemma_keyed_push(cs, strategy_key(), strategy_itself(), s);
                }
            },
        }
    }

    /// Drops the strategy with `id` from the cache.
    fn evict(&mut self, id: u64)
        requires
            old(self).wf(),
        ensures
            final(self).wf(),
            final(self).index() == old(self).index(),
            final(self).cached() == old(self).cached().remove(id),
    {
        let ghost cs = self.cache@;
        match self.find_cached(id) {
            Some(i) => {
                self.cache.remove(i);
                proof {
                    lemma_keyed_remove(cs, strategy_key(), strategy_itself(), i as int);
                }
            },
            None => {
                assert(self.cached() =~= self.cached().remove(id));
            },
        }
    }

    /// Adds `id` to the followers of `symbol`; true when the symbol had none.
    fn add_to_symbol(&mut self, symbol: &String, id: u64) -> (created: bool)
        requires
            old(self).wf(),
        ensures
            final(self).wf(),
            final(self).cached() == old(self).cached(),
            created == !old(self).index().contains_key(symbol@),
            final(self).index() == old(self).index().insert(
                symbol@,
                followers(old(self).index(), symbol@).insert(id),
            ),
    {
        let ghost es = self.entries@;
        let ghost before = self.index();
        match self.find_symbol(symbol) {
            Some(i) => {
                proof {
                    lemma_keyed_at(es, entry_symbol(), entry_ids(), i as int);
                }
                if contains_id(&self.entries[i].strategy_ids, id) {
                    proof {
                        assert(es[i as int].strategy_ids@.to_set().contains(id));
                        assert(followers(before, symbol@).insert(id) =~= followers(before, symbol@));
                        assert(before.insert(symbol@, followers(before, symbol@)) =~= before);
                    }
                } else {
                    let mut ids: Vec<u64> = Vec::new();
                    std::mem::swap(&mut ids, &mut self.entries[i].strategy_ids);
                    ids.push(id);
                    let e = SymbolEntry { symbol: symbol.clone(), strategy_ids: ids };
                    let ghost written = e;
                    self.entries[i] = e;
                    proof {
                        assert(self.entries@ == es.update(i as int, written));
                        lemma_keyed_update(es, entry_symbol(), entry_ids(), i as int, written);
                        assert(written.strategy_ids@ == es[i as int].strategy_ids@.push(id));
                        assert forall|y: u64| #[trigger] written.strategy_ids@.to_set().contains(y)
                            <==> es[i as int].strategy_ids@.to_set().insert(id).contains(y) by {
                            lemma_contains_push(es[i as int].strategy_ids@, id, y);
                        }
                        assert(written.strategy_ids@.to_set() =~= es[i as int].strategy_ids@.to_set().insert(
                            id,
                        ));
                        assert forall|a: int, b: int|
                            0 <= a < written.strategy_ids.len() && 0 <= b
                                < written.strategy_ids.len() && a != b implies written.strategy_ids@[a]
                            != written.strategy_ids@[b] by {
                            if a < es[i as int].strategy_ids.len() && b < es[i as int].strategy_ids.len() {
                            } else if a < es[i as int].strategy_ids.len() {
                                assert(es[i as int].strategy_ids@.contains(written.strategy_ids@[a]));
                            } else {
                                assert(es[i as int].strategy_ids@.contains(written.strategy_ids@[b]));
                            }
                        }
                        assert forall|k: int| 0 <= k < self.entries.len() implies {
                            &&& (#[trigger] self.entries[k]).strategy_ids@.no_duplicates()
                            &&& self.entries[k].strategy_ids.len() > 0
                        } by {
                            if k != i {
                                assert(self.entries[k] == es[k]);
                            }
                        }
                    }
                }
                false
            },
            None => {
                let mut ids: Vec<u64> = Vec::new();
                ids.push(id);
                let e = SymbolEntry { symbol: symbol.clone(), strategy_ids: ids };
                let ghost written = e;
                self.entries.push(e);
                proof {
                    lemma_keyed_push(es, entry_symbol(), entry_ids(), written);
                    assert(written.strategy_ids@ == seq![id]);
                    assert(written.strategy_ids@.to_set() =~= Set::<u64>::empty().insert(id)) by {
                        assert(written.strategy_ids@[0] == id);
                    }
                    assert forall|k: int| 0 <= k < self.entries.len() implies {
                        &&& (#[trigger] self.entries[k]).strategy_ids@.no_duplicates()
                        &&& self.entries[k].strategy_ids.len() > 0
                    } by {
                        if k < es.len() {
                            assert(self.entries[k] == es[k]);
                        }
                    }
                }
                true
            },
        }
    }

    /// Removes `id` from the followers of `symbol`; true when that left the
    /// symbol with none, in which case its entry is gone.
    fn remove_from_symbol(&mut self, symbol: &String, id: u64) -> (emptied: bool)
        requires
            old(self).wf(),
        ensures
            final(self).wf(),
            final(self).cached() == old(self).cached(),
            emptied == only_follower(old(self).index(), symbol@, id),
            final(self).index() == removed_from(old(self).index(), symbol@, id),
    {
        let ghost es = self.entries@;
        match self.find_symbol(symbol) {
            None => false,
            Some(i) => {
                proof {
                    lemma_keyed_at(es, entry_symbol(), entry_ids(), i as int);
                }
                let kept = without_id(&self.entries[i].strategy_ids, id);
                let ghost rest = es[i as int].strategy_ids@.to_set().remove(id);
                if kept.len() == 0 {
                    self.entries.remove(i);
                    proof {
                        lemma_keyed_remove(es, entry_symbol(), entry_ids(), i as int);
                        assert(kept@.to_set() =~= Set::<u64>::empty());
                        assert forall|k: int| 0 <= k < self.entries.len() implies {
                            &&& (#[trigger] self.entries[k]).strategy_ids@.no_duplicates()
                            &&& self.entries[k].strategy_ids.len() > 0
                        } by {
                            if k < i {
                                assert(self.entries[k] == es[k]);
                            } else {
                                assert(self.entries[k] == es[k + 1]);
                            }
                        }
                    }
                    true
                } else {
                    proof {
                        assert(kept@.to_set().contains(kept@[0]));
                    }
                    let e = SymbolEntry { symbol: symbol.clone(), strategy_ids: kept };
                    let ghost written = e;
                    self.entries[i] = e;
                    proof {
                        assert(self.entries@ == es.update(i as int, written));
                        lemma_keyed_update(es, entry_symbol(), entry_ids(), i as int, written);
                        assert forall|k: int| 0 <= k < self.entries.len() implies {
                            &&& (#[trigger] self.entries[k]).strategy_ids@.no_duplicates()
                            &&& self.entries[k].strategy_ids.len() > 0
                        } by {
                            if k != i {
                                assert(self.entries[k] == es[k]);
                            }
                        }
                    }
                    false
                }
            },
        }
    }

    /// Makes `strategy` follow each of its symbols and caches it. Returns
    /// the symbols that had no follower before, each once: the ones to
    /// subscribe to.
    pub fn activate(&mut self, strategy: Strategy) -> (subscribe: Vec<String>)
        requires
            old(self).wf(),
        ensures
            final(self).wf(),
            final(self).index() == with_follower(
                old(self).index(),
                |t: Seq<char>| listed(strategy.symbols@, t),
                strategy.id,
            ),
            final(self).cached() == old(self).cached().insert(strategy.id, strategy),
            texts(subscribe@).no_duplicates(),
            forall|t: Seq<char>| #[trigger]
                texts(subscribe@).contains(t) <==> listed(strategy.symbols@, t) && !old(
                    self,
                ).index().contains_key(t),
    {
        let ghost start = self.index();
        let ghost cached = self.cached();
        let ghost symbols = strategy.symbols@;
        let id = strategy.id;
        let mut subscribe: Vec<String> = Vec::new();
        proof {
            assert(with_follower(start, |t: Seq<char>| listed(symbols.take(0), t), id) =~= start);
        }
        let mut k: usize = 0;
        while k < strategy.symbols.len()
            invariant
                self.wf(),
                k <= strategy.symbols.len(),
                symbols == strategy.symbols@,
                self.cached() == cached,
                self.index() == with_follower(start, |t: Seq<char>| listed(symbols.take(k as int), t), id),
                texts(subscribe@).no_duplicates(),
                forall|t: Seq<char>| #[trigger]
                    texts(subscribe@).contains(t) <==> listed(symbols.take(k as int), t)
                        && !start.contains_key(t),
            decreases strategy.symbols.len() - k,
        {
            let ghost before = subscribe@;
            let ghost p = |t: Seq<char>| listed(symbols.take(k as int), t);
            let ghost q = |t: Seq<char>| listed(symbols.take(k as int + 1), t);
            let ghost s = symbols[k as int]@;
            proof {
                assert forall|t: Seq<char>| #[trigger] q(t) <==> p(t) || t == s by {
                    lemma_listed_push(symbols, k as int, t);
                }
                lemma_with_follower_step(start, p, q, s, id);
            }
            let created = self.add_to_symbol(&strategy.symbols[k], id);
            if created {
                let name = strategy.symbols[k].clone();
                proof {
                    assert(!texts(before).contains(s));
                    lemma_texts_push_unique(before, name);
                }
                subscribe.push(name);
                proof {
                    assert forall|t: Seq<char>| #[trigger] texts(subscribe@).contains(t) <==> q(t)
                        && !start.contains_key(t) by {
                        lemma_texts_push(before, name, t);
                    }
                }
            } else {
                proof {
                    assert forall|t: Seq<char>| #[trigger] texts(subscribe@).contains(t) <==> q(t)
                        && !start.contains_key(t) by {}
                }
            }
            k = k + 1;
        }
        proof {
            assert(symbols.take(k as int) =~= symbols);
        }
        self.cache_strategy(strategy);
        subscribe
    }

    /// Makes strategy `id` stop following each of `symbols` and evicts it
    /// from the cache. Returns the symbols that it alone followed, each
    /// exactly once: the ones to unsubscribe from.
    pub fn deactivate(&mut self, id: u64, symbols: &Vec<String>) -> (unsubscribe: Vec<String>)
        requires
            old(self).wf(),
        ensures
            final(self).wf(),
            final(self).index() == without_follower(
                old(self).index(),
                |t: Seq<char>| listed(symbols@, t),
                id,
            ),
            final(self).cached() == old(self).cached().remove(id),
            texts(unsubscribe@).no_duplicates(),
            forall|t: Seq<char>| #[trigger]
                texts(unsubscribe@).contains(t) <==> listed(symbols@, t) && only_follower(
                    old(self).index(),
                    t,
                    id,
                ),
            forall|t: Seq<char>| #[trigger]
                occurrences(texts(unsubscribe@), t) == if listed(symbols@, t) && only_follower(
                    old(self).index(),
                    t,
                    id,
                ) {
                    1nat
                } else {
                    0nat
                },
    {
        let ghost start = self.index();
        let ghost cached = self.cached();
        let mut unsubscribe: Vec<String> = Vec::new();
        proof {
            assert(without_follower(start, |t: Seq<char>| listed(symbols@.take(0), t), id) =~= start);
        }
        let mut k: usize = 0;
        while k < symbols.len()
            invariant
                self.wf(),
                k <= symbols.len(),
                self.cached() == cached,
                self.index() == without_follower(
                    start,
                    |t: Seq<char>| listed(symbols@.take(k as int), t),
                    id,
                ),
                texts(unsubscribe@).no_duplicates(),
                forall|t: Seq<char>| #[trigger]
                    texts(unsubscribe@).contains(t) <==> listed(symbols@.take(k as int), t)
                        && only_follower(start, t, id),
            decreases symbols.len() - k,
        {
            let ghost before = unsubscribe@;
            let ghost p = |t: Seq<char>| listed(symbols@.take(k as int), t);
            let ghost q = |t: Seq<char>| listed(symbols@.take(k as int + 1), t);
            let ghost s = symbols[k as int]@;
            proof {
                assert forall|t: Seq<char>| #[trigger] q(t) <==> p(t) || t == s by {
                    lemma_listed_push(symbols@, k as int, t);
                }
                lemma_without_follower_step(start, p, q, s, id);
            }
            let emptied = self.remove_from_symbol(&symbols[k], id);
            if emptied {
                let name = symbols[k].clone();
                proof {
                    assert(!texts(before).contains(s));
                    lemma_texts_push_unique(before, name);
                }
                unsubscribe.push(name);
                proof {
                    assert forall|t: Seq<char>| #[trigger] texts(unsubscribe@).contains(t) <==> q(t)
                        && only_follower(start, t, id) by {
                        lemma_texts_push(before, name, t);
                    }
                }
            } else {
                proof {
                    assert forall|t: Seq<char>| #[trigger] texts(unsubscribe@).contains(t) <==> q(t)
                        && only_follower(start, t, id) by {}
                }
            }
            k = k + 1;
        }
        proof {
            assert(symbols@.take(k as int) =~= symbols@);
            assert forall|t: Seq<char>| #[trigger]
                occurrences(texts(unsubscribe@), t) == if listed(symbols@, t) && only_follower(
                    start,
                    t,
                    id,
                ) {
                    1nat
                } else {
                    0nat
                } by {
                if texts(unsubscribe@).contains(t) {
                    lemma_occurs_once(texts(unsubscribe@), t);
                } else {
                    lemma_occurs_never(texts(unsubscribe@), t);
                }
            }
        }
        self.evict(id);
        unsubscribe
    }

    /// Moves strategy `strategy.id` from `old_symbols` to its current
    /// symbols: it stops following those only in the old list and starts
    /// following those only in the new one, and the cache is refreshed.
    /// Reports the symbols that gained their first follower and those that
    /// lost their last one.
    pub fn reconcile_symbols(&mut self, strategy: Strategy, old_symbols: &Vec<String>) -> (r:
        HubChanges)
        requires
            old(self).wf(),
        ensures
            final(self).wf(),
            final(self).index() == with_follower(
                without_follower(
                    old(self).index(),
                    only_in(old_symbols@, strategy.symbols@),
                    strategy.id,
                ),
                only_in(strategy.symbols@, old_symbols@),
                strategy.id,
            ),
            final(self).cached() == old(self).cached().insert(strategy.id, strategy),
            texts(r.subscribe@).no_duplicates(),
            forall|t: Seq<char>| #[trigger]
                texts(r.subscribe@).contains(t) <==> (only_in(strategy.symbols@, old_symbols@))(t),
            texts(r.unsubscribe@).no_duplicates(),
            forall|t: Seq<char>| #[trigger]
                texts(r.unsubscribe@).contains(t) <==> (only_in(old_symbols@, strategy.symbols@))(t)
                    && only_follower(old(self).index(), t, strategy.id),
    {
        let ghost start = self.index();
        let ghost cached = self.cached();
        let ghost new_symbols = strategy.symbols@;
        let ghost olds = old_symbols@;
        let id = strategy.id;
        let mut unsubscribe: Vec<String> = Vec::new();
        proof {
            assert(without_follower(
                start,
                |t: Seq<char>| listed(olds.take(0), t) && !listed(new_symbols, t),
                id,
            ) =~= start);
        }
        let mut k: usize = 0;
        while k < old_symbols.len()
            invariant
                self.wf(),
                k <= old_symbols.len(),
                olds == old_symbols@,
                new_symbols == strategy.symbols@,
                self.cached() == cached,
                self.index() == without_follower(
                    start,
                    |t: Seq<char>| listed(olds.take(k as int), t) && !listed(new_symbols, t),
                    id,
                ),
                texts(unsubscribe@).no_duplicates(),
                forall|t: Seq<char>| #[trigger]
                    texts(unsubscribe@).contains(t) <==> listed(olds.take(k as int), t) && !listed(
                        new_symbols,
                        t,
                    ) && only_follower(start, t, id),
            decreases old_symbols.len() - k,
        {
            let ghost before = unsubscribe@;
            let ghost p = |t: Seq<char>| listed(olds.take(k as int), t) && !listed(new_symbols, t);
            let ghost q = |t: Seq<char>| listed(olds.take(k as int + 1), t) && !listed(new_symbols, t);
            let ghost s = olds[k as int]@;
            proof {
                assert forall|t: Seq<char>| listed(olds.take(k as int + 1), t) <==> listed(
                    olds.take(k as int),
                    t,
                ) || t == s by {
                    lemma_listed_push(olds, k as int, t);
                }
            }
            if contains_text(&strategy.symbols, &old_symbols[k]) {
                proof {
                    assert forall|t: Seq<char>| #[trigger] q(t) <==> p(t) by {}
                    lemma_without_follower_same(start, p, q, id);
                    assert forall|t: Seq<char>| #[trigger] texts(unsubscribe@).contains(t) <==> q(t)
                        && only_follower(start, t, id) by {}
                }
            } else {
                proof {
                    assert forall|t: Seq<char>| #[trigger] q(t) <==> p(t) || t == s by {}
                    lemma_without_follower_step(start, p, q, s, id);
                }
                let emptied = self.remove_from_symbol(&old_symbols[k], id);
                if emptied {
                    let name = old_symbols[k].clone();
                    proof {
                        assert(!texts(before).contains(s));
                        lemma_texts_push_unique(before, name);
                    }
                    unsubscribe.push(name);
                    proof {
                        assert forall|t: Seq<char>| #[trigger] texts(unsubscribe@).contains(t) <==> q(t)
                            && only_follower(start, t, id) by {
                            lemma_texts_push(before, name, t);
                        }
                    }
                } else {
                    proof {
                        assert forall|t: Seq<char>| #[trigger] texts(unsubscribe@).contains(t) <==> q(t)
                            && only_follower(start, t, id) by {}
                    }
                }
            }
            k = k + 1;
        }
        proof {
            assert(olds.take(k as int) =~= olds);
            lemma_without_follower_same(
                start,
                only_in(olds, new_symbols),
                |t: Seq<char>| listed(olds.take(k as int), t) && !listed(new_symbols, t),
                id,
            );
        }
        let ghost mid = self.index();
        let mut subscribe: Vec<String> = Vec::new();
        proof {
            assert(with_follower(
                mid,
                |t: Seq<char>| listed(new_symbols.take(0), t) && !listed(olds, t),
                id,
            ) =~= mid);
        }
        let mut j: usize = 0;
        while j < strategy.symbols.len()
            invariant
                self.wf(),
                j <= strategy.symbols.len(),
                olds == old_symbols@,
                new_symbols == strategy.symbols@,
                self.cached() == cached,
                mid == without_follower(start, only_in(olds, new_symbols), id),
                self.index() == with_follower(
                    mid,
                    |t: Seq<char>| listed(new_symbols.take(j as int), t) && !listed(olds, t),
                    id,
                ),
                texts(subscribe@).no_duplicates(),
                forall|t: Seq<char>| #[trigger]
                    texts(subscribe@).contains(t) <==> listed(new_symbols.take(j as int), t)
                        && !listed(olds, t),
            decreases strategy.symbols.len() - j,
        {
            let ghost before = subscribe@;
            let ghost p = |t: Seq<char>| listed(new_symbols.take(j as int), t) && !listed(olds, t);
            let ghost q = |t: Seq<char>| listed(new_symbols.take(j as int + 1), t) && !listed(olds, t);
            let ghost s = new_symbols[j as int]@;
            proof {
                assert forall|t: Seq<char>| listed(new_symbols.take(j as int + 1), t) <==> listed(
                    new_symbols.take(j as int),
                    t,
                ) || t == s by {
                    lemma_listed_push(new_symbols, j as int, t);
                }
            }
            if contains_text(old_symbols, &strategy.symbols[j]) {
                proof {
                    assert forall|t: Seq<char>| #[trigger] q(t) <==> p(t) by {}
                    lemma_with_follower_same(mid, p, q, id);
                    assert forall|t: Seq<char>| #[trigger] texts(subscribe@).contains(t) <==> q(t) by {}
                }
            } else {
                proof {
                    assert forall|t: Seq<char>| #[trigger] q(t) <==> p(t) || t == s by {}
                    lemma_with_follower_step(mid, p, q, s, id);
                }
                self.add_to_symbol(&strategy.symbols[j], id);
                let seen = contains_text(&subscribe, &strategy.symbols[j]);
                proof {
                    lemma_listed_texts(before, s);
                }
                if !seen {
                    let name = strategy.symbols[j].clone();
                    proof {
                        lemma_texts_push_unique(before, name);
                    }
                    subscribe.push(name);
                    proof {
                        assert forall|t: Seq<char>| #[trigger] texts(subscribe@).contains(t) <==> q(t) by {
                            lemma_texts_push(before, name, t);
                        }
                    }
                } else {
                    proof {
                        assert forall|t: Seq<char>| #[trigger] texts(subscribe@).contains(t) <==> q(t) by {}
                    }
                }
            }
            j = j + 1;
        }
        proof {
            assert(new_symbols.take(j as int) =~= new_symbols);
            lemma_with_follower_same(
                mid,
                only_in(new_symbols, olds),
                |t: Seq<char>| listed(new_symbols.take(j as int), t) && !listed(olds, t),
                id,
            );
        }
        self.cache_strategy(strategy);
        HubChanges { subscribe, unsubscribe }
    }

    /// Follows a status change of `strategy` from `old_status`: leaving
    /// `Active` deactivates it over `old_symbols`, the symbols it was
    /// registered under; entering `Active` activates it over its current
    /// symbols; any other change leaves the registry as it is.
    pub fn update_strategy_status(
        &mut self,
        strategy: Strategy,
        old_status: StrategyStatus,
        old_symbols: &Vec<String>,
    ) -> (r: HubChanges)
        requires
            old(self).wf(),
        ensures
            final(self).wf(),
            texts(r.subscribe@).no_duplicates(),
            texts(r.unsubscribe@).no_duplicates(),
            forall|t: Seq<char>| #[trigger]
                occurrences(texts(r.unsubscribe@), t) == if old_status == StrategyStatus::Active
                    && strategy.status != StrategyStatus::Active && listed(old_symbols@, t)
                    && only_follower(old(self).index(), t, strategy.id) {
                    1nat
                } else {
                    0nat
                },
            old_status == StrategyStatus::Active && strategy.status != StrategyStatus::Active ==> {
                &&& final(self).index() == without_follower(
                    old(self).index(),
                    among(old_symbols@),
                    strategy.id,
                )
                &&& final(self).cached() == old(self).cached().remove(strategy.id)
                &&& r.subscribe@.len() == 0
                &&& forall|t: Seq<char>| #[trigger]
                    texts(r.unsubscribe@).contains(t) <==> listed(old_symbols@, t)
                        && only_follower(old(self).index(), t, strategy.id)
            },
            old_status != StrategyStatus::Active && strategy.status == StrategyStatus::Active ==> {
                &&& final(self).index() == with_follower(
                    old(self).index(),
                    among(strategy.symbols@),
                    strategy.id,
                )
                &&& final(self).cached() == old(self).cached().insert(strategy.id, strategy)
                &&& r.unsubscribe@.len() == 0
                &&& forall|t: Seq<char>| #[trigger]
                    texts(r.subscribe@).contains(t) <==> listed(strategy.symbols@, t) && !old(
                        self,
                    ).index().contains_key(t)
            },
            (old_status == StrategyStatus::Active) == (strategy.status == StrategyStatus::Active)
                ==> {
                &&& *final(self) == *old(self)
                &&& r.subscribe@.len() == 0
                &&& r.unsubscribe@.len() == 0
            },
    {
        let was_active = old_status.is_active();
        let is_active = strategy.status.is_active();
        if was_active && !is_active {
            let unsubscribe = self.deactivate(strategy.id, old_symbols);
            proof {
                lemma_without_follower_same(
                    old(self).index(),
                    among(old_symbols@),
                    |t: Seq<char>| listed(old_symbols@, t),
                    strategy.id,
                );
            }
            HubChanges { subscribe: Vec::new(), unsubscribe }
        } else if !was_active && is_active {
            let ghost symbols = strategy.symbols@;
            let ghost id = strategy.id;
            let subscribe = self.activate(strategy);
            proof {
                lemma_with_follower_same(
                    old(self).index(),
                    among(symbols),
                    |t: Seq<char>| listed(symbols, t),
                    id,
                );
            }
            HubChanges { subscribe, unsubscribe: Vec::new() }
        } else {
            HubChanges { subscribe: Vec::new(), unsubscribe: Vec::new() }
        }
    }
}

} // verus!
