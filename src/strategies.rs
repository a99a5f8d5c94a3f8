//! Strategy records and their life cycle: an in-memory store, and the
//! service that keeps the registry in step with each status or symbol change.

use vstd::prelude::*;

use crate::error::AppError;
use crate::ids::{is_object_id_text, validate_object_id};
use crate::keyed::{
    keyed_map, lemma_keyed_at, lemma_keyed_push, lemma_keyed_remove, lemma_keyed_update,
    unique_keys,
};
use crate::model::{
    copy_strings, listed, or_default, parameters_from, texts, RawParameters, RiskParameters,
    Strategy, StrategyParameters, StrategyStatus, StrategyType,
};
use crate::registry::{
    among, only_follower, only_in, strategy_itself, strategy_key, with_follower,
    without_follower, HubChanges, StrategyRegistry,
};

verus! {

/// Whether a strategy belongs to `user`.
pub open spec fn owned_by(user: Seq<char>) -> spec_fn(Strategy) -> bool {
    |s: Strategy| s.user_id@ == user
}

pub open spec fn is_active() -> spec_fn(Strategy) -> bool {
    |s: Strategy| s.status == StrategyStatus::Active
}

/// Each of `r` copies the strategy at the same place of `expected`.
pub open spec fn copies(r: Seq<Strategy>, expected: Seq<Strategy>) -> bool {
    r.len() == expected.len() && forall|k: int| 0 <= k < r.len() ==> (#[trigger] r[k]).same_as(&expected[k])
}

/// Stored strategies, each under the id it was given.
#[derive(Debug)]
pub struct StrategyRepository {
    strategies: Vec<Strategy>,
    next_id: u64,
}

impl StrategyRepository {
    pub closed spec fn stored(&self) -> Map<u64, Strategy> {
        keyed_map(self.strategies@, strategy_key(), strategy_itself())
    }

    /// The stored strategies in the order they were created.
    pub closed spec fn records(&self) -> Seq<Strategy> {
        self.strategies@
    }

    /// The id the next created strategy gets.
    pub closed spec fn fresh_id(&self) -> u64 {
        self.next_id
    }

    pub closed spec fn wf(&self) -> bool {
        &&& unique_keys(self.strategies@, strategy_key())
        &&& forall|i: int| 0 <= i < self.strategies.len() ==> (#[trigger] self.strategies[i]).id < self.next_id
    }

    pub fn new() -> (r: StrategyRepository)
        ensures
            r.wf(),
            r.stored() == Map::<u64, Strategy>::empty(),
            r.records().len() == 0,
    {
        let r = StrategyRepository { strategies: Vec::new(), next_id: 0 };
        assert(r.stored() =~= Map::<u64, Strategy>::empty());
        r
    }

    fn find(&self, id: u64) -> (r: Option<usize>)
        requires
            self.wf(),
        ensures
            r matches Some(i) ==> i < self.strategies.len() && self.strategies[i as int].id == id
                && self.stored().contains_key(id) && self.stored()[id] == self.strategies[i as int],
            r is None ==> !self.stored().contains_key(id),
    {
        let mut i: usize = 0;
        while i < self.strategies.len()
            invariant
                self.wf(),
                i <= self.strategies.len(),
                forall|k: int| 0 <= k < i ==> #[trigger] self.strategies[k].id != id,
            decreases self.strategies.len() - i,
        {
            if self.strategies[i].id == id {
                proof {
                    lemma_keyed_at(self.strategies@, strategy_key(), strategy_itself(), i as int);
                }
                return Some(i);
            }
            i = i + 1;
        }
        None
    }

    /// Stores `strategy` under a new id, which is returned.
    pub fn create_strategy(&mut self, strategy: Strategy) -> (r: Result<u64, AppError>)
        requires
            old(self).wf(),
        ensures
            final(self).wf(),
            old(self).fresh_id() == u64::MAX ==> r == Err::<u64, AppError>(AppError::OutOfRange)
                && *final(self) == *old(self),
            old(self).fresh_id() < u64::MAX ==> {
                &&& r == Ok::<u64, AppError>(old(self).fresh_id())
                &&& final(self).stored() == old(self).stored().insert(
                    old(self).fresh_id(),
                    Strategy { id: old(self).fresh_id(), ..strategy },
                )
                &&& final(self).records() == old(self).records().push(
                    Strategy { id: old(self).fresh_id(), ..strategy },
                )
            },
    {
        if self.next_id == u64::MAX {
            return Err(AppError::OutOfRange);
        }
        let id = self.next_id;
        let mut s = strategy;
        s.id = id;
        let ghost before = self.strategies@;
        let ghost written = s;
        proof {
            if self.stored().contains_key(id) {
                let k = choose|k: int| 0 <= k < before.len() && (strategy_key())(#[trigger] before[k]) == id;
                assert(before[k].id < self.next_id);
            }
        }
        self.strategies.push(s);
        self.next_id = id + 1;
        proof {
            lemma_keyed_push(before, strategy_key(), strategy_itself(), written);
        }
        Ok(id)
    }

    /// Replaces the stored strategy with the same id.
    pub fn update_strategy(&mut self, strategy: Strategy) -> (r: Result<(), AppError>)
        requires
            old(self).wf(),
        ensures
            final(self).wf(),
            final(self).fresh_id() == old(self).fresh_id(),
            old(self).stored().contains_key(strategy.id) ==> r is Ok && final(self).stored() == old(
                self,
            ).stored().insert(strategy.id, strategy),
            !old(self).stored().contains_key(strategy.id) ==> (r matches Err(e) && e is NotFoundError)
                && *final(self) == *old(self),
    {
        match self.find(strategy.id) {
            None => Err(AppError::NotFoundError("Strategy not found".to_string())),
            Some(i) => {
                let ghost before = self.strategies@;
                let ghost written = strategy;
                self.strategies[i] = strategy;
                proof {
                    assert(self.strategies@ == before.update(i as int, written));
                    lemma_keyed_update(before, strategy_key(), strategy_itself(), i as int, written);
                    assert forall|k: int| 0 <= k < self.strategies.len() implies (
                    #[trigger] self.strategies[k]).id < self.next_id by {
                        if k != i {
                            assert(self.strategies[k] == before[k]);
                        }
                    }
                }
                Ok(())
            },
        }
    }

    /// A copy of the strategy with `id`.
    pub fn get_strategy_by_id(&self, id: u64) -> (r: Option<Strategy>)
        requires
            self.wf(),
        ensures
            r is None <==> !self.stored().contains_key(id),
            r matches Some(s) ==> s.same_as(&self.stored()[id]),
    {
        match self.find(id) {
            None => None,
            Some(i) => Some(self.strategies[i].duplicate()),
        }
    }

    /// Copies of the strategies of `user`, or of the active ones when there is no user, in creation order.
    fn select(&self, user: Option<&String>) -> (r: Vec<Strategy>)
        ensures
            user matches Some(u) ==> copies(r@, self.records().filter(owned_by(u@))),
            user is None ==> copies(r@, self.records().filter(is_active())),
    {
        let ghost keep = match user {
            Some(u) => owned_by(u@),
            None => is_active(),
        };
        let mut r: Vec<Strategy> = Vec::new();
        let mut i: usize = 0;
        proof {
            reveal(Seq::filter);
            assert(self.strategies@.take(0).filter(keep) =~= Seq::<Strategy>::empty());
        }
        while i < self.strategies.len()
            invariant
                i <= self.strategies.len(),
                keep == (match user {
                    Some(u) => owned_by(u@),
                    None => is_active(),
                }),
                copies(r@, self.strategies@.take(i as int).filter(keep)),
            decreases self.strategies.len() - i,
        {
            let s = &self.strategies[i];
            let wanted = match user {
                Some(u) => s.user_id == *u,
                None => s.status.is_active(),
            };
            let ghost before = r@;
            proof {
                reveal(Seq::filter);
                assert(self.strategies@.take(i as int + 1).drop_last() =~= self.strategies@.take(
                    i as int,
                ));
                assert(wanted == keep(*s));
            }
            if wanted {
                r.push(s.duplicate());
                proof {
                    assert(self.strategies@.take(i as int + 1).filter(keep) == self.strategies@.take(
                        i as int,
                    ).filter(keep).push(*s));
                    assert forall|k: int| 0 <= k < r.len() implies (#[trigger] r@[k]).same_as(
                        &self.strategies@.take(i as int + 1).filter(keep)[k],
                    ) by {
                        if k < before.len() {
                            assert(r@[k] == before[k]);
                        }
                    }
                }
            } else {
                proof {
                    assert(self.strategies@.take(i as int + 1).filter(keep) == self.strategies@.take(
                        i as int,
                    ).filter(keep));
                }
            }
            i = i + 1;
        }
        proof {
            assert(self.strategies@.take(i as int) =~= self.strategies@);
        }
        r
    }

    /// Copies of the strategies of `user_id`, in creation order.
    pub fn get_strategies_by_user_id(&self, user_id: &String) -> (r: Vec<Strategy>)
        ensures
            copies(r@, self.records().filter(owned_by(user_id@))),
    {
        self.select(Some(user_id))
    }

    /// Copies of the active strategies, in creation order.
    pub fn get_active_strategies(&self) -> (r: Vec<Strategy>)
        ensures
            copies(r@, self.records().filter(is_active())),
    {
        self.select(None)
    }

    /// Removes the strategy with `id`; true when there was one.
    pub fn delete_strategy(&mut self, id: u64) -> (r: bool)
        requires
            old(self).wf(),
        ensures
            final(self).wf(),
            final(self).fresh_id() == old(self).fresh_id(),
            r == old(self).stored().contains_key(id),
            final(self).stored() == old(self).stored().remove(id),
    {
        match self.find(id) {
            None => {
                assert(self.stored() =~= self.stored().remove(id));
                false
            },
            Some(i) => {
                let ghost before = self.strategies@;
                self.strategies.remove(i);
                proof {
                    lemma_keyed_remove(before, strategy_key(), strategy_itself(), i as int);
                    assert forall|k: int| 0 <= k < self.strategies.len() implies (
                    #[trigger] self.strategies[k]).id < self.next_id by {
                        if k < i {
                            assert(self.strategies[k] == before[k]);
                        } else {
                            assert(self.strategies[k] == before[k + 1]);
                        }
                    }
                }
                true
            },
        }
    }
}

/// Longest strategy name, in characters.
pub const MAX_NAME_LENGTH: usize = 100;

/// Longest strategy description, in characters.
pub const MAX_DESCRIPTION_LENGTH: usize = 500;

#[derive(Debug)]
pub struct CreateStrategyRequest {
    pub name: String,
    pub description: String,
    pub strategy_type: StrategyType,
    pub symbols: Vec<String>,
    pub parameters: RawParameters,
    pub risk_parameters: RiskParameters,
}

/// A name of 1 to 100 characters, a description of at most 500, and at least one symbol.
pub open spec fn valid_create_request(req: CreateStrategyRequest) -> bool {
    &&& 1 <= req.name@.len() <= MAX_NAME_LENGTH
    &&& req.description@.len() <= MAX_DESCRIPTION_LENGTH
    &&& req.symbols.len() >= 1
}

impl CreateStrategyRequest {
    pub fn validate(&self) -> (r: Result<(), AppError>)
        ensures
            r is Ok <==> valid_create_request(*self),
            r matches Err(e) ==> e is ValidationError,
    {
        let name_length = self.name.as_str().unicode_len();
        let description_length = self.description.as_str().unicode_len();
        if name_length < 1 || name_length > MAX_NAME_LENGTH {
            return Err(AppError::ValidationError("name must have 1 to 100 characters".to_string()));
        }
        if description_length > MAX_DESCRIPTION_LENGTH {
            return Err(
                AppError::ValidationError("description must have at most 500 characters".to_string()),
            );
        }
        if self.symbols.len() < 1 {
            return Err(AppError::ValidationError("at least one symbol is required".to_string()));
        }
        Ok(())
    }
}

#[derive(Debug)]
pub struct UpdateStrategyRequest {
    pub name: Option<String>,
    pub description: Option<String>,
    pub status: Option<StrategyStatus>,
    pub symbols: Option<Vec<String>>,
    pub parameters: Option<RawParameters>,
    pub risk_parameters: Option<RiskParameters>,
}

/// A new name of 1 to 100 characters and a new description of at most 500.
pub open spec fn valid_update_request(req: UpdateStrategyRequest) -> bool {
    &&& req.name matches Some(n) ==> 1 <= n@.len() <= MAX_NAME_LENGTH
    &&& req.description matches Some(d) ==> d@.len() <= MAX_DESCRIPTION_LENGTH
}

impl UpdateStrategyRequest {
    pub fn validate(&self) -> (r: Result<(), AppError>)
        ensures
            r is Ok <==> valid_update_request(*self),
            r matches Err(e) ==> e is ValidationError,
    {
        if let Some(name) = &self.name {
            let n = name.as_str().unicode_len();
            if n < 1 || n > MAX_NAME_LENGTH {
                return Err(
                    AppError::ValidationError("name must have 1 to 100 characters".to_string()),
                );
            }
        }
        if let Some(description) = &self.description {
            if description.as_str().unicode_len() > MAX_DESCRIPTION_LENGTH {
                return Err(
                    AppError::ValidationError(
                        "description must have at most 500 characters".to_string(),
                    ),
                );
            }
        }
        Ok(())
    }
}

/// A strategy after the fields that `req` carries replace its own.
pub open spec fn updated(prev: Strategy, req: UpdateStrategyRequest, now: i64) -> Strategy {
    Strategy {
        name: or_default(req.name, prev.name),
        description: or_default(req.description, prev.description),
        status: or_default(req.status, prev.status),
        symbols: or_default(req.symbols, prev.symbols),
        parameters: match req.parameters {
            Some(raw) => parameters_from(raw),
            None => prev.parameters,
        },
        risk_parameters: or_default(req.risk_parameters, prev.risk_parameters),
        updated_at: now,
        ..prev
    }
}

/// Why a request about strategy `id` by `user` is refused, if it is.
pub open spec fn access_error(stored: Map<u64, Strategy>, user: Seq<char>, id: u64) -> Option<
    AppError,
> {
    if !is_object_id_text(user) {
        Some(AppError::ValidationError(arbitrary()))
    } else if !stored.contains_key(id) {
        Some(AppError::NotFoundError(arbitrary()))
    } else if stored[id].user_id@ != user {
        Some(AppError::AuthorizationError(arbitrary()))
    } else {
        None
    }
}

/// The same kind of error.
pub open spec fn same_kind(a: AppError, b: AppError) -> bool {
    match (a, b) {
        (AppError::ValidationError(_), AppError::ValidationError(_)) => true,
        (AppError::NotFoundError(_), AppError::NotFoundError(_)) => true,
        (AppError::AuthorizationError(_), AppError::AuthorizationError(_)) => true,
        _ => false,
    }
}

/// Whether strategy `id` follows symbol `t` in `index`.
pub open spec fn follows(index: Map<Seq<char>, Set<u64>>, t: Seq<char>, id: u64) -> bool {
    index.contains_key(t) && index[t].contains(id)
}

/// The index follows, for each stored strategy, its symbols when it is
/// active and nothing otherwise; it follows nothing for a strategy that is
/// not stored.
pub open spec fn subscribed_iff_active(
    stored: Map<u64, Strategy>,
    index: Map<Seq<char>, Set<u64>>,
) -> bool {
    forall|t: Seq<char>, id: u64| #[trigger]
        follows(index, t, id) <==> stored.contains_key(id) && stored[id].status
            == StrategyStatus::Active && listed(stored[id].symbols@, t)
}

/// The cache holds only stored, active strategies.
pub open spec fn cached_only_active(stored: Map<u64, Strategy>, cached: Map<u64, Strategy>) -> bool {
    forall|id: u64| #[trigger]
        cached.contains_key(id) ==> stored.contains_key(id) && stored[id].status
            == StrategyStatus::Active
}

/// The symbol changes for the hub when strategy `id` goes from `prev` to
/// `next` on index `ix0`: on activation, subscribe to each of its symbols
/// that had no follower; when it stays active, subscribe to every symbol
/// only the new list has; unsubscribe from each symbol it stops following
/// that it alone followed; each symbol once.
pub open spec fn hub_changes_for(
    ix0: Map<Seq<char>, Set<u64>>,
    prev: Strategy,
    next: Strategy,
    id: u64,
    c: HubChanges,
) -> bool {
    let before = prev.status == StrategyStatus::Active;
    let after = next.status == StrategyStatus::Active;
    &&& texts(c.subscribe@).no_duplicates()
    &&& texts(c.unsubscribe@).no_duplicates()
    &&& forall|t: Seq<char>| #[trigger]
        texts(c.subscribe@).contains(t) <==> after && if before {
            (only_in(next.symbols@, prev.symbols@))(t)
        } else {
            listed(next.symbols@, t) && !ix0.contains_key(t)
        }
    &&& forall|t: Seq<char>| #[trigger]
        texts(c.unsubscribe@).contains(t) <==> before && only_follower(ix0, t, id) && if after {
            (only_in(prev.symbols@, next.symbols@))(t)
        } else {
            listed(prev.symbols@, t)
        }
}

/// Two stores that differ at most in strategy `id`.
pub open spec fn same_except(a: Map<u64, Strategy>, b: Map<u64, Strategy>, id: u64) -> bool {
    a.remove(id) == b.remove(id)
}

proof fn lemma_same_except(a: Map<u64, Strategy>, b: Map<u64, Strategy>, id: u64, other: u64)
    requires
        same_except(a, b, id),
        other != id,
    ensures
        a.contains_key(other) == b.contains_key(other),
        a.contains_key(other) ==> a[other] == b[other],
{
    assert(a.remove(id).contains_key(other) == b.remove(id).contains_key(other));
    if a.contains_key(other) {
        assert(a.remove(id)[other] == b.remove(id)[other]);
    }
}

/// Leaving `Active` (or leaving the store) while the registry stops
/// following the old symbols keeps the index in step with the store.
proof fn lemma_deactivation_in_step(
    st0: Map<u64, Strategy>,
    ix0: Map<Seq<char>, Set<u64>>,
    st: Map<u64, Strategy>,
    id: u64,
)
    requires
        subscribed_iff_active(st0, ix0),
        st0.contains_key(id),
        st0[id].status == StrategyStatus::Active,
        same_except(st, st0, id),
        st.contains_key(id) ==> st[id].status != StrategyStatus::Active,
    ensures
        subscribed_iff_active(st, without_follower(ix0, among(st0[id].symbols@), id)),
{
    let ix = without_follower(ix0, among(st0[id].symbols@), id);
    assert forall|t: Seq<char>, j: u64| #[trigger]
        follows(ix, t, j) <==> st.contains_key(j) && st[j].status == StrategyStatus::Active
            && listed(st[j].symbols@, t) by {
        assert(follows(ix0, t, j) <==> st0.contains_key(j) && st0[j].status
            == StrategyStatus::Active && listed(st0[j].symbols@, t));
        assert(follows(ix0, t, id) <==> listed(st0[id].symbols@, t));
        if j != id {
            lemma_same_except(st, st0, id, j);
            if listed(st0[id].symbols@, t) && ix0.contains_key(t) {
                if only_follower(ix0, t, id) {
                    assert(!ix0[t].remove(id).contains(j));
                }
                assert(ix0[t].remove(id).contains(j) == ix0[t].contains(j));
            }
        }
    }
}

/// Entering `Active` while the registry follows the new symbols keeps the
/// index in step with the store.
proof fn lemma_activation_in_step(
    st0: Map<u64, Strategy>,
    ix0: Map<Seq<char>, Set<u64>>,
    st: Map<u64, Strategy>,
    id: u64,
)
    requires
        subscribed_iff_active(st0, ix0),
        st0.contains_key(id),
        st0[id].status != StrategyStatus::Active,
        same_except(st, st0, id),
        st.contains_key(id),
        st[id].status == StrategyStatus::Active,
    ensures
        subscribed_iff_active(st, with_follower(ix0, among(st[id].symbols@), id)),
{
    let ix = with_follower(ix0, among(st[id].symbols@), id);
    assert forall|t: Seq<char>, j: u64| #[trigger]
        follows(ix, t, j) <==> st.contains_key(j) && st[j].status == StrategyStatus::Active
            && listed(st[j].symbols@, t) by {
        assert(follows(ix0, t, j) <==> st0.contains_key(j) && st0[j].status
            == StrategyStatus::Active && listed(st0[j].symbols@, t));
        assert(!follows(ix0, t, id));
        if j != id {
            lemma_same_except(st, st0, id, j);
        }
    }
}

/// Staying `Active` while the registry moves from the old symbols to the
/// new ones keeps the index in step with the store.
proof fn lemma_move_in_step(
    st0: Map<u64, Strategy>,
    ix0: Map<Seq<char>, Set<u64>>,
    st: Map<u64, Strategy>,
    id: u64,
)
    requires
        subscribed_iff_active(st0, ix0),
        st0.contains_key(id),
        st0[id].status == StrategyStatus::Active,
        same_except(st, st0, id),
        st.contains_key(id),
        st[id].status == StrategyStatus::Active,
    ensures
        subscribed_iff_active(
            st,
            with_follower(
                without_follower(ix0, only_in(st0[id].symbols@, st[id].symbols@), id),
                only_in(st[id].symbols@, st0[id].symbols@),
                id,
            ),
        ),
{
    let old_symbols = st0[id].symbols@;
    let new_symbols = st[id].symbols@;
    let mid = without_follower(ix0, only_in(old_symbols, new_symbols), id);
    let ix = with_follower(mid, only_in(new_symbols, old_symbols), id);
    assert forall|t: Seq<char>, j: u64| #[trigger]
        follows(ix, t, j) <==> st.contains_key(j) && st[j].status == StrategyStatus::Active
            && listed(st[j].symbols@, t) by {
        assert(follows(ix0, t, j) <==> st0.contains_key(j) && st0[j].status
            == StrategyStatus::Active && listed(st0[j].symbols@, t));
        assert(follows(ix0, t, id) <==> listed(old_symbols, t));
        if listed(old_symbols, t) && !listed(new_symbols, t) && ix0.contains_key(t) {
            if only_follower(ix0, t, id) {
                assert(!ix0[t].remove(id).contains(j));
            }
            assert(ix0[t].remove(id).contains(j) == (ix0[t].contains(j) && j != id));
        }
        if j != id {
            lemma_same_except(st, st0, id, j);
        }
    }
}

/// A change that leaves strategy `id` inactive, and the index as it was,
/// keeps the index in step with the store.
proof fn lemma_inactive_in_step(
    st0: Map<u64, Strategy>,
    ix0: Map<Seq<char>, Set<u64>>,
    st: Map<u64, Strategy>,
    id: u64,
)
    requires
        subscribed_iff_active(st0, ix0),
        st0.contains_key(id) ==> st0[id].status != StrategyStatus::Active,
        same_except(st, st0, id),
        st.contains_key(id) ==> st[id].status != StrategyStatus::Active,
    ensures
        subscribed_iff_active(st, ix0),
{
    assert forall|t: Seq<char>, j: u64| #[trigger]
        follows(ix0, t, j) <==> st.contains_key(j) && st[j].status == StrategyStatus::Active
            && listed(st[j].symbols@, t) by {
        assert(follows(ix0, t, j) <==> st0.contains_key(j) && st0[j].status
            == StrategyStatus::Active && listed(st0[j].symbols@, t));
        if j != id {
            lemma_same_except(st, st0, id, j);
        }
    }
}

/// The strategy store together with the registry of active strategies.
#[derive(Debug)]
pub struct StrategyService {
    repository: StrategyRepository,
    registry: StrategyRegistry,
}

impl StrategyService {
    pub closed spec fn wf(&self) -> bool {
        &&& self.repository.wf()
        &&& self.registry.wf()
        &&& subscribed_iff_active(self.repository.stored(), self.registry.index())
        &&& cached_only_active(self.repository.stored(), self.registry.cached())
    }

    /// A strategy follows a symbol exactly when it is stored, active, and
    /// lists the symbol.
    pub proof fn lemma_subscribed_iff_active(&self)
        requires
            self.wf(),
        ensures
            subscribed_iff_active(self.stored(), self.index()),
            cached_only_active(self.stored(), self.cached()),
    {
    }

    pub closed spec fn stored(&self) -> Map<u64, Strategy> {
        self.repository.stored()
    }

    pub closed spec fn records(&self) -> Seq<Strategy> {
        self.repository.records()
    }

    /// The id the next created strategy gets.
    pub closed spec fn fresh_id(&self) -> u64 {
        self.repository.fresh_id()
    }

    pub closed spec fn index(&self) -> Map<Seq<char>, Set<u64>> {
        self.registry.index()
    }

    pub closed spec fn cached(&self) -> Map<u64, Strategy> {
        self.registry.cached()
    }

    pub fn new() -> (r: StrategyService)
        ensures
            r.wf(),
            r.stored() == Map::<u64, Strategy>::empty(),
            r.index() == Map::<Seq<char>, Set<u64>>::empty(),
    {
        StrategyService { repository: StrategyRepository::new(), registry: StrategyRegistry::new() }
    }

    /// A service over strategies already stored, following every active
    /// one, as at start-up. Also returns the followed symbols, each once:
    /// the ones to subscribe to.
    pub fn from_repository(repository: StrategyRepository) -> (r: (StrategyService, Vec<String>))
        requires
            repository.wf(),
        ensures
            r.0.wf(),
            r.0.stored() == repository.stored(),
            r.0.records() == repository.records(),
            texts(r.1@).no_duplicates(),
            forall|t: Seq<char>| #[trigger] texts(r.1@).contains(t) <==> r.0.index().contains_key(t),
    {
        let (registry, subscribe) = Self::load_active_strategies(&repository);
        (StrategyService { repository, registry }, subscribe)
    }

    /// A registry that follows every active strategy of `repository`, and
    /// the symbols it follows, each once.
    fn load_active_strategies(repository: &StrategyRepository) -> (r: (StrategyRegistry, Vec<String>))
        requires
            repository.wf(),
        ensures
            r.0.wf(),
            subscribed_iff_active(repository.stored(), r.0.index()),
            cached_only_active(repository.stored(), r.0.cached()),
            texts(r.1@).no_duplicates(),
            forall|t: Seq<char>| #[trigger] texts(r.1@).contains(t) <==> r.0.index().contains_key(t),
    {
        let active = repository.get_active_strategies();
        let ghost expected = repository.records().filter(is_active());
        let mut registry = StrategyRegistry::new();
        let mut subscribe: Vec<String> = Vec::new();
        let mut i: usize = 0;
        while i < active.len()
            invariant
                registry.wf(),
                i <= active.len(),
                copies(active@, expected),
                forall|t: Seq<char>, id: u64| #[trigger]
                    follows(registry.index(), t, id) <==> exists|k: int|
                        0 <= k < i && active@[k].id == id && #[trigger] listed(active@[k].symbols@, t),
                texts(subscribe@).no_duplicates(),
                forall|t: Seq<char>| #[trigger]
                    texts(subscribe@).contains(t) <==> registry.index().contains_key(t),
                forall|id: u64| #[trigger]
                    registry.cached().contains_key(id) ==> exists|k: int|
                        0 <= k < i && (#[trigger] active@[k]).id == id,
            decreases active.len() - i,
        {
            let ghost before = registry.index();
            let ghost cached_before = registry.cached();
            let ghost listed_before = subscribe@;
            let next = active[i].duplicate();
            let ghost next_id = next.id;
            let ghost next_symbols = next.symbols@;
            let added = registry.activate(next);
            let ghost added_view = added@;
            let ghost after = registry.index();
            proof {
                let a = texts(listed_before);
                let b = texts(added_view);
                assert forall|p: int, q: int|
                    0 <= p < a.len() + b.len() && 0 <= q < a.len() + b.len() && p != q implies (a
                    + b)[p] != (a + b)[q] by {
                    if p < a.len() && q >= a.len() {
                        assert(b.contains((a + b)[q]));
                        assert(a.contains((a + b)[p]));
                    } else if p >= a.len() && q < a.len() {
                        assert(b.contains((a + b)[p]));
                        assert(a.contains((a + b)[q]));
                    } else if p >= a.len() {
                        assert(b[p - a.len()] != b[q - a.len()]);
                    } else {
                        assert(a[p] != a[q]);
                    }
                }
                assert forall|x: Seq<char>| #[trigger] (a + b).contains(x) <==> a.contains(x)
                    || b.contains(x) by {
                    if (a + b).contains(x) {
                        let j = choose|j: int| 0 <= j < (a + b).len() && (a + b)[j] == x;
                        if j < a.len() {
                            assert(a[j] == x);
                        } else {
                            assert(b[j - a.len()] == x);
                        }
                    }
                    if a.contains(x) {
                        let j = choose|j: int| 0 <= j < a.len() && a[j] == x;
                        assert((a + b)[j] == x);
                    }
                    if b.contains(x) {
                        let j = choose|j: int| 0 <= j < b.len() && b[j] == x;
                        assert((a + b)[a.len() + j] == x);
                    }
                }
                assert(next_id == active@[i as int].id && next_symbols == active@[i as int].symbols@);
                assert forall|id: u64| #[trigger] registry.cached().contains_key(id) implies exists|k: int|
                    0 <= k < i + 1 && (#[trigger] active@[k]).id == id by {
                    if id == next_id {
                        assert(active@[i as int].id == id);
                    } else {
                        assert(cached_before.contains_key(id));
                        let k = choose|k: int| 0 <= k < i && (#[trigger] active@[k]).id == id;
                        assert(active@[k].id == id);
                    }
                }
                assert forall|t: Seq<char>, id: u64| #[trigger]
                    follows(after, t, id) <==> exists|k: int|
                        0 <= k < i + 1 && active@[k].id == id && #[trigger] listed(
                            active@[k].symbols@,
                            t,
                        ) by {
                    assert(follows(before, t, id) <==> exists|k: int|
                        0 <= k < i && active@[k].id == id && #[trigger] listed(active@[k].symbols@, t));
                    if follows(after, t, id) && !follows(before, t, id) {
                        assert(id == next_id && listed(next_symbols, t));
                        assert(listed(active@[i as int].symbols@, t));
                    }
                    if exists|k: int|
                        0 <= k < i + 1 && active@[k].id == id && #[trigger] listed(
                            active@[k].symbols@,
                            t,
                        ) {
                        let k = choose|k: int|
                            0 <= k < i + 1 && active@[k].id == id && #[trigger] listed(
                                active@[k].symbols@,
                                t,
                            );
                        if k < i {
                            assert(follows(before, t, id));
                        }
                    }
                }
            }
            let mut added = added;
            subscribe.append(&mut added);
            proof {
                assert(subscribe@ == listed_before + added_view);
                assert(texts(subscribe@) =~= texts(listed_before) + texts(added_view));
            }
            i = i + 1;
        }
        proof {
            let st = repository.stored();
            let recs = repository.records();
            let ix = registry.index();
            assert forall|id: u64| #[trigger] registry.cached().contains_key(id) implies st.contains_key(id)
                && st[id].status == StrategyStatus::Active by {
                let k = choose|k: int| 0 <= k < active.len() && (#[trigger] active@[k]).id == id;
                assert(active@[k].same_as(&expected[k]));
                recs.lemma_filter_pred(is_active(), k);
                assert(expected.contains(expected[k]));
                recs.lemma_filter_contains_rev(is_active(), expected[k]);
                let j = choose|j: int| 0 <= j < recs.len() && recs[j] == expected[k];
                lemma_keyed_at(recs, strategy_key(), strategy_itself(), j);
            }
            assert forall|t: Seq<char>, id: u64| #[trigger]
                follows(ix, t, id) <==> st.contains_key(id) && st[id].status == StrategyStatus::Active
                    && listed(st[id].symbols@, t) by {
                if follows(ix, t, id) {
                    let k = choose|k: int|
                        0 <= k < active.len() && active@[k].id == id && #[trigger] listed(
                            active@[k].symbols@,
                            t,
                        );
                    assert(active@[k].same_as(&expected[k]));
                    recs.lemma_filter_pred(is_active(), k);
                    assert(expected.contains(expected[k]));
                    recs.lemma_filter_contains_rev(is_active(), expected[k]);
                    let j = choose|j: int| 0 <= j < recs.len() && recs[j] == expected[k];
                    lemma_keyed_at(recs, strategy_key(), strategy_itself(), j);
                }
                if st.contains_key(id) && st[id].status == StrategyStatus::Active && listed(
                    st[id].symbols@,
                    t,
                ) {
                    let j = choose|j: int|
                        0 <= j < recs.len() && (strategy_key())(#[trigger] recs[j]) == id;
                    lemma_keyed_at(recs, strategy_key(), strategy_itself(), j);
                    recs.lemma_filter_contains(is_active(), j);
                    let k = choose|k: int| 0 <= k < expected.len() && expected[k] == recs[j];
                    assert(active@[k].same_as(&expected[k]));
                    assert(listed(active@[k].symbols@, t));
                }
            }
        }
        (registry, subscribe)
    }

    pub fn registry(&self) -> (r: &StrategyRegistry)
        ensures
            r.index() == self.index(),
            r.cached() == self.cached(),
            self.wf() ==> r.wf(),
    {
        &self.registry
    }

    pub fn repository(&self) -> (r: &StrategyRepository)
        ensures
            r.stored() == self.stored(),
            self.wf() ==> r.wf(),
    {
        &self.repository
    }

    /// Stores a new strategy of `user_id`; it starts paused.
    pub fn create_strategy(&mut self, user_id: &String, req: CreateStrategyRequest, now: i64) -> (r:
        Result<Strategy, AppError>)
        requires
            old(self).wf(),
        ensures
            final(self).wf(),
            final(self).index() == old(self).index(),
            !is_object_id_text(user_id@) || !valid_create_request(req) ==> (r matches Err(e)
                && e is ValidationError) && final(self).stored() == old(self).stored(),
            is_object_id_text(user_id@) && valid_create_request(req) ==> (r is Ok <==> old(
                self,
            ).fresh_id() < u64::MAX),
            r matches Ok(s) ==> {
                &&& s.id == old(self).fresh_id()
                &&& is_object_id_text(user_id@) && valid_create_request(req)
                &&& final(self).stored() == old(self).stored().insert(s.id, final(self).stored()[s.id])
                &&& !old(self).stored().contains_key(s.id)
                &&& final(self).stored()[s.id].same_as(&s)
                &&& s.user_id@ == user_id@
                &&& s.name == req.name
                &&& s.description == req.description
                &&& s.strategy_type == req.strategy_type
                &&& s.status == StrategyStatus::Paused
                &&& s.symbols@ == req.symbols@
                &&& s.parameters == parameters_from(req.parameters)
                &&& s.risk_parameters == req.risk_parameters
                &&& s.created_at == now && s.updated_at == now
                &&& s.last_executed_at is None
            },
    {
        validate_object_id(user_id)?;
        req.validate()?;
        let strategy = Strategy {
            id: 0,
            user_id: user_id.clone(),
            name: req.name,
            description: req.description,
            strategy_type: req.strategy_type,
            status: StrategyStatus::Paused,
            symbols: req.symbols,
            parameters: StrategyParameters::from_raw(&req.parameters),
            risk_parameters: req.risk_parameters,
            created_at: now,
            updated_at: now,
            last_executed_at: None,
        };
        let ghost before = self.stored();
        let copy = strategy.duplicate();
        let id = self.repository.create_strategy(strategy)?;
        let mut created = copy;
        created.id = id;
        proof {
            assert(!before.contains_key(id)) by {
                if before.contains_key(id) {
                    let k = choose|k: int|
                        0 <= k < old(self).repository.strategies.len() && (strategy_key())(
                            #[trigger] old(self).repository.strategies@[k],
                        ) == id;
                    assert(old(self).repository.strategies[k].id < old(self).repository.next_id);
                }
            }
            assert(self.stored() =~= before.insert(id, self.stored()[id]));
        }
        Ok(created)
    }

    /// The strategy `strategy_id`, if it exists and belongs to `user_id`.
    pub fn get_strategy(&self, user_id: &String, strategy_id: u64) -> (r: Result<Strategy, AppError>)
        requires
            self.wf(),
        ensures
            access_error(self.stored(), user_id@, strategy_id) matches Some(e) ==> (r matches Err(
                f,
            ) && same_kind(e, f)),
            access_error(self.stored(), user_id@, strategy_id) is None ==> (r matches Ok(s)
                && s.same_as(&self.stored()[strategy_id])),
    {
        validate_object_id(user_id)?;
        match self.repository.get_strategy_by_id(strategy_id) {
            None => Err(AppError::NotFoundError("Strategy not found".to_string())),
            Some(s) => {
                if s.user_id == *user_id {
                    Ok(s)
                } else {
                    Err(AppError::AuthorizationError("You don't own this strategy".to_string()))
                }
            },
        }
    }

    /// The strategies of `user_id`, in creation order.
    pub fn get_user_strategies(&self, user_id: &String) -> (r: Vec<Strategy>)
        ensures
            copies(r@, self.records().filter(owned_by(user_id@))),
    {
        self.repository.get_strategies_by_user_id(user_id)
    }

    /// Applies `req` to strategy `strategy_id` of `user_id` and brings the
    /// registry in step: leaving `Active` stops following the old symbols,
    /// entering `Active` follows the new ones, and staying `Active` moves
    /// from the old symbols to the new ones and refreshes the cache.
    pub fn update_strategy(
        &mut self,
        user_id: &String,
        strategy_id: u64,
        req: UpdateStrategyRequest,
        now: i64,
    ) -> (r: Result<(Strategy, HubChanges), AppError>)
        requires
            old(self).wf(),
        ensures
            final(self).wf(),
            access_error(old(self).stored(), user_id@, strategy_id) matches Some(e) ==> (r matches Err(
                f,
            ) && same_kind(e, f)) && *final(self) == *old(self),
            access_error(old(self).stored(), user_id@, strategy_id) is None && !valid_update_request(
                req,
            ) ==> (r matches Err(e) && e is ValidationError) && *final(self) == *old(self),
            access_error(old(self).stored(), user_id@, strategy_id) is None && valid_update_request(
                req,
            ) ==> r is Ok,
            r matches Ok((s, changes)) ==> {
                let prev = old(self).stored()[strategy_id];
                let next = updated(prev, req, now);
                let before_active = prev.status == StrategyStatus::Active;
                let after_active = next.status == StrategyStatus::Active;
                &&& s.same_as(&next)
                &&& hub_changes_for(old(self).index(), prev, next, strategy_id, changes)
                &&& final(self).stored().contains_key(strategy_id)
                &&& final(self).stored()[strategy_id].same_as(&next)
                &&& final(self).stored().remove(strategy_id) == old(self).stored().remove(strategy_id)
                &&& before_active && !after_active ==> final(self).index() == without_follower(
                    old(self).index(),
                    among(prev.symbols@),
                    strategy_id,
                ) && final(self).cached() == old(self).cached().remove(strategy_id)
                &&& !before_active && after_active ==> final(self).index() == with_follower(
                    old(self).index(),
                    among(next.symbols@),
                    strategy_id,
                ) && final(self).cached().contains_key(strategy_id) && final(self).cached()[strategy_id].same_as(
                    &next,
                ) && final(self).cached().remove(strategy_id) == old(self).cached().remove(strategy_id)
                &&& before_active && after_active ==> final(self).index() == with_follower(
                    without_follower(
                        old(self).index(),
                        only_in(prev.symbols@, next.symbols@),
                        strategy_id,
                    ),
                    only_in(next.symbols@, prev.symbols@),
                    strategy_id,
                ) && final(self).cached().contains_key(strategy_id) && final(self).cached()[strategy_id].same_as(
                    &next,
                ) && final(self).cached().remove(strategy_id) == old(self).cached().remove(strategy_id)
                &&& !before_active && !after_active ==> final(self).index() == old(self).index() && final(self).cached()
                    == old(self).cached()
            },
    {
        validate_object_id(user_id)?;
        let mut strategy = match self.repository.get_strategy_by_id(strategy_id) {
            None => {
                return Err(AppError::NotFoundError("Strategy not found".to_string()));
            },
            Some(s) => s,
        };
        if strategy.user_id != *user_id {
            return Err(AppError::AuthorizationError("You don't own this strategy".to_string()));
        }
        req.validate()?;
        let ghost prev = self.stored()[strategy_id];
        let old_status = strategy.status;
        let old_symbols = copy_strings(&strategy.symbols);
        if let Some(name) = req.name {
            strategy.name = name;
        }
        if let Some(description) = req.description {
            strategy.description = description;
        }
        if let Some(symbols) = req.symbols {
            strategy.symbols = symbols;
        }
        if let Some(raw) = req.parameters {
            strategy.parameters = StrategyParameters::from_raw(&raw);
        }
        if let Some(risk) = req.risk_parameters {
            strategy.risk_parameters = risk;
        }
        if let Some(status) = req.status {
            strategy.status = status;
        }
        strategy.updated_at = now;
        let ghost next = updated(prev, req, now);
        assert(strategy.same_as(&next));
        let result = strategy.duplicate();
        let for_registry = strategy.duplicate();
        let stored_copy = strategy.duplicate();
        let saved = self.repository.update_strategy(strategy);
        proof {
            assert(saved is Ok);
            assert(self.stored().remove(strategy_id) =~= old(self).stored().remove(strategy_id));
            assert(old_symbols@ == prev.symbols@);
        }
        let was_active = old_status.is_active();
        let is_active = for_registry.status.is_active();
        let changes = if was_active != is_active {
            self.registry.update_strategy_status(for_registry, old_status, &old_symbols)
        } else if is_active {
            self.registry.reconcile_symbols(for_registry, &old_symbols)
        } else {
            HubChanges { subscribe: Vec::new(), unsubscribe: Vec::new() }
        };
        proof {
            let st = self.stored();
            let st0 = old(self).stored();
            assert(same_except(st, st0, strategy_id)) by {
                assert(st.remove(strategy_id) =~= st0.remove(strategy_id));
            }
            let active_after = st[strategy_id].status == StrategyStatus::Active;
            if was_active && !is_active {
                lemma_deactivation_in_step(st0, old(self).index(), st, strategy_id);
            } else if !was_active && is_active {
                lemma_activation_in_step(st0, old(self).index(), st, strategy_id);
            } else if was_active {
                lemma_move_in_step(st0, old(self).index(), st, strategy_id);
            } else {
                lemma_inactive_in_step(st0, old(self).index(), st, strategy_id);
            }
        }
        Ok((result, changes))
    }

    /// Notes that strategy `strategy_id` was evaluated at `now`, in the
    /// store and in the cache.
    pub fn record_execution(&mut self, strategy_id: u64, now: i64) -> (r: Result<(), AppError>)
        requires
            old(self).wf(),
        ensures
            final(self).wf(),
            final(self).index() == old(self).index(),
            !old(self).stored().contains_key(strategy_id) ==> (r matches Err(e) && e is NotFoundError)
                && *final(self) == *old(self),
            old(self).stored().contains_key(strategy_id) ==> {
                let next = Strategy {
                    last_executed_at: Some(now),
                    ..old(self).stored()[strategy_id]
                };
                &&& r is Ok
                &&& final(self).stored().contains_key(strategy_id)
                &&& final(self).stored()[strategy_id].same_as(&next)
                &&& final(self).stored().remove(strategy_id) == old(self).stored().remove(strategy_id)
                &&& final(self).cached().contains_key(strategy_id) == old(self).cached().contains_key(
                    strategy_id,
                )
                &&& final(self).cached().contains_key(strategy_id) ==> final(self).cached()[strategy_id].same_as(
                    &next,
                )
                &&& final(self).cached().remove(strategy_id) == old(self).cached().remove(strategy_id)
            },
    {
        let mut strategy = match self.repository.get_strategy_by_id(strategy_id) {
            None => {
                return Err(AppError::NotFoundError("Strategy not found".to_string()));
            },
            Some(s) => s,
        };
        strategy.last_executed_at = Some(now);
        let cached = strategy.duplicate();
        let saved = self.repository.update_strategy(strategy);
        proof {
            assert(saved is Ok);
            assert(self.stored().remove(strategy_id) =~= old(self).stored().remove(strategy_id));
        }
        self.registry.refresh(cached);
        proof {
            assert(self.cached().remove(strategy_id) =~= old(self).cached().remove(strategy_id));
        }
        Ok(())
    }

    /// Deletes strategy `strategy_id` of `user_id`, and stops following its
    /// symbols if it was active.
    pub fn delete_strategy(&mut self, user_id: &String, strategy_id: u64) -> (r: Result<
        HubChanges,
        AppError,
    >)
        requires
            old(self).wf(),
        ensures
            final(self).wf(),
            access_error(old(self).stored(), user_id@, strategy_id) matches Some(e) ==> (r matches Err(
                f,
            ) && same_kind(e, f)) && *final(self) == *old(self),
            access_error(old(self).stored(), user_id@, strategy_id) is None ==> {
                let prev = old(self).stored()[strategy_id];
                &&& r is Ok
                &&& r->Ok_0.subscribe@.len() == 0
                &&& texts(r->Ok_0.unsubscribe@).no_duplicates()
                &&& forall|t: Seq<char>| #[trigger]
                    texts(r->Ok_0.unsubscribe@).contains(t) <==> prev.status == StrategyStatus::Active
                        && listed(prev.symbols@, t) && only_follower(old(self).index(), t, strategy_id)
                &&& final(self).stored() == old(self).stored().remove(strategy_id)
                &&& prev.status == StrategyStatus::Active ==> final(self).index() == without_follower(
                    old(self).index(),
                    among(prev.symbols@),
                    strategy_id,
                ) && final(self).cached() == old(self).cached().remove(strategy_id)
                &&& prev.status != StrategyStatus::Active ==> final(self).index() == old(self).index()
                    && final(self).cached() == old(self).cached()
            },
    {
        validate_object_id(user_id)?;
        let strategy = match self.repository.get_strategy_by_id(strategy_id) {
            None => {
                return Err(AppError::NotFoundError("Strategy not found".to_string()));
            },
            Some(s) => s,
        };
        if strategy.user_id != *user_id {
            return Err(AppError::AuthorizationError("You don't own this strategy".to_string()));
        }
        self.repository.delete_strategy(strategy_id);
        proof {
            assert(same_except(self.stored(), old(self).stored(), strategy_id)) by {
                assert(self.stored().remove(strategy_id) =~= old(self).stored().remove(strategy_id));
            }
        }
        if strategy.status.is_active() {
            let unsubscribe = self.registry.deactivate(strategy_id, &strategy.symbols);
            proof {
                assert(without_follower(
                    old(self).index(),
                    among(strategy.symbols@),
                    strategy_id,
                ) =~= without_follower(
                    old(self).index(),
                    |t: Seq<char>| listed(strategy.symbols@, t),
                    strategy_id,
                ));
                lemma_deactivation_in_step(old(self).stored(), old(self).index(), self.stored(), strategy_id);
            }
            Ok(HubChanges { subscribe: Vec::new(), unsubscribe })
        } else {
            proof {
                lemma_inactive_in_step(old(self).stored(), old(self).index(), self.stored(), strategy_id);
            }
            Ok(HubChanges { subscribe: Vec::new(), unsubscribe: Vec::new() })
        }
    }
}

} // verus!
