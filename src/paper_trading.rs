//! The accounts of all owners, each reached by its owner's object id.
//! Every operation on one owner's account goes through `&mut self`, so the
//! orders of one owner apply one after the other.

use vstd::prelude::*;

use crate::error::AppError;
use crate::ids::{is_object_id_text, validate_object_id};
use crate::keyed::{keyed_map, lemma_keyed_at, lemma_keyed_push, lemma_keyed_update, unique_keys};
use crate::ledger::{
    fill_recorded, order_outcome, stats_fit, stats_of, summary_fits, summary_of, BalanceSummary,
    Holding, Order, PaperAccount, Position, TradingStatsResponse,
};
use crate::ledger::I128_MAX;
use crate::model::OrderSide;

verus! {

pub open spec fn account_owner() -> spec_fn(PaperAccount) -> Seq<char> {
    |a: PaperAccount| a.owner()
}

pub open spec fn account_itself() -> spec_fn(PaperAccount) -> PaperAccount {
    |a: PaperAccount| a
}

/// Paper trading accounts by owner.
#[derive(Debug)]
pub struct PaperTradingRepository {
    accounts: Vec<PaperAccount>,
}

impl PaperTradingRepository {
    pub closed spec fn accounts(&self) -> Map<Seq<char>, PaperAccount> {
        keyed_map(self.accounts@, account_owner(), account_itself())
    }

    pub closed spec fn wf(&self) -> bool {
        &&& unique_keys(self.accounts@, account_owner())
        &&& forall|i: int| 0 <= i < self.accounts.len() ==> (#[trigger] self.accounts[i]).wf()
    }

    /// Every account in the repository is well formed.
    pub proof fn lemma_accounts_wf(&self)
        requires
            self.wf(),
        ensures
            forall|u: Seq<char>| #[trigger] self.accounts().contains_key(u) ==> self.accounts()[u].wf()
                && self.accounts()[u].owner() == u,
    {
        assert forall|u: Seq<char>| #[trigger] self.accounts().contains_key(u) implies self.accounts()[u].wf()
            && self.accounts()[u].owner() == u by {
            let i = choose|i: int|
                0 <= i < self.accounts.len() && (account_owner())(#[trigger] self.accounts@[i]) == u;
            lemma_keyed_at(self.accounts@, account_owner(), account_itself(), i);
        }
    }

    pub fn new() -> (r: PaperTradingRepository)
        ensures
            r.wf(),
            r.accounts() == Map::<Seq<char>, PaperAccount>::empty(),
    {
        let r = PaperTradingRepository { accounts: Vec::new() };
        assert(r.accounts() =~= Map::<Seq<char>, PaperAccount>::empty());
        r
    }

    fn find(&self, user_id: &String) -> (r: Option<usize>)
        requires
            self.wf(),
        ensures
            r matches Some(i) ==> i < self.accounts.len() && self.accounts()
                .contains_key(user_id@) && self.accounts()[user_id@] == self.accounts[i as int],
            r is None ==> !self.accounts().contains_key(user_id@),
    {
        let mut i: usize = 0;
        while i < self.accounts.len()
            invariant
                self.wf(),
                i <= self.accounts.len(),
                forall|k: int| 0 <= k < i ==> #[trigger] self.accounts[k].owner() != user_id@,
            decreases self.accounts.len() - i,
        {
            if *self.accounts[i].user_id() == *user_id {
                proof {
                    lemma_keyed_at(self.accounts@, account_owner(), account_itself(), i as int);
                }
                return Some(i);
            }
            i = i + 1;
        }
        None
    }

    /// Opens (or reopens, from scratch) the account of `user_id` with
    /// `initial_balance` in cash.
    pub fn enable_paper_trading(&mut self, user_id: &String, initial_balance: u64) -> (r: Result<
        (),
        AppError,
    >)
        requires
            old(self).wf(),
        ensures
            final(self).wf(),
            !is_object_id_text(user_id@) ==> (r matches Err(e) && e is ValidationError) && *final(self) == *old(self),
            is_object_id_text(user_id@) ==> {
                let a = final(self).accounts()[user_id@];
                &&& r is Ok
                &&& final(self).accounts() == old(self).accounts().insert(user_id@, a)
                &&& a.cash() == initial_balance
                &&& a.funding() == initial_balance
                &&& a.holdings() == Map::<Seq<char>, Holding>::empty()
                &&& a.order_log().len() == 0
            },
    {
        validate_object_id(user_id)?;
        let fresh = PaperAccount::new(user_id.clone(), initial_balance);
        let ghost before = self.accounts@;
        let ghost written = fresh;
        match self.find(user_id) {
            Some(i) => {
                self.accounts[i] = fresh;
                proof {
                    lemma_keyed_at(before, account_owner(), account_itself(), i as int);
                    assert(self.accounts@ == before.update(i as int, written));
                    lemma_keyed_update(before, account_owner(), account_itself(), i as int, written);
                    assert forall|k: int| 0 <= k < self.accounts.len() implies (
                    #[trigger] self.accounts[k]).wf() by {
                        if k != i {
                            assert(self.accounts[k] == before[k]);
                        }
                    }
                }
            },
            None => {
                self.accounts.push(fresh);
                proof {
                    lemma_keyed_push(before, account_owner(), account_itself(), written);
                    assert forall|k: int| 0 <= k < self.accounts.len() implies (
                    #[trigger] self.accounts[k]).wf() by {
                        if k < before.len() {
                            assert(self.accounts[k] == before[k]);
                        }
                    }
                }
            },
        }
        Ok(())
    }

    /// The account of `user_id`.
    pub fn get_account(&self, user_id: &String) -> (r: Result<&PaperAccount, AppError>)
        requires
            self.wf(),
        ensures
            !is_object_id_text(user_id@) ==> (r matches Err(e) && e is ValidationError),
            is_object_id_text(user_id@) && !self.accounts().contains_key(user_id@) ==> (r matches Err(e) && e is NotFoundError),
            is_object_id_text(user_id@) && self.accounts().contains_key(user_id@) ==> (r matches Ok(a)
                && *a == self.accounts()[user_id@]),
    {
        validate_object_id(user_id)?;
        match self.find(user_id) {
            None => Err(AppError::NotFoundError("User not found".to_string())),
            Some(i) => Ok(&self.accounts[i]),
        }
    }

    /// The cash balance of `user_id`.
    pub fn get_user_balance(&self, user_id: &String) -> (r: Result<u64, AppError>)
        requires
            self.wf(),
        ensures
            !is_object_id_text(user_id@) ==> (r matches Err(e) && e is ValidationError),
            is_object_id_text(user_id@) && !self.accounts().contains_key(user_id@) ==> (r matches Err(e) && e is NotFoundError),
            is_object_id_text(user_id@) && self.accounts().contains_key(user_id@) ==> r == Ok::<
                u64,
                AppError,
            >(self.accounts()[user_id@].cash() as u64),
    {
        let account = self.get_account(user_id)?;
        Ok(account.balance())
    }

    /// Places a market order of `user_id` filled at `price`; see
    /// `PaperAccount::place_order`.
    pub fn create_order(
        &mut self,
        user_id: &String,
        symbol: &String,
        side: OrderSide,
        quantity: u64,
        price: u64,
        now: i64,
    ) -> (r: Result<Order, AppError>)
        requires
            old(self).wf(),
        ensures
            final(self).wf(),
            !is_object_id_text(user_id@) ==> (r matches Err(e) && e is ValidationError) && *final(self) == *old(self),
            is_object_id_text(user_id@) && !old(self).accounts().contains_key(user_id@) ==> (r matches Err(
                e,
            ) && e is NotFoundError) && *final(self) == *old(self),
            is_object_id_text(user_id@) && old(self).accounts().contains_key(user_id@) ==> {
                let a = old(self).accounts()[user_id@];
                let b = final(self).accounts()[user_id@];
                &&& final(self).accounts() == old(self).accounts().insert(user_id@, b)
                &&& match order_outcome(a.book(), symbol@, side, quantity as int, price as int) {
                    Err(e) => r == Err::<Order, AppError>(e) && b == a,
                    Ok(book) => r is Ok && b.book() == book && fill_recorded(
                        a,
                        b,
                        *symbol,
                        side,
                        quantity,
                        price,
                        now,
                        r->Ok_0,
                    ),
                }
            },
    {
        validate_object_id(user_id)?;
        let i = match self.find(user_id) {
            None => {
                return Err(AppError::NotFoundError("User not found".to_string()));
            },
            Some(i) => i,
        };
        let ghost before = self.accounts@;
        proof {
            assert(before[i as int].wf());
        }
        let r = self.accounts[i].place_order(symbol, side, quantity, price, now);
        proof {
            let written = self.accounts@[i as int];
            assert(self.accounts@ == before.update(i as int, written));
            lemma_keyed_at(before, account_owner(), account_itself(), i as int);
            lemma_keyed_update(before, account_owner(), account_itself(), i as int, written);
            assert forall|k: int| 0 <= k < self.accounts.len() implies (#[trigger] self.accounts[k]).wf() by {
                if k != i {
                    assert(self.accounts[k] == before[k]);
                }
            }
        }
        r
    }

    /// The open positions of `user_id`.
    pub fn get_positions_by_user_id(&self, user_id: &String) -> (r: Result<&Vec<Position>, AppError>)
        requires
            self.wf(),
        ensures
            !is_object_id_text(user_id@) ==> (r matches Err(e) && e is ValidationError),
            is_object_id_text(user_id@) && !self.accounts().contains_key(user_id@) ==> (r matches Err(e)
                && e is NotFoundError),
            is_object_id_text(user_id@) && self.accounts().contains_key(user_id@) ==> (r matches Ok(v)
                && v@ == self.accounts()[user_id@].position_list()),
    {
        let account = self.get_account(user_id)?;
        Ok(account.positions())
    }

    /// The filled orders of `user_id`, oldest first.
    pub fn get_orders_by_user_id(&self, user_id: &String) -> (r: Result<&Vec<Order>, AppError>)
        requires
            self.wf(),
        ensures
            !is_object_id_text(user_id@) ==> (r matches Err(e) && e is ValidationError),
            is_object_id_text(user_id@) && !self.accounts().contains_key(user_id@) ==> (r matches Err(e)
                && e is NotFoundError),
            is_object_id_text(user_id@) && self.accounts().contains_key(user_id@) ==> (r matches Ok(v)
                && v@ == self.accounts()[user_id@].order_log()),
    {
        let account = self.get_account(user_id)?;
        Ok(account.orders())
    }

    /// The balance summary of `user_id` at `prices`, one per open position
    /// in order; see `PaperAccount::balance_summary`.
    pub fn get_user_balance_details(&self, user_id: &String, prices: &Vec<u64>) -> (r: Result<
        BalanceSummary,
        AppError,
    >)
        requires
            self.wf(),
        ensures
            !is_object_id_text(user_id@) ==> (r matches Err(e) && e is ValidationError),
            is_object_id_text(user_id@) && !self.accounts().contains_key(user_id@) ==> (r matches Err(e)
                && e is NotFoundError),
            is_object_id_text(user_id@) && self.accounts().contains_key(user_id@) ==> {
                let a = self.accounts()[user_id@];
                &&& prices.len() != a.position_list().len() ==> (r matches Err(e)
                    && e is ValidationError)
                &&& prices.len() == a.position_list().len() && !summary_fits(a, prices@) ==> r
                    == Err::<BalanceSummary, AppError>(AppError::OutOfRange)
                &&& prices.len() == a.position_list().len() && summary_fits(a, prices@) ==> (r matches Ok(
                    s,
                ) && summary_of(a, prices@, s))
            },
    {
        let account = self.get_account(user_id)?;
        if prices.len() != account.positions().len() {
            return Err(AppError::ValidationError("one price per position is needed".to_string()));
        }
        account.balance_summary(prices)
    }

    /// The trading statistics of `user_id` at `prices`, one per open
    /// position in order; see `PaperAccount::trading_stats`.
    pub fn get_trading_stats(&self, user_id: &String, prices: &Vec<u64>) -> (r: Result<
        TradingStatsResponse,
        AppError,
    >)
        requires
            self.wf(),
        ensures
            !is_object_id_text(user_id@) ==> (r matches Err(e) && e is ValidationError),
            is_object_id_text(user_id@) && !self.accounts().contains_key(user_id@) ==> (r matches Err(e)
                && e is NotFoundError),
            is_object_id_text(user_id@) && self.accounts().contains_key(user_id@) ==> {
                let a = self.accounts()[user_id@];
                &&& prices.len() != a.position_list().len() ==> (r matches Err(e)
                    && e is ValidationError)
                &&& prices.len() == a.position_list().len() && !stats_fit(a, prices@) ==> r
                    == Err::<TradingStatsResponse, AppError>(AppError::OutOfRange)
                &&& prices.len() == a.position_list().len() && stats_fit(a, prices@) ==> (r matches Ok(
                    s,
                ) && stats_of(a, prices@, s))
            },
    {
        let account = self.get_account(user_id)?;
        if prices.len() != account.positions().len() {
            return Err(AppError::ValidationError("one price per position is needed".to_string()));
        }
        account.trading_stats(prices)
    }

    /// Refreshes position `index` of `user_id` against a fresh `price`; see
    /// `PaperAccount::mark_position`.
    pub fn update_position(&mut self, user_id: &String, index: usize, price: u64) -> (r: Result<
        (),
        AppError,
    >)
        requires
            old(self).wf(),
        ensures
            final(self).wf(),
            !is_object_id_text(user_id@) ==> (r matches Err(e) && e is ValidationError) && *final(self) == *old(self),
            is_object_id_text(user_id@) && !old(self).accounts().contains_key(user_id@) ==> (r matches Err(
                e,
            ) && e is NotFoundError) && *final(self) == *old(self),
            is_object_id_text(user_id@) && old(self).accounts().contains_key(user_id@) ==> {
                let a = old(self).accounts()[user_id@];
                let b = final(self).accounts()[user_id@];
                &&& final(self).accounts() == old(self).accounts().insert(user_id@, b)
                &&& index >= a.position_list().len() ==> (r matches Err(e) && e is ValidationError) && b == a
                &&& index < a.position_list().len() ==> {
                    let p = a.position_list()[index as int];
                    let pnl = (price - p.entry_price) * p.quantity;
                    &&& -(I128_MAX as int) <= pnl <= I128_MAX ==> r is Ok && b.book() == a.book()
                        && b.order_log() == a.order_log() && b.position_list() == a.position_list().update(
                        index as int,
                        Position { current_price: price, unrealized_pnl: pnl as i128, ..p },
                    )
                    &&& !(-(I128_MAX as int) <= pnl <= I128_MAX) ==> r == Err::<(), AppError>(
                        AppError::OutOfRange,
                    ) && b == a
                }
            },
    {
        validate_object_id(user_id)?;
        let i = match self.find(user_id) {
            None => {
                return Err(AppError::NotFoundError("User not found".to_string()));
            },
            Some(i) => i,
        };
        let ghost before = self.accounts@;
        proof {
            assert(before[i as int].wf());
            lemma_keyed_at(before, account_owner(), account_itself(), i as int);
        }
        if index >= self.accounts[i].positions().len() {
            assert(self.accounts() =~= old(self).accounts().insert(user_id@, self.accounts()[user_id@]));
            return Err(AppError::ValidationError("no position at that index".to_string()));
        }
        let r = self.accounts[i].mark_position(index, price);
        proof {
            let written = self.accounts@[i as int];
            assert(self.accounts@ == before.update(i as int, written));
            lemma_keyed_update(before, account_owner(), account_itself(), i as int, written);
            assert forall|k: int| 0 <= k < self.accounts.len() implies (#[trigger] self.accounts[k]).wf() by {
                if k != i {
                    assert(self.accounts[k] == before[k]);
                }
            }
        }
        r
    }
}

} // verus!
